//! From source text to abstract syntax trees: tokens, a concrete syntax tree
//! and then its abstraction.

pub mod abstraction;
pub mod cst;
pub mod grammar;
pub mod parse;
pub mod tokens;

use vstd::prelude::*;

use self::abstraction::{abstract_item, item_messages, item_of};
use self::grammar::{p_items, start, trees};
use self::parse::Parser;
use self::tokens::get_tokens;
use crate::ast;
use crate::messages::Message;
use crate::vecs::reversed;

verus! {

/// Whether `asts` is, in order, what those of `items` that mean something
/// mean as declarations.
pub open spec fn items_of(items: Seq<cst::Item>, asts: Seq<ast::Item>) -> bool
    decreases items.len(),
{
    if items.len() == 0 {
        asts.len() == 0
    } else if items.last().node is Let {
        &&& asts.len() > 0
        &&& item_of(items.last(), Some(asts.last()))
        &&& items_of(items.drop_last(), asts.drop_last())
    } else {
        items_of(items.drop_last(), asts)
    }
}

/// The messages reported when reading each of `items` as a declaration.
pub open spec fn items_messages(items: Seq<cst::Item>) -> Seq<Message>
    decreases items.len(),
{
    if items.len() == 0 {
        Seq::empty()
    } else {
        items_messages(items.drop_last()) + item_messages(items.last())
    }
}

/// Read each of `items` as a declaration, keeping those that mean one.
pub fn abstract_items(items: Vec<cst::Item>, messages: &mut Vec<Message>) -> (asts: Vec<
    ast::Item,
>)
    ensures
        items_of(items@, asts@),
        final(messages)@ == old(messages)@ + items_messages(items@),
{
    let ghost all = items@;
    let mut rest = reversed(items);
    let mut asts: Vec<ast::Item> = Vec::new();
    let ghost mut k: int = 0;
    proof {
        assert(all.take(0) =~= Seq::<cst::Item>::empty());
        assert(old(messages)@ + Seq::<Message>::empty() =~= old(messages)@);
    }
    while rest.len() > 0
        invariant
            0 <= k <= all.len(),
            k + rest@.len() == all.len(),
            forall|i: int| 0 <= i < rest@.len() ==> #[trigger] rest@[i] == all[all.len() - 1 - i],
            items_of(all.take(k), asts@),
            messages@ == old(messages)@ + items_messages(all.take(k)),
        decreases rest@.len(),
    {
        let ghost before = asts@;
        let item = rest.pop().unwrap();
        assert(item == all[k]);
        assert(all.take(k + 1).drop_last() =~= all.take(k));
        let r = abstract_item(item, messages);
        if let Some(ast) = r {
            asts.push(ast);
            assert(asts@.drop_last() =~= before);
        }
        proof {
            k = k + 1;
        }
        assert(messages@ =~= old(messages)@ + items_messages(all.take(k)));
    }
    assert(all.take(k) =~= all);
    asts
}

/// Whether the tokens `outs` describe start with `let` and then a token that
/// starts a simple expression.
pub open spec fn opens_with_let(outs: Seq<tokens::Out>) -> bool {
    &&& outs.len() >= 2
    &&& outs[0] matches tokens::Out::Raw(k, _, _) && k == tokens::raw::RawKind::Let
    &&& match outs[1] {
        tokens::Out::Raw(k, _, _) => k == tokens::raw::RawKind::Name || k == tokens::raw::RawKind::Number
            || k == tokens::raw::RawKind::String || k == tokens::raw::RawKind::LeftParen,
        tokens::Out::Layout(l, _) => l is Indent,
    }
}

/// Declarations are read from items whenever some item is a `let`.
proof fn lemma_let_item_read(items: Seq<cst::Item>, asts: Seq<ast::Item>, i: int)
    requires
        items_of(items, asts),
        0 <= i < items.len(),
        items[i].node is Let,
    ensures
        asts.len() > 0,
    decreases items.len(),
{
    if items.last().node is Let {
    } else {
        assert(i < items.len() - 1);
        assert(items.drop_last()[i] == items[i]);
        lemma_let_item_read(items.drop_last(), asts, i);
    }
}

/// The abstract syntax tree of a source text: tokenize it, parse items for
/// as long as they follow one another, and read each as a declaration. The
/// messages are those of tokenizing, then of parsing, then of reading.
pub fn get_ast(content: &str) -> (r: (Vec<ast::Item>, Vec<Message>))
    ensures
        exists|toks: Seq<tokens::Token>, parsed: Seq<cst::Item>|
            #![trigger tokens::outs_are(toks, tokens::lex_outs(content@), content@), items_of(parsed, r.0@)]
            {
                &&& tokens::outs_are(toks, tokens::lex_outs(content@), content@)
                &&& trees(parsed) == p_items(start(toks)).0
                &&& items_of(parsed, r.0@)
                &&& r.1@ == tokens::lex_messages(content@) + p_items(start(toks)).1.msgs
                    + items_messages(parsed)
            },
        exists|items: Seq<cst::Item>|
            #[trigger] items_of(items, r.0@) && items_messages(items).is_suffix_of(r.1@),
        tokens::lex_messages(content@).is_prefix_of(r.1@),
        opens_with_let(tokens::lex_outs(content@)) ==> r.0@.len() > 0,
{
    let (tokens, mut messages) = get_tokens(content);
    let ghost toks = tokens@;
    let ghost lex_msgs = messages@;
    let mut parser = Parser::new(tokens);
    proof {
        if opens_with_let(tokens::lex_outs(content@)) {
            assert(tokens::out_is(toks[0], tokens::lex_outs(content@)[0], content@));
            assert(tokens::out_is(toks[1], tokens::lex_outs(content@)[1], content@));
            assert(self::parse::starts_let(toks));
        }
    }
    proof {
        assert(parser.state() == start(toks)) by {
            assert(parser.messages() =~= Seq::<Message>::empty());
        }
    }
    let items = parser.parse_items();
    let mut parse_messages = parser.take_messages();
    let ghost pm = parse_messages@;
    messages.append(&mut parse_messages);
    let ghost parsed = items@;
    let ghost before = messages@;
    let asts = abstract_items(items, &mut messages);
    assert(items_messages(parsed).is_suffix_of(messages@)) by {
        assert(messages@.subrange(
            messages@.len() - items_messages(parsed).len(),
            messages@.len() as int,
        ) =~= items_messages(parsed));
    }
    let r = (asts, messages);
    assert(items_of(parsed, r.0@));
    proof {
        assert(lex_msgs.is_prefix_of(r.1@)) by {
            assert(r.1@.subrange(0, lex_msgs.len() as int) =~= lex_msgs);
        }
        if opens_with_let(tokens::lex_outs(content@)) {
            lemma_let_item_read(parsed, r.0@, 0);
        }
    }
    assert(items_messages(parsed).is_suffix_of(r.1@));
    assert(r.1@ == tokens::lex_messages(content@) + p_items(start(toks)).1.msgs + items_messages(parsed));
    assert(tokens::outs_are(toks, tokens::lex_outs(content@), content@) && items_of(parsed, r.0@));
    r
}

} // verus!
