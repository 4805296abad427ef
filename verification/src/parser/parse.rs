//! A recursive descent parser from tokens to the concrete syntax tree. It
//! never fails: whatever it cannot make sense of becomes an invalid item and
//! a message.

use vstd::prelude::*;

use super::cst::{Item, ItemNode};
use super::grammar::{
    adv, closest, lemma_skip_delims_shorter, lemma_trees_concat, lemma_trees_empty, lemma_trees_push, next_is, p_annot, p_everything,
    p_expr, p_import, p_invoke, p_invoke_loop, p_item, p_items, p_items_loop, p_let, p_simple,
    report, skip_delims, skip_to, skip_to_item, tree, trees, PState, next_simple, invalid, opt_tree,
};
use super::tokens::{Token, TokenType};
use crate::messages::{msg, Message, MessageKind, ParseMessages};
use crate::source::Span;

verus! {

/// A number for each kind of token, telling the kinds apart regardless of
/// the text they carry.
pub open spec fn tag(kind: TokenType) -> int {
    match kind {
        TokenType::Indent => 0,
        TokenType::Dedent => 1,
        TokenType::Eol => 2,
        TokenType::Name(_) => 3,
        TokenType::Number(_) => 4,
        TokenType::String(_) => 5,
        TokenType::Fun => 6,
        TokenType::Import => 7,
        TokenType::Let => 8,
        TokenType::Equal => 9,
        TokenType::LeftParen => 10,
        TokenType::RightParen => 11,
        TokenType::Period => 12,
        TokenType::Semicolon => 13,
        TokenType::Colon => 14,
        TokenType::Documentation(_) => 15,
    }
}

/// Whether a token of this kind separates items.
pub open spec fn is_delimiter(kind: TokenType) -> bool {
    kind is Eol || kind is Semicolon
}

/// Whether a token of this kind starts a simple expression.
pub open spec fn starts_simple(kind: TokenType) -> bool {
    kind is Name || kind is Number || kind is String || kind is LeftParen || kind is Indent
}

/// Whether a token of this kind starts an item.
pub open spec fn starts_item(kind: TokenType) -> bool {
    kind is Import || kind is Let || starts_simple(kind)
}

/// Whether `rem` starts with `let` and then a token that starts a simple
/// expression: the start of a `let` item.
pub open spec fn starts_let(rem: Seq<Token>) -> bool {
    rem.len() >= 2 && rem[0].kind is Let && starts_simple(rem[1].kind)
}

/// The item a name, number or string token stands for on its own.
pub open spec fn leaf(t: Token) -> Option<Item> {
    match t.kind {
        TokenType::Name(name) => Some(Item { node: ItemNode::Name(name), span: t.span }),
        TokenType::Number(number) => Some(Item { node: ItemNode::Number(number), span: t.span }),
        TokenType::String(string) => Some(Item { node: ItemNode::String(string), span: t.span }),
        _ => None,
    }
}

/// Whether `rem` starts with a name, number or string that no `.` follows,
/// nor a `:` where `colon_too`.
pub open spec fn lone_leaf(rem: Seq<Token>, colon_too: bool) -> bool {
    &&& rem.len() >= 1
    &&& leaf(rem[0]) is Some
    &&& rem.len() >= 2 ==> !(rem[1].kind is Period) && !(colon_too && rem[1].kind is Colon)
}

/// The span covering the tokens `s`, joined from the first on; `s` is not
/// empty.
pub open spec fn tokens_span(s: Seq<Token>) -> Span
    decreases s.len(),
{
    if s.len() <= 1 {
        s[0].span
    } else {
        tokens_span(s.drop_last()).spec_join(s.last().span)
    }
}

/// `a` is what is left of `b` once some of its first tokens are gone.
pub open spec fn suffix_of(a: Seq<Token>, b: Seq<Token>) -> bool {
    &&& a.len() <= b.len()
    &&& a == b.subrange(b.len() - a.len(), b.len() as int)
}

proof fn lemma_suffix_trans(a: Seq<Token>, b: Seq<Token>, c: Seq<Token>)
    requires
        suffix_of(a, b),
        suffix_of(b, c),
    ensures
        suffix_of(a, c),
{
    assert(a =~= c.subrange(c.len() - a.len(), c.len() as int));
}

proof fn lemma_suffix_refl(a: Seq<Token>)
    ensures
        suffix_of(a, a),
{
    assert(a =~= a.subrange(0, a.len() as int));
}

/// The number telling apart the kind of `kind`.
fn tag_of(kind: &TokenType) -> (t: u8)
    ensures
        t == tag(*kind),
{
    match kind {
        TokenType::Indent => 0,
        TokenType::Dedent => 1,
        TokenType::Eol => 2,
        TokenType::Name(_) => 3,
        TokenType::Number(_) => 4,
        TokenType::String(_) => 5,
        TokenType::Fun => 6,
        TokenType::Import => 7,
        TokenType::Let => 8,
        TokenType::Equal => 9,
        TokenType::LeftParen => 10,
        TokenType::RightParen => 11,
        TokenType::Period => 12,
        TokenType::Semicolon => 13,
        TokenType::Colon => 14,
        TokenType::Documentation(_) => 15,
    }
}

/// Whether `token` is of the kind of `matcher`; the text of names, numbers,
/// strings and documentation is not compared.
fn matches(matcher: &TokenType, token: &Token) -> (r: bool)
    ensures
        r == (tag(*matcher) == tag(token.kind)),
{
    tag_of(matcher) == tag_of(&token.kind)
}

pub struct Parser {
    /// The tokens not yet consumed, the next one last.
    rest: Vec<Token>,
    /// The span of the token consumed last.
    previous: Option<Span>,
    messages: Vec<Message>,
}

impl Parser {
    /// The tokens not yet consumed, in order.
    pub closed spec fn remaining(self) -> Seq<Token> {
        Seq::new(self.rest@.len(), |i: int| self.rest@[self.rest@.len() - 1 - i])
    }

    /// The messages reported so far.
    pub closed spec fn messages(self) -> Seq<Message> {
        self.messages@
    }

    /// The span of the token consumed last, if the parser has not run past
    /// the end of the tokens.
    pub closed spec fn previous(self) -> Option<Span> {
        self.previous
    }

    /// The state of the parse.
    pub open spec fn state(self) -> PState {
        PState { rem: self.remaining(), prev: self.previous(), msgs: self.messages() }
    }

    /// Some span close to the current token: its own, else that of the
    /// token before, else the empty span at the start.
    pub open spec fn spec_closest_span(self) -> Span {
        if self.remaining().len() > 0 {
            self.remaining()[0].span
        } else {
            match self.previous() {
                Some(span) => span,
                None => Span::spec_new(0, 0),
            }
        }
    }

    /// Whether the next token, if any, starts an item.
    pub open spec fn at_item(self) -> bool {
        self.remaining().len() > 0 && starts_item(self.remaining()[0].kind)
    }

    /// Whether the next token, if any, starts a simple expression.
    pub open spec fn at_simple(self) -> bool {
        self.remaining().len() > 0 && starts_simple(self.remaining()[0].kind)
    }

    /// What holds of the parser after any step from `before` to `after`:
    /// some tokens were consumed from the front and messages were only
    /// added.
    pub open spec fn stepped(before: Parser, after: Parser) -> bool {
        &&& suffix_of(after.remaining(), before.remaining())
        &&& before.messages().is_prefix_of(after.messages())
    }

    proof fn lemma_stepped_trans(a: Parser, b: Parser, c: Parser)
        requires
            Parser::stepped(a, b),
            Parser::stepped(b, c),
        ensures
            Parser::stepped(a, c),
    {
        lemma_suffix_trans(c.remaining(), b.remaining(), a.remaining());
    }

    proof fn lemma_stepped_refl(a: Parser)
        ensures
            Parser::stepped(a, a),
    {
        lemma_suffix_refl(a.remaining());
        assert(a.messages().is_prefix_of(a.messages()));
    }

    /// Start parsing `tokens`.
    pub fn new(tokens: Vec<Token>) -> (parser: Parser)
        ensures
            parser.remaining() == tokens@,
            parser.messages().len() == 0,
            parser.previous() is None,
    {
        let mut tokens = tokens;
        let ghost original = tokens@;
        let mut rest: Vec<Token> = Vec::new();
        while tokens.len() > 0
            invariant
                original.len() == tokens@.len() + rest@.len(),
                forall|i: int| 0 <= i < tokens@.len() ==> #[trigger] tokens@[i] == original[i],
                forall|i: int|
                    0 <= i < rest@.len() ==> #[trigger] rest@[i] == original[original.len() - 1
                        - i],
            decreases tokens@.len(),
        {
            let token = tokens.pop().unwrap();
            rest.push(token);
        }
        let parser = Parser { rest, previous: None, messages: Vec::new() };
        assert(parser.remaining() =~= original);
        parser
    }

    /// Take the messages reported so far.
    pub fn take_messages(&mut self) -> (messages: Vec<Message>)
        ensures
            messages@ == old(self).messages(),
            final(self).messages().len() == 0,
            final(self).remaining() == old(self).remaining(),
            final(self).previous() == old(self).previous(),
    {
        let mut messages = Vec::new();
        std::mem::swap(&mut messages, &mut self.messages);
        messages
    }

    /// Parse items for as long as there are tokens, reporting whatever has
    /// to be skipped to get to the next item.
    #[verifier::spinoff_prover]
    #[verifier::rlimit(40)]
    pub fn parse_everything(&mut self) -> (items: Vec<Item>)
        ensures
            (trees(items@), final(self).state()) == p_everything(old(self).state()),
            final(self).remaining().len() == 0,
            old(self).messages().is_prefix_of(final(self).messages()),
    {
        let mut items = Vec::new();
        proof {
            Parser::lemma_stepped_refl(*self);
        }
        proof {
            lemma_trees_empty();
            assert(trees(items@) + p_everything(self.state()).0 =~= p_everything(self.state()).0);
        }
        while self.rest.len() > 0
            invariant
                Parser::stepped(*old(self), *self),
                trees(items@) + p_everything(self.state()).0 == p_everything(old(self).state()).0,
                p_everything(self.state()).1 == p_everything(old(self).state()).1,
            decreases self.rest@.len(),
        {
            let ghost before = *self;
            let ghost items0 = items@;
            let mut more = self.parse_items();
            let ghost more0 = more@;
            items.append(&mut more);
            proof {
                lemma_trees_concat(items0, more0);
            }
            let ghost middle = *self;
            proof {
                Parser::lemma_stepped_trans(*old(self), before, middle);
            }
            if let Some(skipped) = self.synchronize() {
                self.messages.expected_item(skipped);
                proof {
                    assert(middle.messages().is_prefix_of(self.messages()));
                }
            }
            proof {
                Parser::lemma_stepped_trans(*old(self), middle, *self);
                let (_, s1) = p_items(before.state());
                let s3 = self.state();
                assert(s3.rem.len() < before.state().rem.len());
                let (more_t, fin) = p_everything(s3);
                assert(p_everything(before.state()) == (trees(more0) + more_t, fin));
                assert(trees(items@) + more_t =~= trees(items0) + (trees(more0) + more_t));
            }
        }
        proof {
            assert(p_everything(self.state()).0 =~= Seq::<super::grammar::Tree>::empty());
            assert(trees(items@) + p_everything(self.state()).0 =~= trees(items@));
        }
        items
    }

    /// Get some span close to the current token.
    fn closest_span(&self) -> (span: Span)
        ensures
            span == self.spec_closest_span(),
    {
        if self.rest.len() > 0 {
            self.rest[self.rest.len() - 1].span
        } else {
            match self.previous {
                Some(span) => span,
                None => Span::new(0, 0),
            }
        }
    }

    /// Move the parser one token forward, handing out that token.
    fn advance(&mut self) -> (token: Option<Token>)
        ensures
            final(self).state() == adv(old(self).state()),
            old(self).remaining().len() > 0 ==> token == Some(old(self).remaining()[0])
                && final(self).remaining() == old(self).remaining().drop_first(),
            old(self).remaining().len() == 0 ==> token is None && final(self).remaining()
                == old(self).remaining(),
            final(self).previous() == match token {
                Some(t) => Some(t.span),
                None => None::<Span>,
            },
            final(self).messages() == old(self).messages(),
            Parser::stepped(*old(self), *final(self)),
    {
        let token = self.rest.pop();
        self.previous = match &token {
            Some(t) => Some(t.span),
            None => None,
        };
        proof {
            if old(self).remaining().len() > 0 {
                assert(self.remaining() =~= old(self).remaining().drop_first());
            } else {
                assert(self.remaining() =~= old(self).remaining());
            }
            assert(self.remaining() =~= old(self).remaining().subrange(
                old(self).remaining().len() - self.remaining().len(),
                old(self).remaining().len() as int,
            ));
            assert(self.messages().is_prefix_of(self.messages()));
        }
        token
    }

    /// Return the span of the current token if it is of the kind of
    /// `matcher`.
    fn peek(&self, matcher: &TokenType) -> (span: Option<Span>)
        ensures
            span == if self.remaining().len() > 0 && tag(*matcher) == tag(
                self.remaining()[0].kind,
            ) {
                Some(self.remaining()[0].span)
            } else {
                None::<Span>
            },
    {
        if self.rest.len() == 0 {
            return None;
        }
        let current = &self.rest[self.rest.len() - 1];
        if matches(matcher, current) {
            Some(current.span)
        } else {
            None
        }
    }

    /// Advance the parser and return the span of the current token if it is
    /// of the kind of `matcher`.
    fn consume(&mut self, matcher: &TokenType) -> (span: Option<Span>)
        ensures
            final(self).state() == if next_is(old(self).state(), tag(*matcher)) {
                adv(old(self).state())
            } else {
                old(self).state()
            },
            span == if old(self).remaining().len() > 0 && tag(*matcher) == tag(
                old(self).remaining()[0].kind,
            ) {
                Some(old(self).remaining()[0].span)
            } else {
                None::<Span>
            },
            span is Some ==> final(self).remaining() == old(self).remaining().drop_first()
                && final(self).previous() == span,
            span is None ==> *final(self) == *old(self),
            final(self).messages() == old(self).messages(),
            Parser::stepped(*old(self), *final(self)),
    {
        let span = self.peek(matcher);
        if span.is_some() {
            let _ = self.advance();
        } else {
            proof {
                Parser::lemma_stepped_refl(*self);
            }
        }
        span
    }

    /// Consume an `Eol` or `;` if that is the next token.
    fn consume_delimiter(&mut self) -> (consumed: bool)
        ensures
            final(self).state() == if old(self).remaining().len() > 0 && is_delimiter(
                old(self).remaining()[0].kind,
            ) {
                adv(old(self).state())
            } else {
                old(self).state()
            },
            consumed == (old(self).remaining().len() > 0 && is_delimiter(
                old(self).remaining()[0].kind,
            )),
            consumed ==> final(self).remaining() == old(self).remaining().drop_first(),
            !consumed ==> *final(self) == *old(self),
            final(self).messages() == old(self).messages(),
            Parser::stepped(*old(self), *final(self)),
    {
        if self.consume(&TokenType::Eol).is_some() {
            true
        } else {
            self.consume(&TokenType::Semicolon).is_some()
        }
    }

    /// Skip tokens until the current one is of the kind of `matcher`, or
    /// until there are none left. Does not skip past the matched token.
    /// Returns `true` if any tokens were skipped.
    fn skip_until(&mut self, matcher: &TokenType) -> (skipped: bool)
        ensures
            final(self).state() == skip_to(old(self).state(), tag(*matcher)),
            final(self).remaining().len() == 0 || tag(final(self).remaining()[0].kind) == tag(
                *matcher,
            ),
            skipped == (final(self).remaining().len() < old(self).remaining().len()),
            final(self).messages() == old(self).messages(),
            !skipped ==> *final(self) == *old(self),
            Parser::stepped(*old(self), *final(self)),
            forall|i: int|
                0 <= i < old(self).remaining().len() - final(self).remaining().len() ==> tag(
                    #[trigger] old(self).remaining()[i].kind,
                ) != tag(*matcher),
    {
        let mut skipped = false;
        proof {
            Parser::lemma_stepped_refl(*self);
        }
        while self.rest.len() > 0 && self.peek(matcher).is_none()
            invariant
                skip_to(self.state(), tag(*matcher)) == skip_to(old(self).state(), tag(*matcher)),
                Parser::stepped(*old(self), *self),
                self.messages() == old(self).messages(),
                skipped == (self.remaining().len() < old(self).remaining().len()),
                !skipped ==> *self == *old(self),
                forall|i: int|
                    0 <= i < old(self).remaining().len() - self.remaining().len() ==> tag(
                        #[trigger] old(self).remaining()[i].kind,
                    ) != tag(*matcher),
            decreases self.rest@.len(),
        {
            skipped = true;
            let ghost before = *self;
            let ghost k = old(self).remaining().len() - before.remaining().len();
            let _ = self.advance();
            proof {
                assert(before.remaining()[0] == old(self).remaining()[k]);
                Parser::lemma_stepped_trans(*old(self), before, *self);
            }
        }
        skipped
    }

    /// Skip tokens until one that starts an item, or until there are no
    /// more tokens. Returns the span covering the skipped tokens, if any.
    fn synchronize(&mut self) -> (skipped: Option<Span>)
        ensures
            (skipped, final(self).state()) == skip_to_item(old(self).state(), None),
            final(self).remaining().len() == 0 || final(self).at_item(),
            skipped is Some == (final(self).remaining().len() < old(self).remaining().len()),
            final(self).messages() == old(self).messages(),
            Parser::stepped(*old(self), *final(self)),
            skipped matches Some(span) ==> span == tokens_span(
                old(self).remaining().take(old(self).remaining().len() - final(self).remaining().len()),
            ),
            forall|i: int|
                0 <= i < old(self).remaining().len() - final(self).remaining().len() ==> !starts_item(
                    #[trigger] old(self).remaining()[i].kind,
                ),
    {
        let mut skipped: Option<Span> = None;
        proof {
            Parser::lemma_stepped_refl(*self);
        }
        while self.rest.len() > 0 && !self.peek_item()
            invariant
                skip_to_item(self.state(), skipped) == skip_to_item(old(self).state(), None),
                Parser::stepped(*old(self), *self),
                self.messages() == old(self).messages(),
                skipped is Some == (self.remaining().len() < old(self).remaining().len()),
                skipped matches Some(span) ==> span == tokens_span(
                    old(self).remaining().take(old(self).remaining().len() - self.remaining().len()),
                ),
                forall|i: int|
                    0 <= i < old(self).remaining().len() - self.remaining().len() ==> !starts_item(
                        #[trigger] old(self).remaining()[i].kind,
                    ),
            decreases self.rest@.len(),
        {
            let ghost before = *self;
            let ghost k = old(self).remaining().len() - before.remaining().len();
            proof {
                assert(before.remaining()[0] == old(self).remaining()[k]);
                assert(before.remaining()[0] == before.rest@[before.rest@.len() - 1]);
                assert(old(self).remaining().take(k + 1).drop_last() =~= old(self).remaining().take(k));
                assert(old(self).remaining().take(k + 1).last() == old(self).remaining()[k]);
            }
            let span = self.rest[self.rest.len() - 1].span;
            skipped = Some(
                match skipped {
                    Some(s) => s.join(span),
                    None => span,
                },
            );
            let _ = self.advance();
            proof {
                Parser::lemma_stepped_trans(*old(self), before, *self);
            }
        }
        skipped
    }

    /// Whether the current token could be the start of an item.
    fn peek_item(&self) -> (r: bool)
        ensures
            r == self.at_item(),
    {
        self.peek(&TokenType::Import).is_some() || self.peek(&TokenType::Let).is_some()
            || self.peek_expr()
    }

    /// Whether the current token could be the start of an expression.
    fn peek_expr(&self) -> (r: bool)
        ensures
            r == self.at_simple(),
    {
        self.peek_simple_expr()
    }

    /// Whether the current token could be the start of a simple expression.
    fn peek_simple_expr(&self) -> (r: bool)
        ensures
            r == self.at_simple(),
    {
        if self.rest.len() == 0 {
            return false;
        }
        match &self.rest[self.rest.len() - 1].kind {
            TokenType::Name(_) | TokenType::Number(_) | TokenType::String(_)
            | TokenType::LeftParen | TokenType::Indent => true,
            _ => false,
        }
    }

    /// Skip any number of `Eol` and `;` tokens.
    fn skip_delimiters(&mut self)
        ensures
            final(self).state() == skip_delims(old(self).state()),
            Parser::stepped(*old(self), *final(self)),
            final(self).remaining().len() == 0 || !is_delimiter(final(self).remaining()[0].kind),
            !(old(self).remaining().len() > 0 && is_delimiter(old(self).remaining()[0].kind))
                ==> *final(self) == *old(self),
    {
        proof {
            Parser::lemma_stepped_refl(*self);
        }
        loop
            invariant
                Parser::stepped(*old(self), *self),
                !(old(self).remaining().len() > 0 && is_delimiter(old(self).remaining()[0].kind))
                    ==> *self == *old(self),
                skip_delims(self.state()) == skip_delims(old(self).state()),
            ensures
                self.state() == skip_delims(old(self).state()),
                Parser::stepped(*old(self), *self),
                self.remaining().len() == 0 || !is_delimiter(self.remaining()[0].kind),
                !(old(self).remaining().len() > 0 && is_delimiter(old(self).remaining()[0].kind))
                    ==> *self == *old(self),
            decreases self.rest@.len(),
        {
            let ghost before = *self;
            if !self.consume_delimiter() {
                break;
            }
            proof {
                Parser::lemma_stepped_trans(*old(self), before, *self);
            }
        }
    }

    /// Parse several delimited items, skipping the delimiters around them.
    /// Stops at the first token that neither starts an item nor delimits
    /// one.
    pub fn parse_items(&mut self) -> (items: Vec<Item>)
        ensures
            (trees(items@), final(self).state()) == p_items(old(self).state()),
            Parser::stepped(*old(self), *final(self)),
            final(self).remaining().len() == 0 || !(final(self).at_item() || is_delimiter(
                final(self).remaining()[0].kind,
            )),
            !(old(self).at_item() || (old(self).remaining().len() > 0 && is_delimiter(
                old(self).remaining()[0].kind,
            ))) ==> *final(self) == *old(self) && items@.len() == 0,
            old(self).at_item() ==> items@.len() > 0,
            starts_let(old(self).remaining()) ==> items@[0].node is Let,
        decreases old(self).remaining().len(), 7nat,
    {
        let mut items: Vec<Item> = Vec::new();
        self.skip_delimiters();
        proof {
            lemma_skip_delims_shorter(old(self).state());
            lemma_trees_empty();
            assert(trees(items@) + p_items_loop(self.state()).0 =~= p_items_loop(self.state()).0);
        }
        while self.peek_item()
            invariant
                trees(items@) + p_items_loop(self.state()).0 == p_items(old(self).state()).0,
                p_items_loop(self.state()).1 == p_items(old(self).state()).1,
                Parser::stepped(*old(self), *self),
                self.remaining().len() == 0 || !is_delimiter(self.remaining()[0].kind),
                !(old(self).at_item() || (old(self).remaining().len() > 0 && is_delimiter(
                    old(self).remaining()[0].kind,
                ))) ==> *self == *old(self) && items@.len() == 0,
                old(self).at_item() ==> items@.len() > 0 || *self == *old(self),
                starts_let(old(self).remaining()) && items@.len() > 0 ==> items@[0].node is Let,
            decreases self.rest@.len(),
        {
            let ghost before = *self;
            let ghost items0 = items@;
            let item = self.parse_item();
            let ghost t = tree(item);
            items.push(item);
            let ghost middle = *self;
            self.skip_delimiters();
            proof {
                Parser::lemma_stepped_trans(before, middle, *self);
                Parser::lemma_stepped_trans(*old(self), before, *self);
                lemma_trees_push(items0, item);
                let (rest, fin) = p_items_loop(self.state());
                assert(p_items_loop(before.state()) == (seq![t] + rest, fin));
                assert(trees(items@) + rest =~= trees(items0) + (seq![t] + rest));
            }
        }
        proof {
            assert(p_items_loop(self.state()).0 =~= Seq::<super::grammar::Tree>::empty());
            assert(trees(items@) + p_items_loop(self.state()).0 =~= trees(items@));
        }
        items
    }

    /// Parse a single item.
    #[verifier::spinoff_prover]
    #[verifier::rlimit(60)]
    pub fn parse_item(&mut self) -> (item: Item)
        ensures
            (tree(item), final(self).state()) == p_item(old(self).state()),
            Parser::stepped(*old(self), *final(self)),
            old(self).at_item() ==> final(self).remaining().len() < old(self).remaining().len(),
            !old(self).at_item() ==> final(self).remaining() == old(self).remaining()
                && final(self).messages() == old(self).messages().push(
                msg(MessageKind::ExpectedItem, old(self).spec_closest_span()),
            ) && item == (Item { node: ItemNode::Invalid, span: old(self).spec_closest_span() }),
            lone_leaf(old(self).remaining(), true) ==> item == leaf(old(self).remaining()[0]).unwrap()
                && final(self).remaining() == old(self).remaining().drop_first()
                && final(self).messages() == old(self).messages(),
            old(self).remaining().len() > 0 && old(self).remaining()[0].kind is Import ==> (
            item.node is Import || item.node is Invalid),
            old(self).remaining().len() > 0 && old(self).remaining()[0].kind is Let ==> (
            item.node is Let || item.node is Invalid),
            starts_let(old(self).remaining()) ==> item.node is Let,
        decreases old(self).remaining().len(), 6nat,
    {
        if let Some(opener) = self.consume(&TokenType::Import) {
            let ghost middle = *self;
            let item = self.parse_import(opener);
            proof {
                Parser::lemma_stepped_trans(*old(self), middle, *self);
            }
            item
        } else if let Some(opener) = self.consume(&TokenType::Let) {
            let ghost middle = *self;
            let item = self.parse_let(opener);
            proof {
                Parser::lemma_stepped_trans(*old(self), middle, *self);
            }
            item
        } else if self.peek_expr() {
            self.parse_expr()
        } else {
            let span = self.closest_span();
            self.messages.expected_item(span);
            proof {
                Parser::lemma_stepped_refl(*old(self));
                assert(old(self).messages().is_prefix_of(self.messages()));
            }
            Item { span, node: ItemNode::Invalid }
        }
    }

    /// Parse an `import` item whose keyword is at `opener`.
    fn parse_import(&mut self, opener: Span) -> (item: Item)
        ensures
            (tree(item), final(self).state()) == p_import(old(self).state(), opener),
            Parser::stepped(*old(self), *final(self)),
            old(self).at_simple() ==> item.node is Import,
            !old(self).at_simple() ==> *final(self) == (Parser {
                messages: final(self).messages,
                ..*old(self)
            }) && final(self).messages() == old(self).messages().push(
                msg(MessageKind::ExpectedName, opener),
            ) && item == (Item { node: ItemNode::Invalid, span: opener }),
        decreases old(self).remaining().len(), 5nat,
    {
        if !self.peek_expr() {
            let span = opener;
            self.messages.expected_name(span);
            proof {
                assert(old(self).remaining() =~= self.remaining());
                Parser::lemma_stepped_refl(*old(self));
                assert(old(self).messages().is_prefix_of(self.messages()));
            }
            return Item { span, node: ItemNode::Invalid };
        }
        let item = self.parse_expr();
        let span = opener.join(item.span);
        Item { span, node: ItemNode::Import(Box::new(item)) }
    }

    /// Parse a `let` binding whose keyword is at `opener`.
    #[verifier::spinoff_prover]
    #[verifier::rlimit(60)]
    fn parse_let(&mut self, opener: Span) -> (item: Item)
        ensures
            (tree(item), final(self).state()) == p_let(old(self).state(), opener),
            Parser::stepped(*old(self), *final(self)),
            old(self).at_simple() ==> item.node is Let,
            !old(self).at_simple() ==> *final(self) == (Parser {
                messages: final(self).messages,
                ..*old(self)
            }) && final(self).messages() == old(self).messages().push(
                msg(MessageKind::ExpectedPattern, opener),
            ) && item == (Item { node: ItemNode::Invalid, span: opener }),
        decreases old(self).remaining().len(), 5nat,
    {
        if !self.peek_expr() {
            let span = opener;
            self.messages.expected_pattern(span);
            proof {
                assert(old(self).remaining() =~= self.remaining());
                Parser::lemma_stepped_refl(*old(self));
                assert(old(self).messages().is_prefix_of(self.messages()));
            }
            return Item { span, node: ItemNode::Invalid };
        }
        let pattern = Box::new(self.parse_expr());
        let ghost middle = *self;
        let body = match self.consume(&TokenType::Equal) {
            Some(span) => {
                let ghost after_equal = *self;
                if self.peek_expr() {
                    let body = self.parse_expr();
                    proof {
                        Parser::lemma_stepped_trans(middle, after_equal, *self);
                    }
                    Some(Box::new(body))
                } else {
                    self.messages.expected_expression(span);
                    proof {
                        assert(after_equal.remaining() =~= self.remaining());
                        assert(middle.messages().is_prefix_of(self.messages()));
                    }
                    Some(Box::new(Item { span, node: ItemNode::Invalid }))
                }
            },
            None => None,
        };
        proof {
            Parser::lemma_stepped_trans(*old(self), middle, *self);
            let s0 = old(self).state();
            assert(middle.state().rem.len() <= s0.rem.len());
            assert((tree(*pattern), middle.state()) == p_expr(s0));
            let tb = opt_tree(body);
            let s1 = middle.state();
            let expected = if next_is(s1, 9) {
                let span = s1.rem[0].span;
                let s1b = adv(s1);
                if next_simple(s1b) {
                    let (b, s2) = p_expr(s1b);
                    (Some(Box::new(b)), s2)
                } else {
                    (
                        Some(Box::new(invalid(span))),
                        report(s1b, msg(MessageKind::ExpectedExpression, span)),
                    )
                }
            } else {
                (None, s1)
            };
            assert((tb, self.state()) == expected);
        }
        let span = opener.join(self.closest_span());
        let item = Item { span, node: ItemNode::Let { pattern, body } };
        proof {
            assert(tree(item).span == opener.spec_join(closest(self.state())));
        }
        item
    }

    /// Parse an expression.
    pub fn parse_expr(&mut self) -> (item: Item)
        ensures
            (tree(item), final(self).state()) == p_expr(old(self).state()),
            Parser::stepped(*old(self), *final(self)),
            old(self).remaining().len() > 0 ==> final(self).remaining().len() < old(
                self,
            ).remaining().len(),
            lone_leaf(old(self).remaining(), true) ==> item == leaf(old(self).remaining()[0]).unwrap()
                && final(self).remaining() == old(self).remaining().drop_first()
                && final(self).messages() == old(self).messages(),
        decreases old(self).remaining().len(), 4nat,
    {
        self.annotation_expr()
    }

    /// Parse an expression, possibly followed by `:` and a type.
    fn annotation_expr(&mut self) -> (item: Item)
        ensures
            (tree(item), final(self).state()) == p_annot(old(self).state()),
            Parser::stepped(*old(self), *final(self)),
            old(self).remaining().len() > 0 ==> final(self).remaining().len() < old(
                self,
            ).remaining().len(),
            lone_leaf(old(self).remaining(), true) ==> item == leaf(old(self).remaining()[0]).unwrap()
                && final(self).remaining() == old(self).remaining().drop_first()
                && final(self).messages() == old(self).messages(),
        decreases old(self).remaining().len(), 3nat,
    {
        let expr = self.invoke_expr();
        let ghost middle = *self;
        proof {
            if lone_leaf(old(self).remaining(), true) {
                assert(middle.remaining().len() >= 1 ==> middle.remaining()[0] == old(self).remaining()[1]);
            }
        }
        if self.consume(&TokenType::Colon).is_some() {
            let ghost after_colon = *self;
            let ty = self.invoke_expr();
            proof {
                Parser::lemma_stepped_trans(middle, after_colon, *self);
                Parser::lemma_stepped_trans(*old(self), middle, *self);
            }
            let span = expr.span.join(ty.span);
            Item { span, node: ItemNode::Annotation(Box::new(expr), Box::new(ty)) }
        } else {
            expr
        }
    }

    /// Parse a simple expression followed by any number of `.` and simple
    /// expressions.
    fn invoke_expr(&mut self) -> (item: Item)
        ensures
            (tree(item), final(self).state()) == p_invoke(old(self).state()),
            Parser::stepped(*old(self), *final(self)),
            old(self).remaining().len() > 0 ==> final(self).remaining().len() < old(
                self,
            ).remaining().len(),
            lone_leaf(old(self).remaining(), false) ==> item == leaf(old(self).remaining()[0]).unwrap()
                && final(self).remaining() == old(self).remaining().drop_first()
                && final(self).messages() == old(self).messages(),
        decreases old(self).remaining().len(), 2nat,
    {
        let mut expr = self.simple_expr();
        let ghost mid = *self;
        proof {
            if lone_leaf(old(self).remaining(), false) {
                assert(mid.remaining().len() >= 1 ==> mid.remaining()[0] == old(self).remaining()[1]);
            }
        }
        loop
            invariant
                p_invoke_loop(tree(expr), self.state()) == p_invoke(old(self).state()),
                Parser::stepped(*old(self), *self),
                old(self).remaining().len() > 0 ==> self.remaining().len() < old(
                    self,
                ).remaining().len(),
                lone_leaf(old(self).remaining(), false) ==> *self == mid
                    && expr == leaf(old(self).remaining()[0]).unwrap()
                    && mid.remaining() == old(self).remaining().drop_first()
                    && mid.messages() == old(self).messages()
                    && (mid.remaining().len() >= 1 ==> !(mid.remaining()[0].kind is Period)),
            ensures
                (tree(expr), self.state()) == p_invoke(old(self).state()),
                p_invoke_loop(tree(expr), self.state()) == p_invoke(old(self).state()),
                Parser::stepped(*old(self), *self),
                old(self).remaining().len() > 0 ==> self.remaining().len() < old(
                    self,
                ).remaining().len(),
                lone_leaf(old(self).remaining(), false) ==> *self == mid
                    && expr == leaf(old(self).remaining()[0]).unwrap()
                    && mid.remaining() == old(self).remaining().drop_first()
                    && mid.messages() == old(self).messages()
                    && (mid.remaining().len() >= 1 ==> !(mid.remaining()[0].kind is Period)),
            decreases self.rest@.len(),
        {
            let ghost before = *self;
            let period = match self.consume(&TokenType::Period) {
                Some(period) => period,
                None => {
                    proof {
                        assert(p_invoke_loop(tree(expr), self.state()) == (tree(expr), self.state()));
                        assert((tree(expr), self.state()) == p_invoke(old(self).state()));
                    }
                    break;
                },
            };
            if self.peek_simple_expr() {
                let ghost middle = *self;
                let field = self.simple_expr();
                proof {
                    Parser::lemma_stepped_trans(before, middle, *self);
                }
                let span = expr.span.join(field.span);
                expr = Item { span, node: ItemNode::Path(Box::new(expr), Box::new(field)) };
            } else {
                self.messages.expected_name(period);
                proof {
                    assert(before.messages().is_prefix_of(self.messages()));
                }
            }
            proof {
                Parser::lemma_stepped_trans(*old(self), before, *self);
            }
        }
        expr
    }

    /// Parse a name, number, string, or a group in parentheses or indented.
    /// Whatever the current token is, it is consumed.
    fn simple_expr(&mut self) -> (item: Item)
        ensures
            (tree(item), final(self).state()) == p_simple(old(self).state()),
            Parser::stepped(*old(self), *final(self)),
            old(self).remaining().len() > 0 ==> final(self).remaining().len() < old(
                self,
            ).remaining().len(),
            old(self).remaining().len() > 0 ==> match old(self).remaining()[0].kind {
                TokenType::Name(name) => item == (Item {
                    node: ItemNode::Name(name),
                    span: old(self).remaining()[0].span,
                }) && final(self).remaining() == old(self).remaining().drop_first()
                    && final(self).messages() == old(self).messages(),
                TokenType::Number(number) => item == (Item {
                    node: ItemNode::Number(number),
                    span: old(self).remaining()[0].span,
                }) && final(self).remaining() == old(self).remaining().drop_first()
                    && final(self).messages() == old(self).messages(),
                TokenType::String(string) => item == (Item {
                    node: ItemNode::String(string),
                    span: old(self).remaining()[0].span,
                }) && final(self).remaining() == old(self).remaining().drop_first()
                    && final(self).messages() == old(self).messages(),
                TokenType::LeftParen => {
                    let k = old(self).remaining().len() - final(self).remaining().len();
                    &&& item.node is Group
                    &&& ((old(self).remaining()[k - 1].kind is RightParen && k >= 2 && item.span
                        == old(self).remaining()[0].span.spec_join(old(self).remaining()[k - 1].span))
                        || (final(self).messages().len() > 0 && final(self).messages().last() == msg(
                        MessageKind::UnclosedParenthesis,
                        old(self).remaining()[0].span,
                    )))
                },
                TokenType::Indent => {
                    let k = old(self).remaining().len() - final(self).remaining().len();
                    &&& item.node is Group
                    &&& (final(self).remaining().len() == 0 || (k >= 2 && old(self).remaining()[k
                        - 1].kind is Dedent))
                },
                _ => item.node is Invalid && final(self).remaining() == old(
                    self,
                ).remaining().drop_first() && final(self).messages() == old(
                    self,
                ).messages().push(msg(MessageKind::ExpectedExpression, item.span)),
            },
            old(self).remaining().len() == 0 ==> item == (Item {
                node: ItemNode::Invalid,
                span: Span::spec_new(0, 0),
            }) && final(self).remaining() == old(self).remaining(),
        decreases old(self).remaining().len(), 1nat,
    {
        let current = self.advance();
        let ghost after = *self;
        proof {
            Parser::lemma_stepped_refl(after);
        }
        let (node, span) = match current {
            Some(Token { kind: TokenType::Name(name), span, .. }) => (ItemNode::Name(name), span),
            Some(Token { kind: TokenType::Number(number), span, .. }) => (
                ItemNode::Number(number),
                span,
            ),
            Some(Token { kind: TokenType::String(string), span, .. }) => (
                ItemNode::String(string),
                span,
            ),
            Some(Token { kind: TokenType::LeftParen, span: opener, .. }) => {
                let items = self.parse_items();
                let ghost middle = *self;
                let span = match self.consume(&TokenType::RightParen) {
                    Some(span) => span,
                    None => {
                        self.messages.unclosed_parenthesis(opener);
                        proof {
                            assert(middle.messages().is_prefix_of(self.messages()));
                            assert(middle.remaining() =~= self.remaining());
                        }
                        self.closest_span()
                    },
                };
                proof {
                    Parser::lemma_stepped_trans(after, middle, *self);
                    Parser::lemma_stepped_trans(*old(self), after, middle);
                    let o = old(self).remaining();
                    let k = o.len() - self.remaining().len();
                    if self.remaining().len() < middle.remaining().len() {
                        assert(middle.remaining() =~= o.subrange(k - 1, o.len() as int));
                        assert(middle.remaining()[0] == o[k - 1]);
                    }
                }
                (ItemNode::Group(items), opener.join(span))
            },
            Some(Token { kind: TokenType::Indent, span: opener, .. }) => {
                let items = self.parse_items();
                let dedent_span = self.closest_span();
                let ghost middle = *self;
                if self.skip_until(&TokenType::Dedent) {
                    self.messages.expected_item(dedent_span);
                    proof {
                        assert(middle.messages().is_prefix_of(self.messages()));
                    }
                }
                let ghost skipped = *self;
                // The group ends at its `Dedent`; at the end of the tokens
                // there is none left to consume.
                let _ = self.consume(&TokenType::Dedent);
                proof {
                    Parser::lemma_stepped_trans(middle, skipped, *self);
                    Parser::lemma_stepped_trans(after, middle, *self);
                    Parser::lemma_stepped_trans(after, middle, skipped);
                    Parser::lemma_stepped_trans(*old(self), after, skipped);
                    let o = old(self).remaining();
                    let k = o.len() - self.remaining().len();
                    if self.remaining().len() > 0 {
                        assert(self.remaining().len() < skipped.remaining().len());
                        assert(skipped.remaining() =~= o.subrange(k - 1, o.len() as int));
                        assert(skipped.remaining()[0] == o[k - 1]);
                    }
                }
                (ItemNode::Group(items), opener.join(dedent_span))
            },
            _ => {
                let span = self.closest_span();
                self.messages.expected_expression(span);
                proof {
                    assert(after.remaining() =~= self.remaining());
                    assert(after.messages().is_prefix_of(self.messages()));
                }
                (ItemNode::Invalid, span)
            },
        };
        proof {
            Parser::lemma_stepped_trans(*old(self), after, *self);
        }
        Item { span, node }
    }
}

} // verus!
