//! The grammar the parser reads, as functions from the state of a parse to
//! what is read and the state after it:
//!
//! ```text
//! items      = { delimiter } { item { delimiter } }
//! item       = "import" expr | "let" expr [ "=" expr ] | expr
//! expr       = invoke [ ":" invoke ]
//! invoke     = simple { "." simple }
//! simple     = name | number | string | "(" items ")" | indent items dedent
//! everything = { items skipped }
//! ```
//!
//! Where the tokens do not follow it, an invalid node and a message take the
//! place of what was expected, and the parse goes on.

use vstd::prelude::*;

use super::cst::{Item, ItemNode};
use super::parse::{is_delimiter, starts_item, starts_simple, tag};
use super::tokens::{Token, TokenType};
use crate::messages::{msg, Message, MessageKind};
use crate::source::Span;

verus! {

/// The state of a parse: the tokens left, the span of the token consumed
/// last (none at the start or past the end), and the messages so far.
pub struct PState {
    pub rem: Seq<Token>,
    pub prev: Option<Span>,
    pub msgs: Seq<Message>,
}

/// A node of the concrete syntax tree, with its lists as sequences.
pub enum TreeNode {
    Import(Box<Tree>),
    Let { pattern: Box<Tree>, body: Option<Box<Tree>> },
    Annotation(Box<Tree>, Box<Tree>),
    Path(Box<Tree>, Box<Tree>),
    Group(Seq<Tree>),
    Name(Seq<char>),
    Number(Seq<char>),
    String(Seq<char>),
    Invalid,
}

/// A node of the concrete syntax tree with its span.
pub struct Tree {
    pub node: TreeNode,
    pub span: Span,
}

/// The tree an item stands for.
pub open spec fn tree(item: Item) -> Tree
    decreases item, 1nat,
{
    let node = match item.node {
        ItemNode::Import(a) => TreeNode::Import(Box::new(tree(*a))),
        ItemNode::Let { pattern, body } => TreeNode::Let {
            pattern: Box::new(tree(*pattern)),
            body: match body {
                Some(b) => Some(Box::new(tree(*b))),
                None => None,
            },
        },
        ItemNode::Annotation(a, b) => TreeNode::Annotation(Box::new(tree(*a)), Box::new(tree(*b))),
        ItemNode::Path(a, b) => TreeNode::Path(Box::new(tree(*a)), Box::new(tree(*b))),
        ItemNode::Group(items) => TreeNode::Group(trees(items@)),
        ItemNode::Name(s) => TreeNode::Name(s@),
        ItemNode::Number(s) => TreeNode::Number(s@),
        ItemNode::String(s) => TreeNode::String(s@),
        ItemNode::Invalid => TreeNode::Invalid,
    };
    Tree { node, span: item.span }
}

/// The tree an optional item stands for.
pub open spec fn opt_tree(item: Option<Box<Item>>) -> Option<Box<Tree>> {
    match item {
        Some(b) => Some(Box::new(tree(*b))),
        None => None,
    }
}

/// The trees the items stand for, in order.
pub open spec fn trees(items: Seq<Item>) -> Seq<Tree>
    decreases items, 0nat,
{
    if items.len() == 0 {
        Seq::empty()
    } else {
        trees(items.subrange(0, items.len() - 1)).push(tree(items[items.len() - 1]))
    }
}

pub proof fn lemma_trees_push(items: Seq<Item>, item: Item)
    ensures
        trees(items.push(item)) == trees(items).push(tree(item)),
{
    assert(items.push(item).subrange(0, items.len() as int) =~= items);
}

pub proof fn lemma_trees_concat(a: Seq<Item>, b: Seq<Item>)
    ensures
        trees(a + b) == trees(a) + trees(b),
    decreases b.len(),
{
    if b.len() == 0 {
        assert(a + b =~= a);
        assert(trees(a) + trees(b) =~= trees(a));
    } else {
        let c = b.subrange(0, b.len() - 1);
        lemma_trees_concat(a, c);
        assert((a + b).subrange(0, (a + b).len() - 1) =~= a + c);
        assert((a + b)[(a + b).len() - 1] == b[b.len() - 1]);
        assert(trees(a) + trees(b) =~= (trees(a) + trees(c)).push(tree(b[b.len() - 1])));
    }
}

pub proof fn lemma_trees_empty()
    ensures
        trees(Seq::<Item>::empty()) == Seq::<Tree>::empty(),
{
}

/// The state at the start of parsing `tokens`.
pub open spec fn start(tokens: Seq<Token>) -> PState {
    PState { rem: tokens, prev: None, msgs: Seq::empty() }
}

/// Some span close to the current token: its own, else that of the token
/// before, else the empty span at the start.
pub open spec fn closest(s: PState) -> Span {
    if s.rem.len() > 0 {
        s.rem[0].span
    } else {
        match s.prev {
            Some(span) => span,
            None => Span::spec_new(0, 0),
        }
    }
}

/// The state after consuming one token; past the end there is no token
/// before.
pub open spec fn adv(s: PState) -> PState {
    if s.rem.len() > 0 {
        PState { rem: s.rem.drop_first(), prev: Some(s.rem[0].span), msgs: s.msgs }
    } else {
        PState { rem: s.rem, prev: None, msgs: s.msgs }
    }
}

/// The state after reporting `m`.
pub open spec fn report(s: PState, m: Message) -> PState {
    PState { rem: s.rem, prev: s.prev, msgs: s.msgs.push(m) }
}

/// Whether the next token is of the kind numbered `t`.
pub open spec fn next_is(s: PState, t: int) -> bool {
    s.rem.len() > 0 && tag(s.rem[0].kind) == t
}

pub open spec fn next_item(s: PState) -> bool {
    s.rem.len() > 0 && starts_item(s.rem[0].kind)
}

pub open spec fn next_simple(s: PState) -> bool {
    s.rem.len() > 0 && starts_simple(s.rem[0].kind)
}

/// The state after skipping delimiters.
pub open spec fn skip_delims(s: PState) -> PState
    decreases s.rem.len(),
{
    if s.rem.len() > 0 && is_delimiter(s.rem[0].kind) {
        skip_delims(adv(s))
    } else {
        s
    }
}

/// The state after skipping to the next token of the kind numbered `t`.
pub open spec fn skip_to(s: PState, t: int) -> PState
    decreases s.rem.len(),
{
    if s.rem.len() > 0 && tag(s.rem[0].kind) != t {
        skip_to(adv(s), t)
    } else {
        s
    }
}

/// The span of the tokens skipped to get to the next item, joined onto
/// `acc`, and the state after them.
pub open spec fn skip_to_item(s: PState, acc: Option<Span>) -> (Option<Span>, PState)
    decreases s.rem.len(),
{
    if s.rem.len() > 0 && !starts_item(s.rem[0].kind) {
        let span = s.rem[0].span;
        skip_to_item(
            adv(s),
            Some(
                match acc {
                    Some(a) => a.spec_join(span),
                    None => span,
                },
            ),
        )
    } else {
        (acc, s)
    }
}

pub proof fn lemma_skip_delims_shorter(s: PState)
    ensures
        skip_delims(s).rem.len() <= s.rem.len(),
    decreases s.rem.len(),
{
    if s.rem.len() > 0 && is_delimiter(s.rem[0].kind) {
        lemma_skip_delims_shorter(adv(s));
    }
}

pub open spec fn invalid(span: Span) -> Tree {
    Tree { node: TreeNode::Invalid, span }
}

/// `items`: delimiters, then items each followed by delimiters.
pub open spec fn p_items(s: PState) -> (Seq<Tree>, PState)
    decreases s.rem.len(), 9nat,
{
    let s1 = skip_delims(s);
    if s1.rem.len() <= s.rem.len() {
        p_items_loop(s1)
    } else {
        (Seq::empty(), s1)
    }
}

/// Items, each followed by delimiters, for as long as one starts.
pub open spec fn p_items_loop(s: PState) -> (Seq<Tree>, PState)
    decreases s.rem.len(), 8nat,
{
    if next_item(s) {
        let (item, s2) = p_item(s);
        let s3 = skip_delims(s2);
        if s3.rem.len() < s.rem.len() {
            let (rest, s4) = p_items_loop(s3);
            (seq![item] + rest, s4)
        } else {
            (seq![item], s3)
        }
    } else {
        (Seq::empty(), s)
    }
}

/// `item`: an import, a `let` or an expression.
pub open spec fn p_item(s: PState) -> (Tree, PState)
    decreases s.rem.len(), 7nat,
{
    if next_is(s, 7) {
        p_import(adv(s), s.rem[0].span)
    } else if next_is(s, 8) {
        p_let(adv(s), s.rem[0].span)
    } else if next_simple(s) {
        p_expr(s)
    } else {
        (invalid(closest(s)), report(s, msg(MessageKind::ExpectedItem, closest(s))))
    }
}

/// What follows `import`.
pub open spec fn p_import(s: PState, opener: Span) -> (Tree, PState)
    decreases s.rem.len(), 6nat,
{
    if !next_simple(s) {
        (invalid(opener), report(s, msg(MessageKind::ExpectedName, opener)))
    } else {
        let (e, s1) = p_expr(s);
        (Tree { node: TreeNode::Import(Box::new(e)), span: opener.spec_join(e.span) }, s1)
    }
}

/// What follows `let`: a pattern and, after `=`, a body.
pub open spec fn p_let(s: PState, opener: Span) -> (Tree, PState)
    decreases s.rem.len(), 6nat,
{
    if !next_simple(s) {
        (invalid(opener), report(s, msg(MessageKind::ExpectedPattern, opener)))
    } else {
        let (pattern, s1) = p_expr(s);
        if s1.rem.len() <= s.rem.len() {
            let (body, s2) = if next_is(s1, 9) {
                let span = s1.rem[0].span;
                let s1b = adv(s1);
                if next_simple(s1b) {
                    let (b, s2) = p_expr(s1b);
                    (Some(Box::new(b)), s2)
                } else {
                    (
                        Some(Box::new(invalid(span))),
                        report(s1b, msg(MessageKind::ExpectedExpression, span)),
                    )
                }
            } else {
                (None, s1)
            };
            (
                Tree {
                    node: TreeNode::Let { pattern: Box::new(pattern), body },
                    span: opener.spec_join(closest(s2)),
                },
                s2,
            )
        } else {
            (invalid(opener), s1)
        }
    }
}

/// `expr`: an invocation, annotated after `:` by another.
pub open spec fn p_expr(s: PState) -> (Tree, PState)
    decreases s.rem.len(), 5nat,
{
    p_annot(s)
}

pub open spec fn p_annot(s: PState) -> (Tree, PState)
    decreases s.rem.len(), 4nat,
{
    let (e, s1) = p_invoke(s);
    if s1.rem.len() <= s.rem.len() && next_is(s1, 14) {
        let (ty, s3) = p_invoke(adv(s1));
        (
            Tree {
                node: TreeNode::Annotation(Box::new(e), Box::new(ty)),
                span: e.span.spec_join(ty.span),
            },
            s3,
        )
    } else {
        (e, s1)
    }
}

/// `invoke`: simple expressions joined by `.`.
pub open spec fn p_invoke(s: PState) -> (Tree, PState)
    decreases s.rem.len(), 3nat,
{
    let (e, s1) = p_simple(s);
    if s1.rem.len() <= s.rem.len() {
        p_invoke_loop(e, s1)
    } else {
        (e, s1)
    }
}

/// The paths onto `e` for as long as a `.` follows.
pub open spec fn p_invoke_loop(e: Tree, s: PState) -> (Tree, PState)
    decreases s.rem.len(), 2nat,
{
    if next_is(s, 12) {
        let period = s.rem[0].span;
        let s1 = adv(s);
        if next_simple(s1) {
            let (field, s2) = p_simple(s1);
            let path = Tree {
                node: TreeNode::Path(Box::new(e), Box::new(field)),
                span: e.span.spec_join(field.span),
            };
            if s2.rem.len() < s.rem.len() {
                p_invoke_loop(path, s2)
            } else {
                (path, s2)
            }
        } else {
            p_invoke_loop(e, report(s1, msg(MessageKind::ExpectedName, period)))
        }
    } else {
        (e, s)
    }
}

/// `simple`: a name, number or string, a parenthesized group, an indented
/// group; anything else is invalid.
pub open spec fn p_simple(s: PState) -> (Tree, PState)
    decreases s.rem.len(), 1nat,
{
    let s1 = adv(s);
    if s.rem.len() == 0 {
        (invalid(closest(s1)), report(s1, msg(MessageKind::ExpectedExpression, closest(s1))))
    } else {
        let t = s.rem[0];
        match t.kind {
            TokenType::Name(x) => (Tree { node: TreeNode::Name(x@), span: t.span }, s1),
            TokenType::Number(x) => (Tree { node: TreeNode::Number(x@), span: t.span }, s1),
            TokenType::String(x) => (Tree { node: TreeNode::String(x@), span: t.span }, s1),
            TokenType::LeftParen => {
                let (items, s2) = p_items(s1);
                if next_is(s2, 11) {
                    (
                        Tree { node: TreeNode::Group(items), span: t.span.spec_join(s2.rem[0].span) },
                        adv(s2),
                    )
                } else {
                    let s3 = report(s2, msg(MessageKind::UnclosedParenthesis, t.span));
                    (Tree { node: TreeNode::Group(items), span: t.span.spec_join(closest(s3)) }, s3)
                }
            },
            TokenType::Indent => {
                let (items, s2) = p_items(s1);
                let dedent = closest(s2);
                let s3 = skip_to(s2, 1);
                let s4 = if s3.rem.len() < s2.rem.len() {
                    report(s3, msg(MessageKind::ExpectedItem, dedent))
                } else {
                    s3
                };
                let s5 = if next_is(s4, 1) {
                    adv(s4)
                } else {
                    s4
                };
                (Tree { node: TreeNode::Group(items), span: t.span.spec_join(dedent) }, s5)
            },
            _ => (invalid(closest(s1)), report(s1, msg(MessageKind::ExpectedExpression, closest(s1)))),
        }
    }
}

/// `everything`: items, and whatever does not start an item skipped with a
/// message, until no token is left.
pub open spec fn p_everything(s: PState) -> (Seq<Tree>, PState)
    decreases s.rem.len(),
{
    if s.rem.len() == 0 {
        (Seq::empty(), s)
    } else {
        let (items, s1) = p_items(s);
        let (skipped, s2) = skip_to_item(s1, None);
        let s3 = match skipped {
            Some(span) => report(s2, msg(MessageKind::ExpectedItem, span)),
            None => s2,
        };
        if s3.rem.len() < s.rem.len() {
            let (more, s4) = p_everything(s3);
            (items + more, s4)
        } else {
            (items, s3)
        }
    }
}

/// Whether `ts` is a path of names joined by periods: `a.b. ... .z`.
pub open spec fn dotted_names(ts: Seq<Token>) -> bool {
    &&& ts.len() % 2 == 1
    &&& forall|i: int|
        0 <= i < ts.len() ==> (i % 2 == 0 ==> (#[trigger] ts[i]).kind is Name) && (i % 2 == 1
            ==> ts[i].kind is Period)
}

/// The tree of a name token.
pub open spec fn name_tree(t: Token) -> Tree {
    Tree {
        node: TreeNode::Name(
            match t.kind {
                TokenType::Name(x) => x@,
                _ => Seq::empty(),
            },
        ),
        span: t.span,
    }
}

/// The paths of names joined by periods, nested to the left:
/// `(a.b).c`.
pub open spec fn left_nested(ts: Seq<Token>) -> Tree
    decreases ts.len(),
{
    if ts.len() <= 2 {
        name_tree(ts[0])
    } else {
        let init = left_nested(ts.subrange(0, ts.len() - 2));
        let last = name_tree(ts.last());
        Tree {
            node: TreeNode::Path(Box::new(init), Box::new(last)),
            span: init.span.spec_join(last.span),
        }
    }
}

/// The state after reading all of `s`'s tokens without a message.
pub open spec fn read_all(s: PState) -> PState {
    PState { rem: Seq::empty(), prev: Some(s.rem.last().span), msgs: s.msgs }
}

/// Whether `tail` is empty or starts with a token that neither continues nor
/// annotates an expression.
pub open spec fn ends_path(tail: Seq<Token>) -> bool {
    tail.len() == 0 || !(tail[0].kind is Period || tail[0].kind is Colon)
}

/// The rest of a path after its first `2j + 1` tokens is read whole, up to
/// what ends it.
#[verifier::spinoff_prover]
#[verifier::rlimit(50)]
proof fn lemma_path_rest(ts: Seq<Token>, tail: Seq<Token>, j: int, e: Tree, s: PState)
    requires
        dotted_names(ts),
        ends_path(tail),
        0 <= j,
        2 * j + 1 <= ts.len(),
        s.rem == ts.subrange(2 * j + 1, ts.len() as int) + tail,
        s.prev == Some(ts[2 * j].span),
        e == left_nested(ts.subrange(0, 2 * j + 1)),
    ensures
        p_invoke_loop(e, s) == (left_nested(ts), PState { rem: tail, prev: Some(ts.last().span), msgs: s.msgs }),
    decreases ts.len() - 2 * j,
{
    if 2 * j + 1 == ts.len() {
        assert(ts.subrange(0, 2 * j + 1) =~= ts);
        assert(s.rem =~= tail);
        if tail.len() > 0 {
            assert(s.rem[0] == tail[0]);
        }
        assert(!next_is(s, 12));
        assert(ts.last() == ts[2 * j]);
    } else {
        let k = 2 * j + 1;
        assert(s.rem[0] == ts[k]);
        assert(ts[k].kind is Period);
        assert(k % 2 == 1);
        assert((k + 1) % 2 == 0);
        let s1 = adv(s);
        assert(s1.rem[0] == ts[k + 1]);
        assert(ts[k + 1].kind is Name);
        let s2 = adv(s1);
        assert(p_simple(s1) == (name_tree(ts[k + 1]), s2));
        let path = Tree {
            node: TreeNode::Path(Box::new(e), Box::new(name_tree(ts[k + 1]))),
            span: e.span.spec_join(ts[k + 1].span),
        };
        let pre = ts.subrange(0, k + 2);
        assert(pre.subrange(0, pre.len() - 2) =~= ts.subrange(0, 2 * j + 1));
        assert(pre.last() == ts[k + 1]);
        assert(left_nested(pre) == path);
        assert(s2.rem =~= ts.subrange(2 * (j + 1) + 1, ts.len() as int) + tail);
        lemma_path_rest(ts, tail, j + 1, path, s2);
    }
}

/// An invocation that is a path of names joined by periods, followed by
/// what ends it or by nothing, is read whole with no message, and its paths
/// nest to the left.
pub proof fn law_path_up_to_delimiter(ts: Seq<Token>, tail: Seq<Token>, s: PState)
    requires
        dotted_names(ts),
        ends_path(tail),
        s.rem == ts + tail,
    ensures
        p_invoke(s) == (left_nested(ts), PState { rem: tail, prev: Some(ts.last().span), msgs: s.msgs }),
        p_expr(s) == (left_nested(ts), PState { rem: tail, prev: Some(ts.last().span), msgs: s.msgs }),
{
    assert(s.rem[0] == ts[0]);
    assert(ts[0].kind is Name);
    let s1 = adv(s);
    assert(p_simple(s) == (name_tree(ts[0]), s1));
    assert(left_nested(ts.subrange(0, 1)) == name_tree(ts[0]));
    assert(s1.rem =~= ts.subrange(1, ts.len() as int) + tail);
    lemma_path_rest(ts, tail, 0, name_tree(ts[0]), s1);
    let end = PState { rem: tail, prev: Some(ts.last().span), msgs: s.msgs };
    if tail.len() > 0 {
        assert(end.rem[0] == tail[0]);
    }
    assert(!next_is(end, 14));
}

/// An invocation that is a path of names joined by periods is read whole,
/// with no token left and no message, and its paths nest to the left:
/// `a.b.c` is `(a.b).c`.
pub proof fn law_paths_nest_left(s: PState)
    requires
        dotted_names(s.rem),
    ensures
        p_invoke(s) == (left_nested(s.rem), read_all(s)),
{
    assert(s.rem + Seq::<Token>::empty() =~= s.rem);
    law_path_up_to_delimiter(s.rem, Seq::empty(), s);
}

/// `import` followed by a path of names joined by periods, and then by a
/// delimiter or by nothing, is one import item of the whole path, spanning
/// from `import` to the last name, read with no message.
pub proof fn law_import_path(imp: Token, ts: Seq<Token>, tail: Seq<Token>, s: PState)
    requires
        imp.kind is Import,
        dotted_names(ts),
        tail.len() == 0 || is_delimiter(tail[0].kind),
        s.rem == seq![imp] + ts + tail,
    ensures
        p_item(s) == (
            Tree {
                node: TreeNode::Import(Box::new(left_nested(ts))),
                span: imp.span.spec_join(left_nested(ts).span),
            },
            PState { rem: tail, prev: Some(ts.last().span), msgs: s.msgs },
        ),
{
    assert(s.rem[0] == imp);
    let s1 = adv(s);
    assert(s1.rem =~= ts + tail);
    assert(s1.rem[0] == ts[0]);
    assert(ts[0].kind is Name);
    law_path_up_to_delimiter(ts, tail, s1);
}

/// Whether `ts` is a list of names separated by delimiters: `a; b; ...; z`.
pub open spec fn delimited_names(ts: Seq<Token>) -> bool {
    &&& ts.len() % 2 == 1
    &&& forall|i: int|
        0 <= i < ts.len() ==> (i % 2 == 0 ==> (#[trigger] ts[i]).kind is Name) && (i % 2 == 1
            ==> is_delimiter(ts[i].kind))
}

/// The names of a delimited list, in order.
pub open spec fn names_of(ts: Seq<Token>) -> Seq<Tree> {
    Seq::new(((ts.len() + 1) / 2) as nat, |i: int| name_tree(ts[2 * i]))
}

/// A name followed by a delimiter, a `)` or nothing is an item on its own.
proof fn lemma_name_item(s: PState)
    requires
        s.rem.len() >= 1,
        s.rem[0].kind is Name,
        s.rem.len() >= 2 ==> is_delimiter(s.rem[1].kind) || s.rem[1].kind is RightParen,
    ensures
        p_item(s) == (name_tree(s.rem[0]), adv(s)),
{
    let s1 = adv(s);
    if s1.rem.len() > 0 {
        assert(s1.rem[0] == s.rem[1]);
    }
    assert(p_simple(s) == (name_tree(s.rem[0]), s1));
    assert(p_invoke_loop(name_tree(s.rem[0]), s1) == (name_tree(s.rem[0]), s1));
    assert(p_invoke(s) == (name_tree(s.rem[0]), s1));
    assert(p_annot(s) == (name_tree(s.rem[0]), s1));
}

#[verifier::spinoff_prover]
#[verifier::rlimit(60)]
proof fn lemma_items_rest(ts: Seq<Token>, tail: Seq<Token>, j: int, s: PState)
    requires
        delimited_names(ts),
        tail.len() == 0 || tail[0].kind is RightParen,
        0 <= 2 * j < ts.len(),
        s.rem == ts.subrange(2 * j, ts.len() as int) + tail,
    ensures
        p_items_loop(s) == (
            names_of(ts).subrange(j, names_of(ts).len() as int),
            PState { rem: tail, prev: Some(ts.last().span), msgs: s.msgs },
        ),
    decreases ts.len() - 2 * j,
{
    let n = names_of(ts).len();
    assert(s.rem[0] == ts[2 * j]);
    assert(ts[2 * j].kind is Name);
    if s.rem.len() >= 2 {
        if 2 * j + 1 < ts.len() {
            assert(s.rem[1] == ts[2 * j + 1]);
            assert((2 * j + 1) % 2 == 1);
        } else {
            assert(s.rem[1] == tail[0]);
        }
    }
    lemma_name_item(s);
    let s2 = adv(s);
    let item = name_tree(ts[2 * j]);
    assert(names_of(ts)[j] == item);
    if 2 * j + 1 == ts.len() {
        assert(s2.rem =~= tail);
        assert(skip_delims(s2) == s2);
        assert(!next_item(s2));
        assert(p_items_loop(s2) == (Seq::<Tree>::empty(), s2));
        assert(names_of(ts).subrange(j, n as int) =~= seq![item]);
        assert(ts.last() == ts[2 * j]);
        assert(p_items_loop(s) == (seq![item] + Seq::<Tree>::empty(), s2));
        assert(seq![item] + Seq::<Tree>::empty() =~= seq![item]);
    } else {
        assert(s2.rem[0] == ts[2 * j + 1]);
        assert(is_delimiter(ts[2 * j + 1].kind));
        let s3 = adv(s2);
        assert(s3.rem[0] == ts[2 * j + 2]);
        assert(ts[2 * j + 2].kind is Name);
        assert(skip_delims(s3) == s3);
        assert(skip_delims(s2) == s3);
        assert(s3.rem =~= ts.subrange(2 * (j + 1), ts.len() as int) + tail);
        lemma_items_rest(ts, tail, j + 1, s3);
        assert(names_of(ts).subrange(j, n as int) =~= seq![item] + names_of(ts).subrange(j + 1, n as int));
    }
}

/// Names separated by delimiters are read as that many items, in order, and
/// up to a `)` or the end, with no message.
pub proof fn law_delimited_items(ts: Seq<Token>, tail: Seq<Token>, s: PState)
    requires
        delimited_names(ts),
        tail.len() == 0 || tail[0].kind is RightParen,
        s.rem == ts + tail,
    ensures
        p_items(s) == (names_of(ts), PState { rem: tail, prev: Some(ts.last().span), msgs: s.msgs }),
{
    assert(ts[0].kind is Name);
    assert(s.rem[0] == ts[0]);
    assert(skip_delims(s) == s);
    assert(ts.subrange(0, ts.len() as int) =~= ts);
    lemma_items_rest(ts, tail, 0, s);
    assert(names_of(ts).subrange(0, names_of(ts).len() as int) =~= names_of(ts));
}

/// A parenthesized list of names separated by delimiters is a group of those
/// names, in order, spanning from `(` to `)`, read with no message.
pub proof fn law_group_holds_its_items(open: Token, ts: Seq<Token>, close: Token, s: PState)
    requires
        open.kind is LeftParen,
        close.kind is RightParen,
        delimited_names(ts),
        s.rem == seq![open] + ts + seq![close],
    ensures
        p_simple(s) == (
            Tree { node: TreeNode::Group(names_of(ts)), span: open.span.spec_join(close.span) },
            PState { rem: Seq::empty(), prev: Some(close.span), msgs: s.msgs },
        ),
{
    assert(s.rem[0] == open);
    let s1 = adv(s);
    assert(s1.rem =~= ts + seq![close]);
    law_delimited_items(ts, seq![close], s1);
    let s2 = PState { rem: seq![close], prev: Some(ts.last().span), msgs: s.msgs };
    assert(next_is(s2, 11));
    assert(adv(s2).rem =~= Seq::<Token>::empty());
}

/// `let p = b`, where the pattern and the body are paths of names joined by
/// periods and a delimiter or nothing follows, is one `let` item binding the
/// pattern to the body, read with no message.
#[verifier::spinoff_prover]
#[verifier::rlimit(100)]
pub proof fn law_let_binds_body(
    let_tok: Token,
    p: Seq<Token>,
    eq: Token,
    b: Seq<Token>,
    tail: Seq<Token>,
    s: PState,
)
    requires
        let_tok.kind is Let,
        eq.kind is Equal,
        dotted_names(p),
        dotted_names(b),
        tail.len() == 0 || is_delimiter(tail[0].kind),
        s.rem == seq![let_tok] + p + seq![eq] + b + tail,
    ensures
        ({
            let end = PState { rem: tail, prev: Some(b.last().span), msgs: s.msgs };
            p_item(s) == (
                Tree {
                    node: TreeNode::Let {
                        pattern: Box::new(left_nested(p)),
                        body: Some(Box::new(left_nested(b))),
                    },
                    span: let_tok.span.spec_join(closest(end)),
                },
                end,
            )
        }),
{
    assert(s.rem[0] == let_tok);
    let s1 = adv(s);
    let rest = seq![eq] + b + tail;
    assert(s1.rem =~= p + rest);
    assert(rest[0] == eq);
    assert(s1.rem[0] == p[0]);
    assert(p[0].kind is Name);
    law_path_up_to_delimiter(p, rest, s1);
    let s2 = PState { rem: rest, prev: Some(p.last().span), msgs: s.msgs };
    assert(next_is(s2, 9));
    let s3 = adv(s2);
    assert(s3.rem =~= b + tail);
    assert(s3.rem[0] == b[0]);
    assert(b[0].kind is Name);
    law_path_up_to_delimiter(b, tail, s3);
    let end = PState { rem: tail, prev: Some(b.last().span), msgs: s.msgs };
    assert(next_simple(s3));
    assert(p_expr(s3) == (left_nested(b), end));
    assert(p_expr(s1) == (left_nested(p), s2));
    assert(next_simple(s1));
    assert(p_let(s1, let_tok.span) == (
        Tree {
            node: TreeNode::Let {
                pattern: Box::new(left_nested(p)),
                body: Some(Box::new(left_nested(b))),
            },
            span: let_tok.span.spec_join(closest(end)),
        },
        end,
    ));
    assert(!next_is(s, 7));
    assert(next_is(s, 8));
}

} // verus!
