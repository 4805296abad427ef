//! The parser is fairly accepting, not distinguishing between patterns,
//! types, or expressions; for instance `(x => x) => x` gives a valid parse.
//! The job of this module is to produce a HIR tree, validating away cases
//! like that in the process.

use vstd::prelude::*;

use super::tree as cst;
use super::tree::BinOp;
use crate::hir;
use crate::hir::{BindId, BindIdGenerator};
use crate::messages::{msg, Message, MessageKind};
use crate::source::Span;
use crate::vecs::reversed;

verus! {

/// The name of the function a binary operator stands for.
pub open spec fn binop_name(op: BinOp) -> Seq<char> {
    match op {
        BinOp::Mul => seq!['*'],
    }
}

/// The name of the function a binary operator stands for.
pub fn binop_to_name(op: BinOp) -> (name: &'static str)
    ensures
        name@ == binop_name(op),
{
    match op {
        BinOp::Mul => {
            let name = "*";
            proof {
                reveal_strlit("*");
                assert(name@ =~= seq!['*']);
            }
            name
        },
    }
}

/// A tuple expression like `(a, b), c, d, (e, f)` as a list of expressions
/// like `(a, b)`, `c`, `d`, `(e, f)`: the parts of the tuple in order,
/// however it nests, with parenthesized tuples kept whole.
pub open spec fn list_of(e: cst::Expr) -> Seq<cst::Expr>
    decreases e,
{
    match e.node {
        cst::ExprNode::Tuple(a, b) => list_of(*a) + list_of(*b),
        _ => seq![e],
    }
}

/// Turn a tuple expression like `(a, b), c, d, (e, f)` into a list of
/// expressions like `(a, b)`, `c`, `d`, `(e, f)`.
pub fn unconc_list(pat: cst::Expr) -> (list: Vec<cst::Expr>)
    ensures
        list@ == list_of(pat),
    decreases pat,
{
    let span = pat.span;
    match pat.node {
        cst::ExprNode::Tuple(a, b) => {
            let mut list = unconc_list(*a);
            let mut rest = unconc_list(*b);
            list.append(&mut rest);
            list
        },
        node => {
            let mut list = Vec::new();
            list.push(cst::Expr { node, span });
            list
        },
    }
}

/// Whether an expression is a number, looking through groups.
pub open spec fn is_int(e: cst::Expr) -> bool
    decreases e,
{
    match e.node {
        cst::ExprNode::Int(_) => true,
        cst::ExprNode::Group(x) => is_int(*x),
        _ => false,
    }
}

/// The number an expression is, looking through groups.
pub open spec fn int_value(e: cst::Expr) -> u64
    decreases e,
{
    match e.node {
        cst::ExprNode::Int(i) => i,
        cst::ExprNode::Group(x) => int_value(*x),
        _ => 0,
    }
}

/// The span of an expression, looking through groups.
pub open spec fn inner_span(e: cst::Expr) -> Span
    decreases e,
{
    match e.node {
        cst::ExprNode::Group(x) => inner_span(*x),
        _ => e.span,
    }
}

/// The span covering the spans of all of `es`, which is not empty.
pub open spec fn spans_sum(es: Seq<cst::Expr>) -> Span
    decreases es.len(),
{
    if es.len() <= 1 {
        es[0].span
    } else {
        spans_sum(es.drop_last()).spec_join(es.last().span)
    }
}

/// Whether no pattern inside `e`, read as an expression (`mode` 0), a
/// pattern (1), a type (2), or a list of types (3), is a binary operation:
/// those patterns are not supported.
pub open spec fn supported(e: cst::Expr, mode: nat) -> bool
    decreases e, mode,
{
    if mode == 3 {
        match e.node {
            cst::ExprNode::Tuple(a, b) => supported(*a, 3) && supported(*b, 3),
            _ => supported(e, 2),
        }
    } else {
        match e.node {
            cst::ExprNode::Group(x) => supported(*x, mode),
            cst::ExprNode::BinOp(_, _, x, y) => mode != 1 && supported(*x, mode) && supported(
                *y,
                mode,
            ),
            cst::ExprNode::Range(_, x, y) => mode != 1 ==> supported(*x, 0) && supported(*y, 0),
            cst::ExprNode::Fun(_, x, y) => mode != 1 ==> supported(*x, mode) && supported(*y, mode),
            cst::ExprNode::Tuple(x, y) => mode != 2 ==> supported(*x, mode) && supported(*y, mode),
            cst::ExprNode::Lam(p, b) => mode == 0 ==> supported(*p, 1) && supported(*b, 0),
            cst::ExprNode::App(f, a) => mode == 0 ==> supported(*f, 0) && supported(*a, 0),
            cst::ExprNode::Inst(f, a) => (mode == 0 ==> supported(*f, 0) && supported(*a, 3)) && (
            mode == 1 ==> supported(*f, 1)),
            cst::ExprNode::Anno(x, t) => mode != 2 ==> supported(*x, mode) && supported(*t, 2),
            _ => true,
        }
    }
}

/// How many binding numbers reading `e` as an expression (`mode` 0), a
/// pattern (1), a type (2), or a list of types (3) hands out.
pub open spec fn ids(e: cst::Expr, mode: nat) -> nat
    decreases e, mode,
{
    if mode == 3 {
        match e.node {
            cst::ExprNode::Tuple(a, b) => ids(*a, 3) + ids(*b, 3),
            _ => ids(e, 2),
        }
    } else {
        match e.node {
            cst::ExprNode::Group(x) => ids(*x, mode),
            cst::ExprNode::Range(_, x, y) => if mode == 1 {
                0
            } else {
                ids(*x, 0) + ids(*y, 0)
            },
            cst::ExprNode::Fun(_, x, y) | cst::ExprNode::BinOp(_, _, x, y) => if mode == 1 {
                0
            } else {
                ids(*x, mode) + ids(*y, mode)
            },
            cst::ExprNode::Tuple(x, y) => if mode == 2 {
                0
            } else {
                ids(*x, mode) + ids(*y, mode)
            },
            cst::ExprNode::Lam(p, b) => if mode == 0 {
                ids(*p, 1) + ids(*b, 0) + 1
            } else {
                0
            },
            cst::ExprNode::App(f, a) => if mode == 0 {
                ids(*f, 0) + ids(*a, 0)
            } else {
                0
            },
            cst::ExprNode::Inst(f, a) => if mode == 0 {
                ids(*f, 0) + ids(*a, 3)
            } else if mode == 1 {
                ids(*f, 1)
            } else {
                0
            },
            cst::ExprNode::Anno(x, t) => if mode == 2 {
                0
            } else {
                ids(*x, mode) + ids(*t, 2)
            },
            _ => 0,
        }
    }
}

/// The expressions of `e`, read as a pattern, that stand for its implicit
/// arguments.
pub open spec fn pat_insts(e: cst::Expr) -> Seq<cst::Expr>
    decreases e,
{
    match e.node {
        cst::ExprNode::Group(x) => pat_insts(*x),
        cst::ExprNode::Tuple(x, y) => pat_insts(*x) + pat_insts(*y),
        cst::ExprNode::Anno(p, _) => pat_insts(*p),
        cst::ExprNode::Inst(p, insts) => list_of(*insts) + pat_insts(*p),
        _ => Seq::empty(),
    }
}

/// The message about the first implicit argument of a type declaration, if
/// there is one.
pub open spec fn generic_lambda_messages(insts: Seq<cst::Expr>) -> Seq<Message> {
    if insts.len() > 0 {
        seq![msg(MessageKind::GenericLambda, spans_sum(insts))]
    } else {
        Seq::empty()
    }
}

/// The message about a range bound that is not a number, if any.
pub open spec fn range_messages(lo: cst::Expr, hi: cst::Expr) -> Seq<Message> {
    if is_int(lo) && is_int(hi) {
        Seq::empty()
    } else if is_int(lo) {
        seq![msg(MessageKind::RangeNotAnInt, inner_span(hi))]
    } else if is_int(hi) {
        seq![msg(MessageKind::RangeNotAnInt, inner_span(lo))]
    } else {
        seq![msg(MessageKind::RangeNotAnInt, inner_span(lo).spec_join(inner_span(hi)))]
    }
}

/// The messages reported when reading `e` as an expression (`mode` 0), a
/// pattern (1), a type (2), or a list of types (3).
pub open spec fn messages_of(e: cst::Expr, mode: nat) -> Seq<Message>
    decreases e, mode,
{
    if mode == 3 {
        match e.node {
            cst::ExprNode::Tuple(a, b) => messages_of(*a, 3) + messages_of(*b, 3),
            _ => messages_of(e, 2),
        }
    } else if mode == 0 {
        match e.node {
            cst::ExprNode::Group(x) => messages_of(*x, 0),
            cst::ExprNode::Range(_, x, y) | cst::ExprNode::Fun(_, x, y) | cst::ExprNode::BinOp(
                _,
                _,
                x,
                y,
            ) | cst::ExprNode::Tuple(x, y) | cst::ExprNode::App(x, y) => messages_of(*x, 0)
                + messages_of(*y, 0),
            cst::ExprNode::Lam(p, b) => messages_of(*p, 1) + messages_of(*b, 0)
                + generic_lambda_messages(pat_insts(*p)),
            cst::ExprNode::Inst(f, a) => messages_of(*f, 0) + messages_of(*a, 3),
            cst::ExprNode::Anno(x, t) => messages_of(*x, 0) + messages_of(*t, 2),
            cst::ExprNode::Type => seq![msg(MessageKind::ExpectedExpression, e.span)],
            _ => Seq::empty(),
        }
    } else if mode == 1 {
        match e.node {
            cst::ExprNode::Name(_) => Seq::empty(),
            cst::ExprNode::Group(x) => messages_of(*x, 1),
            cst::ExprNode::Tuple(x, y) => messages_of(*x, 1) + messages_of(*y, 1),
            cst::ExprNode::Anno(p, t) => messages_of(*p, 1) + messages_of(*t, 2),
            cst::ExprNode::Inst(p, _) => messages_of(*p, 1),
            cst::ExprNode::Wildcard => Seq::empty(),
            cst::ExprNode::Invalid => Seq::empty(),
            _ => seq![msg(MessageKind::NotAPattern, e.span)],
        }
    } else {
        match e.node {
            cst::ExprNode::Range(_, lo, hi) => messages_of(*lo, 0) + messages_of(*hi, 0)
                + range_messages(*lo, *hi),
            cst::ExprNode::Name(_) => Seq::empty(),
            cst::ExprNode::Int(_) => Seq::empty(),
            cst::ExprNode::Fun(_, t, u) => messages_of(*t, 2) + messages_of(*u, 2),
            cst::ExprNode::BinOp(_, BinOp::Mul, t, u) => messages_of(*t, 2) + messages_of(*u, 2),
            cst::ExprNode::Group(t) => messages_of(*t, 2),
            cst::ExprNode::Type => Seq::empty(),
            cst::ExprNode::Wildcard => Seq::empty(),
            _ => seq![msg(MessageKind::NotAType, e.span)],
        }
    }
}

/// The application of the function named `name`, written at `at`, to `x`
/// and then to `y`, the whole written at `span`.
pub open spec fn is_call2(h: hir::Expr, name: Seq<char>, at: Span, span: Span) -> bool {
    &&& h.span == span
    &&& h.node matches hir::ExprNode::App(f, _)
    &&& f.node matches hir::ExprNode::App(g, x)
    &&& f.span == x.span.spec_join(at)
    &&& g.span == at
    &&& g.node matches hir::ExprNode::Name(n) && n@ == name
}

/// The two arguments of a call built as in `is_call2`.
pub open spec fn call_args(h: hir::Expr) -> (hir::Expr, hir::Expr) {
    let f = *h.node->App_0;
    (*f.node->App_1, *h.node->App_1)
}

/// Whether `h` is what `e` means as an expression when binding numbers are
/// handed out from `next` on.
pub open spec fn expr_of(e: cst::Expr, h: hir::Expr, next: nat) -> bool
    decreases e, 0nat,
{
    match e.node {
        cst::ExprNode::Group(x) => expr_of(*x, h, next),
        cst::ExprNode::Name(n) => h.span == e.span && (h.node matches hir::ExprNode::Name(m) && m == n),
        cst::ExprNode::Int(i) => h.span == e.span && h.node == hir::ExprNode::Int(i as i64),
        cst::ExprNode::Range(at, x, y) => {
            &&& is_call2(h, seq!['u', 'p', 't', 'o'], at, e.span)
            &&& expr_of(*x, call_args(h).0, next)
            &&& expr_of(*y, call_args(h).1, next + ids(*x, 0))
        },
        cst::ExprNode::Fun(at, x, y) => {
            &&& is_call2(h, seq!['-', '>'], at, e.span)
            &&& expr_of(*x, call_args(h).0, next)
            &&& expr_of(*y, call_args(h).1, next + ids(*x, 0))
        },
        cst::ExprNode::BinOp(at, op, x, y) => {
            &&& is_call2(h, binop_name(op), at, e.span)
            &&& expr_of(*x, call_args(h).0, next)
            &&& expr_of(*y, call_args(h).1, next + ids(*x, 0))
        },
        cst::ExprNode::Tuple(x, y) => {
            &&& h.span == e.span
            &&& h.node matches hir::ExprNode::Tuple(a, b)
            &&& expr_of(*x, *a, next)
            &&& expr_of(*y, *b, next + ids(*x, 0))
        },
        cst::ExprNode::App(x, y) => {
            &&& h.span == e.span
            &&& h.node matches hir::ExprNode::App(a, b)
            &&& expr_of(*x, *a, next)
            &&& expr_of(*y, *b, next + ids(*x, 0))
        },
        cst::ExprNode::Lam(p, b) => {
            &&& h.span == e.span
            &&& h.node matches hir::ExprNode::Lam(id, q, c)
            &&& pat_of(*p, q, next)
            &&& expr_of(*b, *c, next + ids(*p, 1))
            &&& id == BindId((next + ids(*p, 1) + ids(*b, 0)) as usize)
        },
        cst::ExprNode::Inst(f, a) => {
            &&& h.span == e.span
            &&& h.node matches hir::ExprNode::Inst(g, tys)
            &&& expr_of(*f, *g, next)
            &&& types_of(*a, tys@, next + ids(*f, 0))
        },
        cst::ExprNode::Anno(x, t) => {
            &&& h.span == e.span
            &&& h.node matches hir::ExprNode::Anno(a, u)
            &&& expr_of(*x, *a, next)
            &&& type_of(*t, u, next + ids(*x, 0))
        },
        cst::ExprNode::Wildcard => h.span == e.span && h.node is Hole,
        _ => h.span == e.span && h.node is Invalid,
    }
}

/// Whether `tys` are what the list `e` means as types when binding numbers
/// are handed out from `next` on.
pub open spec fn types_of(e: cst::Expr, tys: Seq<hir::Type>, next: nat) -> bool
    decreases e, 1nat,
{
    match e.node {
        cst::ExprNode::Tuple(a, b) => {
            let n = list_of(*a).len();
            &&& tys.len() >= n
            &&& types_of(*a, tys.take(n as int), next)
            &&& types_of(*b, tys.skip(n as int), next + ids(*a, 3))
        },
        _ => tys.len() == 1 && type_of(e, tys[0], next),
    }
}

/// Whether `h` is what `e` means as a pattern when binding numbers are
/// handed out from `next` on.
pub open spec fn pat_of(e: cst::Expr, h: hir::Pat, next: nat) -> bool
    decreases e, 0nat,
{
    match e.node {
        cst::ExprNode::Group(x) => pat_of(*x, h, next),
        cst::ExprNode::Inst(p, _) => pat_of(*p, h, next),
        cst::ExprNode::Name(n) => h.span == e.span && (h.node matches hir::PatNode::Name(m) && m == n),
        cst::ExprNode::Tuple(x, y) => {
            &&& h.span == e.span
            &&& h.node matches hir::PatNode::Tuple(a, b)
            &&& pat_of(*x, *a, next)
            &&& pat_of(*y, *b, next + ids(*x, 1))
        },
        cst::ExprNode::Anno(p, t) => {
            &&& h.span == e.span
            &&& h.node matches hir::PatNode::Anno(a, u)
            &&& pat_of(*p, *a, next)
            &&& type_of(*t, u, next + ids(*p, 1))
        },
        cst::ExprNode::Wildcard => h.span == e.span && h.node is Wildcard,
        _ => h.span == e.span && h.node is Invalid,
    }
}

/// Whether `h` is what `e` means as a type when binding numbers are handed
/// out from `next` on.
pub open spec fn type_of(e: cst::Expr, h: hir::Type, next: nat) -> bool
    decreases e, 0nat,
{
    match e.node {
        cst::ExprNode::Group(x) => type_of(*x, h, next),
        cst::ExprNode::Range(_, lo, hi) => h.span == e.span && if is_int(*lo) && is_int(*hi) {
            h.node == hir::TypeNode::Range(int_value(*lo) as i64, int_value(*hi) as i64)
        } else {
            h.node is Invalid
        },
        cst::ExprNode::Name(n) => h.span == e.span && (h.node matches hir::TypeNode::Name(m) && m == n),
        cst::ExprNode::Int(v) => h.span == e.span && h.node == hir::TypeNode::Range(0, v as i64),
        cst::ExprNode::Fun(_, t, u) => {
            &&& h.span == e.span
            &&& h.node matches hir::TypeNode::Fun(a, b)
            &&& type_of(*t, *a, next)
            &&& type_of(*u, *b, next + ids(*t, 2))
        },
        cst::ExprNode::BinOp(_, BinOp::Mul, t, u) => {
            &&& h.span == e.span
            &&& h.node matches hir::TypeNode::Prod(a, b)
            &&& type_of(*t, *a, next)
            &&& type_of(*u, *b, next + ids(*t, 2))
        },
        cst::ExprNode::Type => h.span == e.span && h.node is Type,
        cst::ExprNode::Wildcard => h.span == e.span && h.node is Wildcard,
        _ => h.span == e.span && h.node is Invalid,
    }
}

/// The sum of `ids(x, 2)` over the expressions `x` of `s`.
pub open spec fn list_ids(s: Seq<cst::Expr>) -> nat
    decreases s.len(),
{
    if s.len() == 0 {
        0
    } else {
        ids(s[0], 2) + list_ids(s.drop_first())
    }
}

/// The messages of reading each of `s` as a type, in order.
pub open spec fn list_messages(s: Seq<cst::Expr>) -> Seq<Message>
    decreases s.len(),
{
    if s.len() == 0 {
        Seq::empty()
    } else {
        messages_of(s[0], 2) + list_messages(s.drop_first())
    }
}

proof fn lemma_list_concat(s1: Seq<cst::Expr>, s2: Seq<cst::Expr>)
    ensures
        list_ids(s1 + s2) == list_ids(s1) + list_ids(s2),
        list_messages(s1 + s2) == list_messages(s1) + list_messages(s2),
    decreases s1.len(),
{
    if s1.len() == 0 {
        assert(s1 + s2 =~= s2);
        assert(Seq::<Message>::empty() + list_messages(s2) =~= list_messages(s2));
    } else {
        lemma_list_concat(s1.drop_first(), s2);
        assert((s1 + s2).drop_first() =~= s1.drop_first() + s2);
        assert((s1 + s2)[0] == s1[0]);
        assert(list_messages(s1 + s2) =~= list_messages(s1) + list_messages(s2));
    }
}

proof fn lemma_list_facts(e: cst::Expr)
    ensures
        ids(e, 3) == list_ids(list_of(e)),
        messages_of(e, 3) == list_messages(list_of(e)),
        supported(e, 3) == (forall|i: int|
            0 <= i < list_of(e).len() ==> supported(#[trigger] list_of(e)[i], 2)),
        forall|i: int|
            0 <= i < list_of(e).len() ==> #[trigger] list_of(e)[i] == e || decreases_to!(e => list_of(e)[i]),
        list_of(e).len() >= 1,
    decreases e,
{
    match e.node {
        cst::ExprNode::Tuple(a, b) => {
            lemma_list_facts(*a);
            lemma_list_facts(*b);
            let (la, lb) = (list_of(*a), list_of(*b));
            let l = list_of(e);
            assert(l == la + lb);
            lemma_list_concat(la, lb);
            assert forall|i: int| 0 <= i < l.len() implies #[trigger] l[i] == e || decreases_to!(e => l[i]) by {
                if i < la.len() {
                    assert(l[i] == la[i]);
                } else {
                    assert(l[i] == lb[i - la.len()]);
                }
            }
            if supported(e, 3) {
                assert forall|i: int| 0 <= i < l.len() implies supported(#[trigger] l[i], 2) by {
                    if i < la.len() {
                        assert(l[i] == la[i]);
                    } else {
                        assert(l[i] == lb[i - la.len()]);
                    }
                }
            } else if !supported(*a, 3) {
                let j = choose|j: int| 0 <= j < la.len() && !supported(#[trigger] la[j], 2);
                assert(l[j] == la[j]);
            } else {
                let j = choose|j: int| 0 <= j < lb.len() && !supported(#[trigger] lb[j], 2);
                assert(l[la.len() + j] == lb[j]);
            }
        },
        _ => {
            let l = list_of(e);
            assert(l.drop_first() =~= Seq::<cst::Expr>::empty());
            assert(l[0] == e);
            assert(ids(e, 3) == ids(e, 2));
            assert(messages_of(e, 3) == messages_of(e, 2));
            assert(list_ids(l) == ids(e, 2) + list_ids(l.drop_first()));
            assert(list_messages(l) == messages_of(e, 2) + list_messages(l.drop_first()));
            assert(messages_of(e, 2) + Seq::<Message>::empty() =~= messages_of(e, 2));
        },
    }
}

proof fn lemma_types_of(e: cst::Expr, tys: Seq<hir::Type>, next: nat)
    requires
        tys.len() == list_of(e).len(),
        forall|i: int|
            0 <= i < tys.len() ==> type_of(
                #[trigger] list_of(e)[i],
                tys[i],
                (next + list_ids(list_of(e)) - list_ids(list_of(e).skip(i))) as nat,
            ),
    ensures
        types_of(e, tys, next),
    decreases e,
{
    let l = list_of(e);
    assert(l.skip(0) =~= l);
    match e.node {
        cst::ExprNode::Tuple(a, b) => {
            let (la, lb) = (list_of(*a), list_of(*b));
            let n = la.len() as int;
            assert(l == la + lb);
            lemma_list_facts(*a);
            lemma_list_concat(la, lb);
            let (ta, tb) = (tys.take(n), tys.skip(n));
            assert forall|i: int| 0 <= i < ta.len() implies type_of(
                #[trigger] la[i],
                ta[i],
                (next + list_ids(la) - list_ids(la.skip(i))) as nat,
            ) by {
                assert(l[i] == la[i]);
                assert(l.skip(i) =~= la.skip(i) + lb);
                lemma_list_concat(la.skip(i), lb);
                assert(type_of(l[i], tys[i], (next + list_ids(l) - list_ids(l.skip(i))) as nat));
            }
            lemma_types_of(*a, ta, next);
            assert forall|i: int| 0 <= i < tb.len() implies type_of(
                #[trigger] lb[i],
                tb[i],
                (next + ids(*a, 3) + list_ids(lb) - list_ids(lb.skip(i))) as nat,
            ) by {
                assert(l[n + i] == lb[i]);
                assert(l.skip(n + i) =~= lb.skip(i));
                assert(tb[i] == tys[n + i]);
                assert(type_of(l[n + i], tys[n + i], (next + list_ids(l) - list_ids(l.skip(n + i))) as nat));
            }
            lemma_types_of(*b, tb, next + ids(*a, 3));
        },
        _ => {
            assert(l[0] == e);
            assert(type_of(l[0], tys[0], (next + list_ids(l) - list_ids(l.skip(0))) as nat));
        },
    }
}

/// The names among `s`, with their spans, in order.
pub open spec fn insts_names(s: Seq<cst::Expr>) -> Seq<(String, Span)>
    decreases s.len(),
{
    if s.len() == 0 {
        Seq::empty()
    } else {
        match s[0].node {
            cst::ExprNode::Name(n) => seq![(n, s[0].span)] + insts_names(s.drop_first()),
            _ => insts_names(s.drop_first()),
        }
    }
}

/// A message for each of `s` that is not a name, in order.
pub open spec fn insts_messages(s: Seq<cst::Expr>) -> Seq<Message>
    decreases s.len(),
{
    if s.len() == 0 {
        Seq::empty()
    } else {
        match s[0].node {
            cst::ExprNode::Name(_) => insts_messages(s.drop_first()),
            _ => seq![msg(MessageKind::NotATypeName, s[0].span)] + insts_messages(s.drop_first()),
        }
    }
}

/// The implicit arguments written after a function's name, as a list.
pub open spec fn implicit_list(implicits: Option<cst::Expr>) -> Seq<cst::Expr> {
    match implicits {
        Some(e) => list_of(e),
        None => Seq::empty(),
    }
}

/// The binding numbers handed out for the arguments `args` of a function.
pub open spec fn args_ids(args: Seq<cst::Expr>) -> nat
    decreases args.len(),
{
    if args.len() == 0 {
        0
    } else {
        ids(args[0], 1) + 1 + args_ids(args.drop_first())
    }
}

/// The messages for the arguments `args` of a function, read from the last
/// one to the first; only the first argument with implicits is reported,
/// and none if `error` is already set.
pub open spec fn args_messages(args: Seq<cst::Expr>, error: bool) -> Seq<Message>
    decreases args.len(),
{
    if args.len() == 0 {
        Seq::empty()
    } else {
        let a = args.last();
        let insts = pat_insts(a);
        messages_of(a, 1) + (if insts.len() > 0 && !error {
            seq![msg(MessageKind::DisallowedImplicits, spans_sum(insts))]
        } else {
            Seq::empty()
        }) + args_messages(args.drop_last(), error || insts.len() > 0)
    }
}

/// Whether `h` is a lambda for each of `args`, the first outermost, with
/// binding numbers handed out from `next` on, innermost first.
pub open spec fn lams_of(args: Seq<cst::Expr>, h: hir::Expr, next: nat) -> bool
    decreases args.len(),
{
    if args.len() == 0 {
        true
    } else {
        let inner_ids = args_ids(args.drop_first());
        &&& h.node matches hir::ExprNode::Lam(id, p, inner)
        &&& pat_of(args[0], p, next + inner_ids)
        &&& id == BindId((next + inner_ids + ids(args[0], 1)) as usize)
        &&& h.span == inner.span.spec_join(p.span)
        &&& lams_of(args.drop_first(), *inner, next)
    }
}

/// What is left of `h` under `k` lambdas.
pub open spec fn peel(h: hir::Expr, k: nat) -> hir::Expr
    decreases k,
{
    if k == 0 {
        h
    } else {
        match h.node {
            hir::ExprNode::Lam(_, _, inner) => peel(*inner, (k - 1) as nat),
            _ => h,
        }
    }
}

/// The binding numbers handed out reading `e`, if there is one, in `mode`.
pub open spec fn opt_ids(e: Option<cst::Expr>, mode: nat) -> nat {
    match e {
        Some(e) => ids(e, mode),
        None => 0,
    }
}

/// The messages reported reading `e`, if there is one, in `mode`.
pub open spec fn opt_messages(e: Option<cst::Expr>, mode: nat) -> Seq<Message> {
    match e {
        Some(e) => messages_of(e, mode),
        None => Seq::empty(),
    }
}

/// The messages reported for the name and implicit arguments of a function
/// declaration.
pub open spec fn fun_head_messages(name: cst::Expr, implicits: Option<cst::Expr>) -> Seq<Message> {
    let insts = pat_insts(name);
    messages_of(name, 1) + (if insts.len() > 0 {
        seq![msg(MessageKind::DisallowedImplicits, spans_sum(insts))]
    } else {
        Seq::empty()
    }) + insts_messages(implicit_list(implicits))
}

/// Whether `core` is the body `bind` of a function declaration at
/// `decl_span` annotated with `anno`, when binding numbers are handed out
/// from `next` on; a missing annotation stands at `pat_span`.
pub open spec fn fun_core_of(
    anno: Option<cst::Expr>,
    bind: Option<cst::Expr>,
    core: hir::Expr,
    pat_span: Span,
    decl_span: Span,
    next: nat,
) -> bool {
    &&& core.node matches hir::ExprNode::Anno(body, ty)
    &&& core.span == body.span.spec_join(ty.span)
    &&& match anno {
        Some(a) => type_of(a, ty, next),
        None => ty.span == pat_span && ty.node is Wildcard,
    }
    &&& match bind {
        Some(b) => expr_of(b, *body, next + opt_ids(anno, 2)),
        None => body.span == decl_span && body.node is Invalid,
    }
}

/// The binding numbers handed out for a declaration.
pub open spec fn decl_ids(d: cst::Decl) -> nat {
    match d.node {
        cst::DeclNode::TypeDecl { pat, bind } => ids(pat, 1) + match bind {
            Some(b) => ids(b, 2),
            None => 0,
        } + 1,
        cst::DeclNode::ValueDecl { pat, bind } => ids(pat, 1) + match bind {
            Some(b) => ids(b, 0),
            None => 0,
        } + 1,
        cst::DeclNode::FunDecl { name, implicits, args, anno, bind } => ids(name, 1) + opt_ids(
            anno,
            2,
        ) + opt_ids(bind, 0) + args_ids(args@) + 1,
    }
}

/// The binding numbers handed out for the declarations `ds`.
pub open spec fn decls_ids(ds: Seq<cst::Decl>) -> nat
    decreases ds.len(),
{
    if ds.len() == 0 {
        0
    } else {
        decls_ids(ds.drop_last()) + decl_ids(ds.last())
    }
}

/// Whether no pattern of a declaration is a binary operation.
pub open spec fn decl_supported(d: cst::Decl) -> bool {
    match d.node {
        cst::DeclNode::TypeDecl { pat, bind } => supported(pat, 1) && match bind {
            Some(b) => supported(b, 2),
            None => true,
        },
        cst::DeclNode::ValueDecl { pat, bind } => supported(pat, 1) && match bind {
            Some(b) => supported(b, 0),
            None => true,
        },
        cst::DeclNode::FunDecl { name, implicits, args, anno, bind } => {
            &&& supported(name, 1)
            &&& match anno {
                Some(a) => supported(a, 2),
                None => true,
            }
            &&& match bind {
                Some(b) => supported(b, 0),
                None => true,
            }
            &&& forall|i: int| 0 <= i < args@.len() ==> supported(#[trigger] args@[i], 1)
        },
    }
}

/// The messages reported for a declaration.
pub open spec fn decl_messages(d: cst::Decl) -> Seq<Message> {
    match d.node {
        cst::DeclNode::TypeDecl { pat, bind } => messages_of(pat, 1) + (if pat_insts(pat).len()
            > 0 {
            seq![msg(MessageKind::TypesTakeNoImplicits, pat_insts(pat)[0].span)]
        } else {
            Seq::empty()
        }) + match bind {
            Some(b) => messages_of(b, 2),
            None => Seq::empty(),
        },
        cst::DeclNode::ValueDecl { pat, bind } => messages_of(pat, 1) + insts_messages(
            pat_insts(pat),
        ) + match bind {
            Some(b) => messages_of(b, 0),
            None => Seq::empty(),
        },
        cst::DeclNode::FunDecl { name, implicits, args, anno, bind } => fun_head_messages(
            name,
            implicits,
        ) + opt_messages(anno, 2) + opt_messages(bind, 0) + args_messages(
            args@,
            pat_insts(name).len() > 0,
        ),
    }
}

/// The messages reported for the declarations `ds`.
pub open spec fn decls_messages(ds: Seq<cst::Decl>) -> Seq<Message>
    decreases ds.len(),
{
    if ds.len() == 0 {
        Seq::empty()
    } else {
        decls_messages(ds.drop_last()) + decl_messages(ds.last())
    }
}

/// Whether `t` is what the type declaration `d` means when binding numbers
/// are handed out from `next` on.
pub open spec fn typedef_of(d: cst::Decl, t: hir::TypeDef, next: nat) -> bool {
    match d.node {
        cst::DeclNode::TypeDecl { pat, bind } => {
            let n = next + ids(pat, 1);
            &&& t.span == d.span
            &&& pat_of(pat, t.pat, next)
            &&& t.anno.span == t.pat.span && t.anno.node is Wildcard
            &&& match bind {
                Some(b) => type_of(b, t.bind, n) && t.id == BindId((n + ids(b, 2)) as usize),
                None => t.bind.span == t.pat.span && t.bind.node is Type && t.id == BindId(
                    n as usize,
                ),
            }
        },
        _ => false,
    }
}

/// Whether `v` is what the value or function declaration `d` means when
/// binding numbers are handed out from `next` on.
pub open spec fn valuedef_of(d: cst::Decl, v: hir::ValueDef, next: nat) -> bool {
    &&& v.span == d.span
    &&& v.anno.span == v.pat.span && v.anno.node is Wildcard
    &&& v.id == BindId((next + decl_ids(d) - 1) as usize)
    &&& match d.node {
        cst::DeclNode::ValueDecl { pat, bind } => {
            let n = next + ids(pat, 1);
            &&& pat_of(pat, v.pat, next)
            &&& v.implicits@ == insts_names(pat_insts(pat))
            &&& match bind {
                Some(b) => expr_of(b, v.bind, n),
                None => v.bind.span == d.span && v.bind.node is Invalid,
            }
        },
        cst::DeclNode::FunDecl { name, implicits, args, anno, bind } => {
            let n1 = next + ids(name, 1);
            let n3 = n1 + opt_ids(anno, 2) + opt_ids(bind, 0);
            &&& pat_of(name, v.pat, next)
            &&& v.implicits@ == insts_names(implicit_list(implicits))
            &&& lams_of(args@, v.bind, n3)
            &&& fun_core_of(anno, bind, peel(v.bind, args@.len()), v.pat.span, d.span, n1)
        },
        _ => false,
    }
}

/// Whether `values` and `types` are, in order, what the declarations `ds`
/// mean when binding numbers are handed out from `next` on.
pub open spec fn decls_of(
    ds: Seq<cst::Decl>,
    values: Seq<hir::ValueDef>,
    types: Seq<hir::TypeDef>,
    next: nat,
) -> bool
    decreases ds.len(),
{
    if ds.len() == 0 {
        values.len() == 0 && types.len() == 0
    } else {
        let d = ds.last();
        let n = next + decls_ids(ds.drop_last());
        if d.node is TypeDecl {
            &&& types.len() > 0
            &&& typedef_of(d, types.last(), n)
            &&& decls_of(ds.drop_last(), values, types.drop_last(), next)
        } else {
            &&& values.len() > 0
            &&& valuedef_of(d, values.last(), n)
            &&& decls_of(ds.drop_last(), values.drop_last(), types, next)
        }
    }
}

proof fn lemma_expr_int(e: cst::Expr, h: hir::Expr, next: nat)
    requires
        expr_of(e, h, next),
    ensures
        h.node is Int <==> is_int(e),
        is_int(e) ==> h.node == hir::ExprNode::Int(int_value(e) as i64),
        h.span == inner_span(e),
    decreases e,
{
    match e.node {
        cst::ExprNode::Group(x) => lemma_expr_int(*x, h, next),
        _ => {},
    }
}

proof fn lemma_decls_ids_le(ds: Seq<cst::Decl>, j: int)
    requires
        0 <= j <= ds.len(),
    ensures
        decls_ids(ds.take(j)) <= decls_ids(ds),
    decreases ds.len(),
{
    if j < ds.len() {
        assert(ds.drop_last().take(j) =~= ds.take(j));
        lemma_decls_ids_le(ds.drop_last(), j);
    } else {
        assert(ds.take(j) =~= ds);
    }
}

proof fn lemma_args_ids_le(args: Seq<cst::Expr>, j: int)
    requires
        0 <= j <= args.len(),
    ensures
        args_ids(args.skip(j)) <= args_ids(args),
    decreases j,
{
    if j > 0 {
        lemma_args_ids_le(args, j - 1);
        assert(args.skip(j - 1).drop_first() =~= args.skip(j));
    } else {
        assert(args.skip(0) =~= args);
    }
}

/// The span covering all of `es`, which is not empty.
fn sum_spans(es: &Vec<cst::Expr>) -> (span: Span)
    requires
        es@.len() > 0,
    ensures
        span == spans_sum(es@),
{
    let mut span = es[0].span;
    let mut i: usize = 1;
    assert(es@.take(1).len() == 1);
    while i < es.len()
        invariant
            1 <= i <= es@.len(),
            span == spans_sum(es@.take(i as int)),
        decreases es@.len() - i,
    {
        assert(es@.take(i + 1).drop_last() =~= es@.take(i as int));
        span = span.join(es[i].span);
        i = i + 1;
    }
    assert(es@.take(es@.len() as int) =~= es@);
    span
}

/// The application of the function `name`, written at `at`, to `x` and then
/// to `y`, the whole written at `span`.
fn make_call2(name: String, at: Span, x: hir::Expr, y: hir::Expr, span: Span) -> (h: hir::Expr)
    ensures
        is_call2(h, name@, at, span),
        call_args(h) == (x, y),
{
    let fun = hir::Expr { node: hir::ExprNode::Name(name), span: at };
    let fun_span = x.span.join(at);
    let fun = hir::Expr { node: hir::ExprNode::App(Box::new(fun), Box::new(x)), span: fun_span };
    hir::Expr { node: hir::ExprNode::App(Box::new(fun), Box::new(y)), span }
}

/// Reads the declaration tree, numbering every binding and reporting what
/// cannot stand where it stands.
pub struct Unconcretifier {
    msgs: Vec<Message>,
    bind_id: BindIdGenerator,
}

impl Unconcretifier {
    /// The messages reported so far.
    pub closed spec fn messages(self) -> Seq<Message> {
        self.msgs@
    }

    /// The next binding number to be handed out.
    pub closed spec fn next(self) -> nat {
        self.bind_id.next()
    }

    pub fn new() -> (u: Self)
        ensures
            u.messages().len() == 0,
            u.next() == 0,
    {
        Unconcretifier { msgs: Vec::new(), bind_id: BindIdGenerator::new() }
    }

    /// Take the messages reported so far.
    pub fn take_messages(&mut self) -> (msgs: Vec<Message>)
        ensures
            msgs@ == old(self).messages(),
            final(self).messages().len() == 0,
            final(self).next() == old(self).next(),
    {
        let mut msgs = Vec::new();
        std::mem::swap(&mut msgs, &mut self.msgs);
        msgs
    }

    /// Read the declarations `decls`.
    pub fn unconcretify(&mut self, decls: Vec<cst::Decl>) -> (r: hir::Decls)
        requires
            forall|i: int| 0 <= i < decls@.len() ==> decl_supported(#[trigger] decls@[i]),
            old(self).next() + decls_ids(decls@) <= usize::MAX,
        ensures
            decls_of(decls@, r.values@, r.types@, old(self).next()),
            final(self).next() == old(self).next() + decls_ids(decls@),
            final(self).messages() == old(self).messages() + decls_messages(decls@),
    {
        self.unconc_decls(decls)
    }

    fn unconc_decls(&mut self, decls: Vec<cst::Decl>) -> (r: hir::Decls)
        requires
            forall|i: int| 0 <= i < decls@.len() ==> decl_supported(#[trigger] decls@[i]),
            old(self).next() + decls_ids(decls@) <= usize::MAX,
        ensures
            decls_of(decls@, r.values@, r.types@, old(self).next()),
            final(self).next() == old(self).next() + decls_ids(decls@),
            final(self).messages() == old(self).messages() + decls_messages(decls@),
    {
        let ghost all = decls@;
        let ghost start = self.next();
        let mut rest = reversed(decls);
        let mut values: Vec<hir::ValueDef> = Vec::new();
        let mut types: Vec<hir::TypeDef> = Vec::new();
        proof {
            assert(all.take(0) =~= Seq::<cst::Decl>::empty());
            assert(old(self).messages() + Seq::<Message>::empty() =~= old(self).messages());
        }
        while rest.len() > 0
            invariant
                rest@.len() <= all.len(),
                forall|i: int|
                    0 <= i < rest@.len() ==> #[trigger] rest@[i] == all[all.len() - 1 - i],
                forall|i: int| 0 <= i < all.len() ==> decl_supported(#[trigger] all[i]),
                start + decls_ids(all) <= usize::MAX,
                decls_of(all.take(all.len() - rest@.len()), values@, types@, start),
                self.next() == start + decls_ids(all.take(all.len() - rest@.len())),
                self.messages() == old(self).messages() + decls_messages(
                    all.take(all.len() - rest@.len()),
                ),
            decreases rest@.len(),
        {
            let ghost k = all.len() - rest@.len();
            let ghost before = self.messages();
            let ghost vs = values@;
            let ghost ts = types@;
            let decl = rest.pop().unwrap();
            assert(decl == all[k]);
            assert(all.take(k + 1).drop_last() =~= all.take(k));
            proof {
                lemma_decls_ids_le(all, k + 1);
            }
            match self.unconc_decl(decl) {
                Ok(value) => {
                    values.push(value);
                    assert(values@.drop_last() =~= vs);
                },
                Err(ty) => {
                    types.push(ty);
                    assert(types@.drop_last() =~= ts);
                },
            }
            assert(self.messages() =~= old(self).messages() + decls_messages(all.take(k + 1)));
        }
        assert(all.take(all.len() as int) =~= all);
        hir::Decls { values, types }
    }

    /// Read one declaration: `Ok` with a value, `Err` with a type.
    fn unconc_decl(&mut self, decl: cst::Decl) -> (r: Result<hir::ValueDef, hir::TypeDef>)
        requires
            decl_supported(decl),
            old(self).next() + decl_ids(decl) <= usize::MAX,
        ensures
            final(self).next() == old(self).next() + decl_ids(decl),
            final(self).messages() == old(self).messages() + decl_messages(decl),
            match r {
                Ok(v) => !(decl.node is TypeDecl) && valuedef_of(decl, v, old(self).next()),
                Err(t) => decl.node is TypeDecl && typedef_of(decl, t, old(self).next()),
            },
    {
        let ghost orig = decl;
        let span = decl.span;
        match decl.node {
            cst::DeclNode::TypeDecl { pat, bind } => Err(
                self.unconc_type_decl(span, pat, bind, Ghost(orig)),
            ),
            cst::DeclNode::ValueDecl { pat, bind } => Ok(
                self.unconc_value_decl(span, pat, bind, Ghost(orig)),
            ),
            cst::DeclNode::FunDecl { name, implicits, args, anno, bind } => Ok(
                self.unconc_fun_decl(span, name, implicits, args, anno, bind, Ghost(orig)),
            ),
        }
    }

    /// Read the type declaration `decl`, made of `span`, `pat` and `bind`.
    fn unconc_type_decl(
        &mut self,
        span: Span,
        pat: cst::Expr,
        bind: Option<cst::Expr>,
        Ghost(decl): Ghost<cst::Decl>,
    ) -> (t: hir::TypeDef)
        requires
            decl.span == span,
            decl.node == (cst::DeclNode::TypeDecl { pat, bind }),
            decl_supported(decl),
            old(self).next() + decl_ids(decl) <= usize::MAX,
        ensures
            final(self).next() == old(self).next() + decl_ids(decl),
            final(self).messages() == old(self).messages() + decl_messages(decl),
            typedef_of(decl, t, old(self).next()),
    {
        let ghost m0 = self.messages();
        let (pat, insts) = self.unconc_pat(pat);
        if insts.len() > 0 {
            let first = insts[0].span;
            self.msgs.push(Message { kind: MessageKind::TypesTakeNoImplicits, span: first });
        }
        let anno = hir::Type { node: hir::TypeNode::Wildcard, span: pat.span };
        let bind = match bind {
            Some(ty) => self.unconc_type(ty),
            None => hir::Type { node: hir::TypeNode::Type, span: pat.span },
        };
        let id = self.bind_id.fresh();
        assert(self.messages() =~= m0 + decl_messages(decl));
        hir::TypeDef { span, id, anno, bind, pat }
    }

    /// Read the value declaration `decl`, made of `span`, `pat` and `bind`.
    fn unconc_value_decl(
        &mut self,
        span: Span,
        pat: cst::Expr,
        bind: Option<cst::Expr>,
        Ghost(decl): Ghost<cst::Decl>,
    ) -> (v: hir::ValueDef)
        requires
            decl.span == span,
            decl.node == (cst::DeclNode::ValueDecl { pat, bind }),
            decl_supported(decl),
            old(self).next() + decl_ids(decl) <= usize::MAX,
        ensures
            final(self).next() == old(self).next() + decl_ids(decl),
            final(self).messages() == old(self).messages() + decl_messages(decl),
            valuedef_of(decl, v, old(self).next()),
    {
        let ghost m0 = self.messages();
        let (pat, insts) = self.unconc_pat(pat);
        let implicits = self.unconc_insts(insts);
        let anno = hir::Type { node: hir::TypeNode::Wildcard, span: pat.span };
        let bind = match bind {
            Some(bind) => self.unconc_expr(bind),
            None => hir::Expr { node: hir::ExprNode::Invalid, span },
        };
        let id = self.bind_id.fresh();
        assert(self.messages() =~= m0 + decl_messages(decl));
        hir::ValueDef { span, id, implicits, pat, anno, bind }
    }

    /// Read the function declaration `decl`, made of `span`, `name`,
    /// `implicits`, `args`, `anno` and `bind`.
    fn unconc_fun_decl(
        &mut self,
        span: Span,
        name: cst::Expr,
        implicits: Option<cst::Expr>,
        args: Vec<cst::Expr>,
        anno: Option<cst::Expr>,
        bind: Option<cst::Expr>,
        Ghost(decl): Ghost<cst::Decl>,
    ) -> (v: hir::ValueDef)
        requires
            decl.span == span,
            decl.node == (cst::DeclNode::FunDecl { name, implicits, args, anno, bind }),
            decl_supported(decl),
            old(self).next() + decl_ids(decl) <= usize::MAX,
        ensures
            final(self).next() == old(self).next() + decl_ids(decl),
            final(self).messages() == old(self).messages() + decl_messages(decl),
            valuedef_of(decl, v, old(self).next()),
    {
        let ghost m0 = self.messages();
        let ghost n0 = self.next();
        let ghost all_args = args@;
        let ghost (a0, b0) = (anno, bind);
        let ghost n1 = n0 + ids(name, 1);
        let ghost n3 = n1 + opt_ids(anno, 2) + opt_ids(bind, 0);
        assert(decl_ids(decl) == ids(name, 1) + opt_ids(anno, 2) + opt_ids(bind, 0) + args_ids(
            args@,
        ) + 1);
        let (pat, implicits, implicits_error) = self.unconc_fun_head(name, implicits);
        let ghost m1 = self.messages();
        let core = self.unconc_fun_core(pat.span, span, anno, bind);
        let ghost m2 = self.messages();
        let bind = self.wrap_lambdas(args, core, implicits_error);
        let id = self.bind_id.fresh();
        assert(self.messages() =~= m0 + decl_messages(decl));
        let anno = hir::Type { node: hir::TypeNode::Wildcard, span: pat.span };
        hir::ValueDef { span, id, implicits, pat, anno, bind }
    }

    /// Read the name of a function declaration and its implicit arguments;
    /// also tells whether the name carried implicit arguments.
    fn unconc_fun_head(&mut self, name: cst::Expr, implicits: Option<cst::Expr>) -> (r: (
        hir::Pat,
        Vec<(String, Span)>,
        bool,
    ))
        requires
            supported(name, 1),
            old(self).next() + ids(name, 1) <= usize::MAX,
        ensures
            pat_of(name, r.0, old(self).next()),
            r.1@ == insts_names(implicit_list(implicits)),
            r.2 == (pat_insts(name).len() > 0),
            final(self).next() == old(self).next() + ids(name, 1),
            final(self).messages() == old(self).messages() + fun_head_messages(name, implicits),
    {
        let ghost m0 = self.messages();
        let (pat, insts) = self.unconc_pat(name);
        let mut implicits_error = false;
        if insts.len() > 0 {
            let span = sum_spans(&insts);
            self.msgs.push(Message { kind: MessageKind::DisallowedImplicits, span });
            implicits_error = true;
        }
        let list = match implicits {
            Some(implicits) => unconc_list(implicits),
            None => Vec::new(),
        };
        assert(list@ == implicit_list(implicits));
        let names = self.unconc_insts(list);
        assert(self.messages() =~= m0 + fun_head_messages(name, implicits));
        (pat, names, implicits_error)
    }

    /// Read the annotation and body of a function declaration at
    /// `decl_span`, whose name is at `pat_span`, as the annotated body.
    fn unconc_fun_core(
        &mut self,
        pat_span: Span,
        decl_span: Span,
        anno: Option<cst::Expr>,
        bind: Option<cst::Expr>,
    ) -> (core: hir::Expr)
        requires
            anno matches Some(a) ==> supported(a, 2),
            bind matches Some(b) ==> supported(b, 0),
            old(self).next() + opt_ids(anno, 2) + opt_ids(bind, 0) <= usize::MAX,
        ensures
            fun_core_of(anno, bind, core, pat_span, decl_span, old(self).next()),
            final(self).next() == old(self).next() + opt_ids(anno, 2) + opt_ids(bind, 0),
            final(self).messages() == old(self).messages() + opt_messages(anno, 2)
                + opt_messages(bind, 0),
    {
        let ghost m0 = self.messages();
        let ghost (a0, b0) = (anno, bind);
        let anno = match anno {
            Some(anno) => self.unconc_type(anno),
            None => hir::Type { node: hir::TypeNode::Wildcard, span: pat_span },
        };
        let bind = match bind {
            Some(bind) => self.unconc_expr(bind),
            None => hir::Expr { node: hir::ExprNode::Invalid, span: decl_span },
        };
        let span = bind.span.join(anno.span);
        assert(self.messages() =~= m0 + opt_messages(a0, 2) + opt_messages(b0, 0));
        hir::Expr { node: hir::ExprNode::Anno(Box::new(bind), anno), span }
    }

    /// Wrap `bind` in a lambda for each of `args`, the last innermost,
    /// reporting the first argument with implicits unless `error` is set.
    fn wrap_lambdas(&mut self, args: Vec<cst::Expr>, bind: hir::Expr, error: bool) -> (r: hir::Expr)
        requires
            forall|i: int| 0 <= i < args@.len() ==> supported(#[trigger] args@[i], 1),
            old(self).next() + args_ids(args@) <= usize::MAX,
        ensures
            lams_of(args@, r, old(self).next()),
            peel(r, args@.len()) == bind,
            final(self).next() == old(self).next() + args_ids(args@),
            final(self).messages() == old(self).messages() + args_messages(args@, error),
    {
        let ghost all_args = args@;
        let ghost core = bind;
        let ghost n3 = self.next();
        let ghost m3 = self.messages();
        let mut implicits_error = error;
        let mut bind = bind;
        let mut args = args;
        proof {
            assert(all_args.skip(all_args.len() as int) =~= Seq::<cst::Expr>::empty());
            assert(all_args.take(all_args.len() as int) =~= all_args);
        }
        while args.len() > 0
            invariant
                args@ == all_args.take(args@.len() as int),
                args@.len() <= all_args.len(),
                forall|i: int| 0 <= i < all_args.len() ==> supported(#[trigger] all_args[i], 1),
                self.next() == n3 + args_ids(all_args.skip(args@.len() as int)),
                n3 + args_ids(all_args) <= usize::MAX,
                lams_of(all_args.skip(args@.len() as int), bind, n3),
                peel(bind, (all_args.len() - args@.len()) as nat) == core,
                self.messages() + args_messages(args@, implicits_error) == m3 + args_messages(
                    all_args,
                    error,
                ),
            decreases args@.len(),
        {
            let ghost k = args@.len() as int;
            let ghost inner = bind;
            let ghost m_before = self.messages();
            let ghost err_before = implicits_error;
            let arg = args.pop().unwrap();
            assert(arg == all_args[k - 1]);
            assert(all_args.skip(k - 1).drop_first() =~= all_args.skip(k));
            assert(all_args.skip(k - 1)[0] == all_args[k - 1]);
            assert(args@ =~= all_args.take(k - 1));
            proof {
                lemma_args_ids_le(all_args, k - 1);
            }
            let (arg, implicits) = self.unconc_pat(arg);
            if implicits.len() > 0 && !implicits_error {
                let span = sum_spans(&implicits);
                self.msgs.push(Message { kind: MessageKind::DisallowedImplicits, span });
                implicits_error = true;
            } else if implicits.len() > 0 {
                implicits_error = true;
            }
            let span = bind.span.join(arg.span);
            let id = self.bind_id.fresh();
            bind = hir::Expr { node: hir::ExprNode::Lam(id, arg, Box::new(bind)), span };
            proof {
                assert(all_args.take(k).drop_last() =~= all_args.take(k - 1));
                assert(all_args.take(k).last() == all_args[k - 1]);
                assert(peel(bind, (all_args.len() - (k - 1)) as nat) == peel(
                    inner,
                    (all_args.len() - k) as nat,
                ));
                assert(self.messages() + args_messages(args@, implicits_error) =~= m_before
                    + args_messages(all_args.take(k), err_before));
            }
        }
        assert(all_args.skip(0) =~= all_args);
        assert(self.messages() + Seq::<Message>::empty() =~= self.messages());
        bind
    }

    /// Read an expression.
    fn unconc_expr(&mut self, expr: cst::Expr) -> (r: hir::Expr)
        requires
            supported(expr, 0),
            old(self).next() + ids(expr, 0) <= usize::MAX,
        ensures
            expr_of(expr, r, old(self).next()),
            final(self).next() == old(self).next() + ids(expr, 0),
            final(self).messages() == old(self).messages() + messages_of(expr, 0),
        decreases expr, 1nat,
    {
        let ghost orig = expr;
        let ghost m0 = self.messages();
        let span = expr.span;
        let r = match expr.node {
            cst::ExprNode::Name(name) => hir::Expr { node: hir::ExprNode::Name(name), span },
            cst::ExprNode::Int(i) => hir::Expr { node: hir::ExprNode::Int(i as i64), span },
            cst::ExprNode::Group(expr) => return self.unconc_expr(*expr),
            cst::ExprNode::Range(at, lo, hi) => {
                let lo = self.unconc_expr(*lo);
                let hi = self.unconc_expr(*hi);
                let upto = "upto";
                proof {
                    reveal_strlit("upto");
                    assert(upto@ =~= seq!['u', 'p', 't', 'o']);
                }
                make_call2(upto.to_owned(), at, lo, hi, span)
            },
            cst::ExprNode::Fun(at, t, u) => {
                let t = self.unconc_expr(*t);
                let u = self.unconc_expr(*u);
                let arrow = "->";
                proof {
                    reveal_strlit("->");
                    assert(arrow@ =~= seq!['-', '>']);
                }
                make_call2(arrow.to_owned(), at, t, u, span)
            },
            cst::ExprNode::BinOp(at, op, x, y) => {
                let x = self.unconc_expr(*x);
                let y = self.unconc_expr(*y);
                make_call2(binop_to_name(op).to_owned(), at, x, y, span)
            },
            cst::ExprNode::Tuple(x, y) => {
                let x = Box::new(self.unconc_expr(*x));
                let y = Box::new(self.unconc_expr(*y));
                hir::Expr { node: hir::ExprNode::Tuple(x, y), span }
            },
            cst::ExprNode::Lam(pat, body) => {
                let (pat, insts) = self.unconc_pat(*pat);
                let body = Box::new(self.unconc_expr(*body));
                if insts.len() > 0 {
                    let span = sum_spans(&insts);
                    self.msgs.push(Message { kind: MessageKind::GenericLambda, span });
                }
                let id = self.bind_id.fresh();
                hir::Expr { node: hir::ExprNode::Lam(id, pat, body), span }
            },
            cst::ExprNode::App(fun, arg) => {
                let fun = Box::new(self.unconc_expr(*fun));
                let arg = Box::new(self.unconc_expr(*arg));
                hir::Expr { node: hir::ExprNode::App(fun, arg), span }
            },
            cst::ExprNode::Inst(fun, args) => {
                let ghost f0 = *fun;
                let ghost a = *args;
                let fun = Box::new(self.unconc_expr(*fun));
                proof {
                    lemma_list_facts(a);
                }
                let ghost n1 = self.next();
                let args = unconc_list(*args);
                let tys = self.unconc_types(args, Ghost(orig));
                proof {
                    lemma_types_of(a, tys@, n1);
                }
                hir::Expr { node: hir::ExprNode::Inst(fun, tys), span }
            },
            cst::ExprNode::Anno(expr, anno) => {
                let expr = Box::new(self.unconc_expr(*expr));
                let anno = self.unconc_type(*anno);
                hir::Expr { node: hir::ExprNode::Anno(expr, anno), span }
            },
            cst::ExprNode::Wildcard => hir::Expr { node: hir::ExprNode::Hole, span },
            cst::ExprNode::Invalid => hir::Expr { node: hir::ExprNode::Invalid, span },
            cst::ExprNode::Type => {
                self.msgs.push(Message { kind: MessageKind::ExpectedExpression, span });
                hir::Expr { node: hir::ExprNode::Invalid, span }
            },
        };
        assert(self.messages() =~= m0 + messages_of(orig, 0));
        r
    }

    /// Read each of `list`, expressions inside `parent`, as a type.
    fn unconc_types(&mut self, list: Vec<cst::Expr>, Ghost(parent): Ghost<cst::Expr>) -> (tys: Vec<
        hir::Type,
    >)
        requires
            forall|i: int| 0 <= i < list@.len() ==> supported(#[trigger] list@[i], 2),
            forall|i: int| 0 <= i < list@.len() ==> decreases_to!(parent => #[trigger] list@[i]),
            old(self).next() + list_ids(list@) <= usize::MAX,
        ensures
            tys@.len() == list@.len(),
            forall|i: int|
                0 <= i < list@.len() ==> type_of(
                    #[trigger] list@[i],
                    tys@[i],
                    (old(self).next() + list_ids(list@) - list_ids(list@.skip(i))) as nat,
                ),
            final(self).next() == old(self).next() + list_ids(list@),
            final(self).messages() == old(self).messages() + list_messages(list@),
        decreases parent, 0nat,
    {
        let ghost all = list@;
        let ghost n0 = self.next();
        let mut rest = reversed(list);
        let mut tys: Vec<hir::Type> = Vec::new();
        proof {
            assert(all.skip(0) =~= all);
        }
        while rest.len() > 0
            invariant
                rest@.len() <= all.len(),
                tys@.len() == all.len() - rest@.len(),
                forall|i: int|
                    0 <= i < rest@.len() ==> #[trigger] rest@[i] == all[all.len() - 1 - i],
                forall|i: int| 0 <= i < all.len() ==> supported(#[trigger] all[i], 2),
                forall|i: int| 0 <= i < all.len() ==> decreases_to!(parent => #[trigger] all[i]),
                n0 + list_ids(all) <= usize::MAX,
                forall|i: int|
                    0 <= i < tys@.len() ==> type_of(
                        #[trigger] all[i],
                        tys@[i],
                        (n0 + list_ids(all) - list_ids(all.skip(i))) as nat,
                    ),
                self.next() + list_ids(all.skip(tys@.len() as int)) == n0 + list_ids(all),
                self.messages() + list_messages(all.skip(tys@.len() as int)) == old(
                    self,
                ).messages() + list_messages(all),
            decreases rest@.len(),
        {
            let ghost k = tys@.len() as int;
            let ghost m_before = self.messages();
            let next = rest.pop().unwrap();
            assert(next == all[k]);
            assert(all.skip(k).drop_first() =~= all.skip(k + 1));
            assert(all.skip(k)[0] == all[k]);
            let ty = self.unconc_type(next);
            tys.push(ty);
            assert(self.messages() + list_messages(all.skip(k + 1)) =~= m_before
                + list_messages(all.skip(k)));
        }
        assert(all.skip(all.len() as int) =~= Seq::<cst::Expr>::empty());
        assert(self.messages() + Seq::<Message>::empty() =~= self.messages());
        tys
    }

    /// Read a pattern, handing out the expressions that stand for its
    /// implicit arguments.
    fn unconc_pat(&mut self, pat: cst::Expr) -> (r: (hir::Pat, Vec<cst::Expr>))
        requires
            supported(pat, 1),
            old(self).next() + ids(pat, 1) <= usize::MAX,
        ensures
            pat_of(pat, r.0, old(self).next()),
            r.1@ == pat_insts(pat),
            final(self).next() == old(self).next() + ids(pat, 1),
            final(self).messages() == old(self).messages() + messages_of(pat, 1),
        decreases pat, 1nat,
    {
        let ghost orig = pat;
        let ghost m0 = self.messages();
        let span = pat.span;
        let (node, insts) = match pat.node {
            cst::ExprNode::Name(name) => (hir::PatNode::Name(name), Vec::new()),
            cst::ExprNode::Group(pat) => return self.unconc_pat(*pat),
            cst::ExprNode::Tuple(x, y) => {
                let (x, mut insts) = self.unconc_pat(*x);
                let (y, mut other) = self.unconc_pat(*y);
                insts.append(&mut other);
                (hir::PatNode::Tuple(Box::new(x), Box::new(y)), insts)
            },
            cst::ExprNode::Anno(pat, ty) => {
                let (pat, insts) = self.unconc_pat(*pat);
                let ty = self.unconc_type(*ty);
                (hir::PatNode::Anno(Box::new(pat), ty), insts)
            },
            cst::ExprNode::Inst(pat, insts) => {
                let (pat, mut other) = self.unconc_pat(*pat);
                let mut insts = unconc_list(*insts);
                insts.append(&mut other);
                return (pat, insts);
            },
            cst::ExprNode::Wildcard => (hir::PatNode::Wildcard, Vec::new()),
            cst::ExprNode::Invalid => (hir::PatNode::Invalid, Vec::new()),
            _ => {
                self.msgs.push(Message { kind: MessageKind::NotAPattern, span });
                (hir::PatNode::Invalid, Vec::new())
            },
        };
        assert(self.messages() =~= m0 + messages_of(orig, 1));
        assert(insts@ =~= pat_insts(orig));
        (hir::Pat { node, span }, insts)
    }

    /// Keep the names of `insts`, reporting the others.
    fn unconc_insts(&mut self, insts: Vec<cst::Expr>) -> (names: Vec<(String, Span)>)
        ensures
            names@ == insts_names(insts@),
            final(self).messages() == old(self).messages() + insts_messages(insts@),
            final(self).next() == old(self).next(),
    {
        let ghost all = insts@;
        let mut rest = reversed(insts);
        let mut names: Vec<(String, Span)> = Vec::new();
        let ghost mut k: int = 0;
        proof {
            assert(all.skip(0) =~= all);
            assert(names@ + insts_names(all) =~= insts_names(all));
            assert(self.messages() + insts_messages(all) =~= old(self).messages() + insts_messages(
                all,
            ));
        }
        while rest.len() > 0
            invariant
                0 <= k,
                k + rest@.len() == all.len(),
                forall|i: int|
                    0 <= i < rest@.len() ==> #[trigger] rest@[i] == all[all.len() - 1 - i],
                names@ + insts_names(all.skip(k as int)) == insts_names(all),
                self.messages() + insts_messages(all.skip(k as int)) == old(self).messages()
                    + insts_messages(all),
                self.next() == old(self).next(),
            decreases rest@.len(),
        {
            let ghost before_names = names@;
            let ghost before_msgs = self.messages();
            let inst = rest.pop().unwrap();
            assert(inst == all[k]);
            assert(all.skip(k).drop_first() =~= all.skip(k + 1));
            assert(all.skip(k as int)[0] == all[k as int]);
            match inst.node {
                cst::ExprNode::Name(name) => {
                    names.push((name, inst.span));
                },
                _ => {
                    self.msgs.push(Message { kind: MessageKind::NotATypeName, span: inst.span });
                },
            }
            proof {
                k = k + 1;
            }
            assert(names@ + insts_names(all.skip(k as int)) =~= before_names + insts_names(
                all.skip(k - 1),
            ));
            assert(self.messages() + insts_messages(all.skip(k as int)) =~= before_msgs
                + insts_messages(all.skip(k - 1)));
        }
        assert(all.skip(k as int) =~= Seq::<cst::Expr>::empty());
        assert(names@ =~= names@ + Seq::<(String, Span)>::empty());
        assert(self.messages() =~= self.messages() + Seq::<Message>::empty());
        names
    }

    /// Read a type.
    fn unconc_type(&mut self, typ: cst::Expr) -> (r: hir::Type)
        requires
            supported(typ, 2),
            old(self).next() + ids(typ, 2) <= usize::MAX,
        ensures
            type_of(typ, r, old(self).next()),
            final(self).next() == old(self).next() + ids(typ, 2),
            final(self).messages() == old(self).messages() + messages_of(typ, 2),
        decreases typ, 1nat,
    {
        let ghost orig = typ;
        let ghost m0 = self.messages();
        let span = typ.span;
        let node = match typ.node {
            cst::ExprNode::Range(_, lo, hi) => {
                let ghost (l0, h0) = (*lo, *hi);
                let n0 = Ghost(self.next());
                let lo = self.unconc_expr(*lo);
                let n1 = Ghost(self.next());
                let hi = self.unconc_expr(*hi);
                proof {
                    lemma_expr_int(l0, lo, n0@);
                    lemma_expr_int(h0, hi, n1@);
                }
                match (lo.node, hi.node) {
                    (hir::ExprNode::Int(lo), hir::ExprNode::Int(hi)) => hir::TypeNode::Range(lo, hi),
                    (hir::ExprNode::Int(_), _) => {
                        self.msgs.push(Message { kind: MessageKind::RangeNotAnInt, span: hi.span });
                        hir::TypeNode::Invalid
                    },
                    (_, hir::ExprNode::Int(_)) => {
                        self.msgs.push(Message { kind: MessageKind::RangeNotAnInt, span: lo.span });
                        hir::TypeNode::Invalid
                    },
                    _ => {
                        let span = lo.span.join(hi.span);
                        self.msgs.push(Message { kind: MessageKind::RangeNotAnInt, span });
                        hir::TypeNode::Invalid
                    },
                }
            },
            cst::ExprNode::Name(name) => hir::TypeNode::Name(name),
            cst::ExprNode::Int(v) => hir::TypeNode::Range(0, v as i64),
            cst::ExprNode::Fun(_, t, u) => {
                let t = Box::new(self.unconc_type(*t));
                let u = Box::new(self.unconc_type(*u));
                hir::TypeNode::Fun(t, u)
            },
            cst::ExprNode::BinOp(_, BinOp::Mul, t, u) => {
                let t = Box::new(self.unconc_type(*t));
                let u = Box::new(self.unconc_type(*u));
                hir::TypeNode::Prod(t, u)
            },
            cst::ExprNode::Group(typ) => return self.unconc_type(*typ),
            cst::ExprNode::Type => hir::TypeNode::Type,
            cst::ExprNode::Wildcard => hir::TypeNode::Wildcard,
            _ => {
                self.msgs.push(Message { kind: MessageKind::NotAType, span });
                hir::TypeNode::Invalid
            },
        };
        assert(self.messages() =~= m0 + messages_of(orig, 2));
        hir::Type { node, span }
    }
}

} // verus!
