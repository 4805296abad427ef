//! The grammar of declarations and expressions, as functions from the state
//! of a parse to what is read and the state after it. The productions are
//! those the parser's functions give in their doc comments; where the tokens
//! do not follow them, an invalid node and a message take the place of what
//! was expected.

use vstd::prelude::*;

use super::tree::{BinOp, Decl, DeclNode, Expr, ExprNode};
use super::{
    kind, starts_base_expr, starts_decl, starts_op_name, Token, COLON, COMMA, DELIMIT, EQUAL,
    EQ_ARROW, FUN, GROUP_CLOSE, GROUP_OPEN, LET, MIN_ARROW, PIPE, STAR, UPTO,
};
use crate::messages::{msg, Message, MessageKind};
use crate::source::Span;

verus! {

/// The state of a parse: the tokens left, the span of the token consumed
/// last, the messages so far, the span used where no token gives one, and
/// whether the parse is within a list of implicit arguments.
pub struct QState {
    pub rem: Seq<(Token, Span)>,
    pub prev: Option<Span>,
    pub msgs: Seq<Message>,
    pub fallback: Span,
    pub implicit: bool,
}

/// An expression of the tree, with its names as sequences.
pub enum ETreeNode {
    Name(Seq<char>),
    Int(u64),
    Group(Box<ETree>),
    Range(Span, Box<ETree>, Box<ETree>),
    Fun(Span, Box<ETree>, Box<ETree>),
    BinOp(Span, BinOp, Box<ETree>, Box<ETree>),
    Tuple(Box<ETree>, Box<ETree>),
    Lam(Box<ETree>, Box<ETree>),
    Inst(Box<ETree>, Box<ETree>),
    App(Box<ETree>, Box<ETree>),
    Anno(Box<ETree>, Box<ETree>),
    Wildcard,
    Type,
    Invalid,
}

pub struct ETree {
    pub node: ETreeNode,
    pub span: Span,
}

/// A declaration of the tree, with its lists as sequences.
pub enum DTreeNode {
    ValueDecl { pat: ETree, bind: Option<ETree> },
    FunDecl {
        name: ETree,
        implicits: Option<ETree>,
        args: Seq<ETree>,
        anno: Option<ETree>,
        bind: Option<ETree>,
    },
    TypeDecl { pat: ETree, bind: Option<ETree> },
}

pub struct DTree {
    pub node: DTreeNode,
    pub span: Span,
}

/// The tree an expression stands for.
pub open spec fn etree(e: Expr) -> ETree
    decreases e,
{
    let node = match e.node {
        ExprNode::Name(n) => ETreeNode::Name(n@),
        ExprNode::Int(i) => ETreeNode::Int(i),
        ExprNode::Group(a) => ETreeNode::Group(Box::new(etree(*a))),
        ExprNode::Range(s, a, b) => ETreeNode::Range(s, Box::new(etree(*a)), Box::new(etree(*b))),
        ExprNode::Fun(s, a, b) => ETreeNode::Fun(s, Box::new(etree(*a)), Box::new(etree(*b))),
        ExprNode::BinOp(s, op, a, b) => ETreeNode::BinOp(
            s,
            op,
            Box::new(etree(*a)),
            Box::new(etree(*b)),
        ),
        ExprNode::Tuple(a, b) => ETreeNode::Tuple(Box::new(etree(*a)), Box::new(etree(*b))),
        ExprNode::Lam(a, b) => ETreeNode::Lam(Box::new(etree(*a)), Box::new(etree(*b))),
        ExprNode::Inst(a, b) => ETreeNode::Inst(Box::new(etree(*a)), Box::new(etree(*b))),
        ExprNode::App(a, b) => ETreeNode::App(Box::new(etree(*a)), Box::new(etree(*b))),
        ExprNode::Anno(a, b) => ETreeNode::Anno(Box::new(etree(*a)), Box::new(etree(*b))),
        ExprNode::Wildcard => ETreeNode::Wildcard,
        ExprNode::Type => ETreeNode::Type,
        ExprNode::Invalid => ETreeNode::Invalid,
    };
    ETree { node, span: e.span }
}

pub open spec fn opt_etree(e: Option<Expr>) -> Option<ETree> {
    match e {
        Some(e) => Some(etree(e)),
        None => None,
    }
}

/// The trees the expressions stand for, in order.
pub open spec fn etrees(es: Seq<Expr>) -> Seq<ETree> {
    Seq::new(es.len(), |i: int| etree(es[i]))
}

/// The tree a declaration stands for.
pub open spec fn dtree(d: Decl) -> DTree {
    let node = match d.node {
        DeclNode::ValueDecl { pat, bind } => DTreeNode::ValueDecl {
            pat: etree(pat),
            bind: opt_etree(bind),
        },
        DeclNode::FunDecl { name, implicits, args, anno, bind } => DTreeNode::FunDecl {
            name: etree(name),
            implicits: opt_etree(implicits),
            args: etrees(args@),
            anno: opt_etree(anno),
            bind: opt_etree(bind),
        },
        DeclNode::TypeDecl { pat, bind } => DTreeNode::TypeDecl {
            pat: etree(pat),
            bind: opt_etree(bind),
        },
    };
    DTree { node, span: d.span }
}

/// The trees the declarations stand for, in order.
pub open spec fn dtrees(ds: Seq<Decl>) -> Seq<DTree> {
    Seq::new(ds.len(), |i: int| dtree(ds[i]))
}

pub proof fn lemma_dtrees_concat(a: Seq<Decl>, b: Seq<Decl>)
    ensures
        dtrees(a + b) == dtrees(a) + dtrees(b),
{
    assert(dtrees(a + b) =~= dtrees(a) + dtrees(b));
}

pub proof fn lemma_dtrees_push(a: Seq<Decl>, d: Decl)
    ensures
        dtrees(a.push(d)) == dtrees(a).push(dtree(d)),
{
    assert(dtrees(a.push(d)) =~= dtrees(a).push(dtree(d)));
}

pub proof fn lemma_etrees_push(a: Seq<Expr>, e: Expr)
    ensures
        etrees(a.push(e)) == etrees(a).push(etree(e)),
{
    assert(etrees(a.push(e)) =~= etrees(a).push(etree(e)));
}

/// The span covering the trees `ts`, joined from the first on.
pub open spec fn tspans(ts: Seq<ETree>) -> Span
    decreases ts.len(),
{
    if ts.len() <= 1 {
        ts[0].span
    } else {
        tspans(ts.drop_last()).spec_join(ts.last().span)
    }
}

/// The state at the start of parsing `tokens`.
pub open spec fn qstart(tokens: Seq<(Token, Span)>) -> QState {
    QState {
        rem: tokens,
        prev: None,
        msgs: Seq::empty(),
        fallback: Span::spec_new(0, 0),
        implicit: false,
    }
}

/// The state after consuming the next token, if there is one.
pub open spec fn qadv(s: QState) -> QState {
    if s.rem.len() > 0 {
        QState { rem: s.rem.drop_first(), prev: Some(s.rem[0].1), ..s }
    } else {
        s
    }
}

/// The state after reporting `kind` at `span`.
pub open spec fn qreport(s: QState, kind: MessageKind, span: Span) -> QState {
    QState { msgs: s.msgs.push(msg(kind, span)), ..s }
}

/// The state after entering or leaving a list of implicit arguments.
pub open spec fn qimplicit(s: QState, implicit: bool) -> QState {
    QState { implicit, ..s }
}

/// Whether the next token is of kind `k`.
pub open spec fn qnext(s: QState, k: u8) -> bool {
    s.rem.len() > 0 && kind(s.rem[0].0) == k
}

/// The span of the token consumed last, else the fallback.
pub open spec fn qlast(s: QState) -> Span {
    match s.prev {
        Some(span) => span,
        None => s.fallback,
    }
}

pub open spec fn einvalid(span: Span) -> ETree {
    ETree { node: ETreeNode::Invalid, span }
}

pub open spec fn ejoin(node: ETreeNode, a: ETree, b: ETree) -> ETree {
    ETree { node, span: a.span.spec_join(b.span) }
}

/// `expr = lam-expr`
pub open spec fn p_expr(s: QState) -> (ETree, QState)
    decreases s.rem.len(), 24nat,
{
    p_lam(s)
}

/// `lam-expr = small-expr ["=>" expr]`, where `f x => y` reads as
/// `f (x => y)`.
pub open spec fn p_lam(s: QState) -> (ETree, QState)
    decreases s.rem.len(), 22nat,
{
    let (e, s1) = p_small(s);
    if s1.rem.len() <= s.rem.len() && qnext(s1, EQ_ARROW) {
        let (body, s2) = p_expr(qadv(s1));
        let tree = match e.node {
            ETreeNode::App(func, arg) => ETree {
                node: ETreeNode::App(
                    func,
                    Box::new(ejoin(ETreeNode::Lam(arg, Box::new(body)), *arg, body)),
                ),
                span: e.span.spec_join(body.span),
            },
            _ => ejoin(ETreeNode::Lam(Box::new(e), Box::new(body)), e, body),
        };
        (tree, s2)
    } else {
        (e, s1)
    }
}

/// `small-expr = tuple-expr`
pub open spec fn p_small(s: QState) -> (ETree, QState)
    decreases s.rem.len(), 20nat,
{
    p_tuple(s)
}

/// `tuple-expr = anno-expr *("," anno-expr)`
pub open spec fn p_tuple(s: QState) -> (ETree, QState)
    decreases s.rem.len(), 18nat,
{
    let (e, s1) = p_anno(s);
    if s1.rem.len() <= s.rem.len() {
        p_tuple_loop(e, s1)
    } else {
        (e, s1)
    }
}

pub open spec fn p_tuple_loop(e: ETree, s: QState) -> (ETree, QState)
    decreases s.rem.len(), 17nat,
{
    if qnext(s, COMMA) {
        let (other, s2) = p_anno(qadv(s));
        let t = ejoin(ETreeNode::Tuple(Box::new(e), Box::new(other)), e, other);
        if s2.rem.len() < s.rem.len() {
            p_tuple_loop(t, s2)
        } else {
            (t, s2)
        }
    } else {
        (e, s)
    }
}

/// `anno-expr = arrow-expr [":" arrow-expr]`
pub open spec fn p_anno(s: QState) -> (ETree, QState)
    decreases s.rem.len(), 16nat,
{
    let (e, s1) = p_arrow(s);
    if s1.rem.len() <= s.rem.len() && qnext(s1, COLON) {
        let (a, s2) = p_arrow(qadv(s1));
        (ejoin(ETreeNode::Anno(Box::new(e), Box::new(a)), e, a), s2)
    } else {
        (e, s1)
    }
}

/// `arrow-expr = range-expr ["->" arrow-expr]`
pub open spec fn p_arrow(s: QState) -> (ETree, QState)
    decreases s.rem.len(), 14nat,
{
    let (e, s1) = p_range(s);
    if s1.rem.len() <= s.rem.len() && qnext(s1, MIN_ARROW) {
        let op = s1.rem[0].1;
        let (o, s2) = p_arrow(qadv(s1));
        (ejoin(ETreeNode::Fun(op, Box::new(e), Box::new(o)), e, o), s2)
    } else {
        (e, s1)
    }
}

/// `range-expr = mul-expr ["upto" mul-expr]`
pub open spec fn p_range(s: QState) -> (ETree, QState)
    decreases s.rem.len(), 12nat,
{
    let (e, s1) = p_mul(s);
    if s1.rem.len() <= s.rem.len() && qnext(s1, UPTO) {
        let op = s1.rem[0].1;
        let (o, s2) = p_mul(qadv(s1));
        (ejoin(ETreeNode::Range(op, Box::new(e), Box::new(o)), e, o), s2)
    } else {
        (e, s1)
    }
}

/// `mul-expr = app-expr *("*" app-expr)`
pub open spec fn p_mul(s: QState) -> (ETree, QState)
    decreases s.rem.len(), 10nat,
{
    let (e, s1) = p_app(s);
    if s1.rem.len() <= s.rem.len() {
        p_mul_loop(e, s1)
    } else {
        (e, s1)
    }
}

pub open spec fn p_mul_loop(e: ETree, s: QState) -> (ETree, QState)
    decreases s.rem.len(), 9nat,
{
    if qnext(s, STAR) {
        let op = s.rem[0].1;
        let (o, s2) = p_app(qadv(s));
        let t = ejoin(ETreeNode::BinOp(op, BinOp::Mul, Box::new(e), Box::new(o)), e, o);
        if s2.rem.len() < s.rem.len() {
            p_mul_loop(t, s2)
        } else {
            (t, s2)
        }
    } else {
        (e, s)
    }
}

/// Whether the next token is an argument of an application: it starts a
/// base expression, or opens implicit arguments outside of them.
pub open spec fn q_is_arg(s: QState) -> bool {
    s.rem.len() > 0 && (starts_base_expr(kind(s.rem[0].0)) || (!s.implicit && qnext(s, PIPE)))
}

/// `app-expr = base-expr *(base-expr / "|" small-expr "|")`
pub open spec fn p_app(s: QState) -> (ETree, QState)
    decreases s.rem.len(), 8nat,
{
    let (e, s1) = p_base(s);
    if s1.rem.len() <= s.rem.len() {
        p_app_loop(e, s1)
    } else {
        (e, s1)
    }
}

pub open spec fn p_app_loop(e: ETree, s: QState) -> (ETree, QState)
    decreases s.rem.len(), 7nat,
{
    if q_is_arg(s) {
        if qnext(s, PIPE) {
            let opener = s.rem[0].1;
            let (arg, s3) = p_small(qimplicit(qadv(s), true));
            let s4 = qimplicit(s3, false);
            let s5 = if qnext(s4, PIPE) {
                qadv(s4)
            } else {
                qreport(s4, MessageKind::UnclosedImplicits, opener)
            };
            let t = ejoin(ETreeNode::Inst(Box::new(e), Box::new(arg)), e, arg);
            if s5.rem.len() < s.rem.len() {
                p_app_loop(t, s5)
            } else {
                (t, s5)
            }
        } else {
            let (arg, s1) = p_base(s);
            let t = ejoin(ETreeNode::App(Box::new(e), Box::new(arg)), e, arg);
            if s1.rem.len() < s.rem.len() {
                p_app_loop(t, s1)
            } else {
                (t, s1)
            }
        }
    } else {
        (e, s)
    }
}

/// `OP-NAME = "->" / "upto" / "*"`, read as a name.
pub open spec fn op_tree(token: Token, span: Span) -> ETree {
    ETree {
        node: ETreeNode::Name(
            match token {
                Token::MinArrow => "->"@,
                Token::Upto => "upto"@,
                _ => "*"@,
            },
        ),
        span,
    }
}

/// `base-expr = NAME / NUM / WILDCARD / "type" / "(" expr ")" / "(" OP-NAME ")"`;
/// the current token is consumed, whatever it is.
pub open spec fn p_base(s: QState) -> (ETree, QState)
    decreases s.rem.len(), 6nat,
{
    let s1 = qadv(s);
    if s.rem.len() == 0 {
        let span = qlast(s1);
        (einvalid(span), qreport(s1, MessageKind::ExpectedBaseExpression, span))
    } else {
        let (token, span) = s.rem[0];
        match token {
            Token::Name(n) => (ETree { node: ETreeNode::Name(n@), span }, s1),
            Token::Number(n) => (ETree { node: ETreeNode::Int(n), span }, s1),
            Token::Question => (ETree { node: ETreeNode::Wildcard, span }, s1),
            Token::Type => (ETree { node: ETreeNode::Type, span }, s1),
            Token::Invalid => (einvalid(span), s1),
            Token::GroupOpen => {
                let (inner, s2) = if s1.rem.len() > 0 && starts_op_name(kind(s1.rem[0].0)) {
                    (op_tree(s1.rem[0].0, s1.rem[0].1), qadv(s1))
                } else {
                    p_expr(s1)
                };
                let s3 = if qnext(s2, GROUP_CLOSE) {
                    qadv(s2)
                } else {
                    qreport(s2, MessageKind::UnclosedGroup, span)
                };
                (
                    ETree {
                        node: ETreeNode::Group(Box::new(inner)),
                        span: span.spec_join(qlast(s3)),
                    },
                    s3,
                )
            },
            _ => (einvalid(span), qreport(s1, MessageKind::ExpectedBaseExpression, span)),
        }
    }
}

/// `decls = [decl *(";" decl) [";"]] / "(" decls ")"`, where a group may
/// also follow a `;`.
pub open spec fn p_decls(s: QState) -> (Seq<DTree>, QState)
    decreases s.rem.len(), 32nat,
{
    if qnext(s, GROUP_OPEN) {
        let span = s.rem[0].1;
        let (ds, s2) = p_decls(qadv(s));
        let s3 = if qnext(s2, GROUP_CLOSE) {
            qadv(s2)
        } else {
            qreport(s2, MessageKind::UnclosedGroup, span)
        };
        (ds, s3)
    } else if s.rem.len() > 0 && starts_decl(kind(s.rem[0].0)) {
        let (d, s1) = p_decl(s);
        if s1.rem.len() < s.rem.len() {
            p_decls_loop(seq![d], s1)
        } else {
            (seq![d], s1)
        }
    } else {
        (Seq::empty(), s)
    }
}

pub open spec fn p_decls_loop(acc: Seq<DTree>, s: QState) -> (Seq<DTree>, QState)
    decreases s.rem.len(), 31nat,
{
    if qnext(s, DELIMIT) {
        let s1 = qadv(s);
        if qnext(s1, GROUP_OPEN) {
            let (more, s2) = p_decls(s1);
            if s2.rem.len() < s.rem.len() {
                p_decls_loop(acc + more, s2)
            } else {
                (acc + more, s2)
            }
        } else if qnext(s1, LET) || qnext(s1, FUN) {
            let (d, s2) = p_decl(s1);
            if s2.rem.len() < s.rem.len() {
                p_decls_loop(acc.push(d), s2)
            } else {
                (acc.push(d), s2)
            }
        } else {
            (acc, s1)
        }
    } else {
        (acc, s)
    }
}

/// What `p_decls_loop` gives, with its definition kept out of sight.
pub closed spec fn decls_rest(acc: Seq<DTree>, s: QState) -> (Seq<DTree>, QState) {
    p_decls_loop(acc, s)
}

/// What `p_decls` gives, with its definition kept out of sight.
pub closed spec fn decls_all(s: QState) -> (Seq<DTree>, QState) {
    p_decls(s)
}

pub proof fn lemma_decls_all(s: QState)
    ensures
        decls_all(s) == p_decls(s),
{
}

pub proof fn lemma_decls_start(s: QState, d: DTree, s1: QState)
    requires
        !qnext(s, GROUP_OPEN),
        s.rem.len() > 0 && starts_decl(kind(s.rem[0].0)),
        (d, s1) == p_decl(s),
        s1.rem.len() < s.rem.len(),
    ensures
        decls_all(s) == decls_rest(seq![d], s1),
{
}

pub proof fn lemma_decls_loop_stop(acc: Seq<DTree>, s: QState)
    requires
        !qnext(s, DELIMIT),
    ensures
        decls_rest(acc, s) == (acc, s),
{
}

pub proof fn lemma_decls_loop_group(acc: Seq<DTree>, s: QState, more: Seq<DTree>, s2: QState)
    requires
        qnext(s, DELIMIT),
        qnext(qadv(s), GROUP_OPEN),
        (more, s2) == p_decls(qadv(s)),
        s2.rem.len() < s.rem.len(),
    ensures
        decls_rest(acc, s) == decls_rest(acc + more, s2),
{
}

pub proof fn lemma_decls_loop_decl(acc: Seq<DTree>, s: QState, d: DTree, s2: QState)
    requires
        qnext(s, DELIMIT),
        qnext(qadv(s), LET) || qnext(qadv(s), FUN),
        (d, s2) == p_decl(qadv(s)),
        s2.rem.len() < s.rem.len(),
    ensures
        decls_rest(acc, s) == decls_rest(acc.push(d), s2),
{
}

pub proof fn lemma_decls_loop_end(acc: Seq<DTree>, s: QState)
    requires
        qnext(s, DELIMIT),
        !qnext(qadv(s), GROUP_OPEN),
        !qnext(qadv(s), LET),
        !qnext(qadv(s), FUN),
    ensures
        decls_rest(acc, s) == (acc, qadv(s)),
{
}

/// `decl = let-decl / fun-decl`
pub open spec fn p_decl(s: QState) -> (DTree, QState)
    decreases s.rem.len(), 30nat,
{
    if s.rem.len() == 0 {
        (DTree { node: DTreeNode::ValueDecl { pat: einvalid(qlast(s)), bind: None }, span: qlast(s) }, s)
    } else if qnext(s, LET) {
        p_let_decl(qadv(s), s.rem[0].1)
    } else {
        p_fun_decl(qadv(s), s.rem[0].1)
    }
}

/// `let-decl = "let" small-expr ["=" expr]`
pub open spec fn p_let_decl(s: QState, let_span: Span) -> (DTree, QState)
    decreases s.rem.len(), 29nat,
{
    let (pat, s1) = p_small(s);
    if s1.rem.len() <= s.rem.len() && qnext(s1, EQUAL) {
        let (b, s2) = p_expr(qadv(s1));
        (
            DTree {
                node: DTreeNode::ValueDecl { pat, bind: Some(b) },
                span: let_span.spec_join(b.span),
            },
            s2,
        )
    } else {
        (
            DTree { node: DTreeNode::ValueDecl { pat, bind: None }, span: let_span.spec_join(pat.span) },
            s1,
        )
    }
}

/// Base expressions for as long as one starts.
pub open spec fn p_args(s: QState) -> (Seq<ETree>, QState)
    decreases s.rem.len(), 28nat,
{
    if s.rem.len() > 0 && starts_base_expr(kind(s.rem[0].0)) {
        let (a, s1) = p_base(s);
        if s1.rem.len() < s.rem.len() {
            let (rest, s2) = p_args(s1);
            (seq![a] + rest, s2)
        } else {
            (seq![a], s1)
        }
    } else {
        (Seq::empty(), s)
    }
}

/// The implicit arguments `"|" small-expr "|"` of a function, if a `|`
/// opens them.
pub open spec fn p_implicits(s: QState) -> (Option<ETree>, QState)
    decreases s.rem.len(), 27nat,
{
    if qnext(s, PIPE) {
        let opener = s.rem[0].1;
        let (a, s3) = p_small(qimplicit(qadv(s), true));
        let s4 = qimplicit(s3, false);
        let s5 = if qnext(s4, PIPE) {
            qadv(s4)
        } else {
            qreport(s4, MessageKind::UnclosedImplicits, opener)
        };
        (Some(a), s5)
    } else {
        (None, s)
    }
}

/// `fun-decl = "fun" base-expr ["|" small-expr "|"] *(base-expr) [":" small-expr] ["=" expr]`
pub open spec fn p_fun_decl(s: QState, fun_span: Span) -> (DTree, QState)
    decreases s.rem.len(), 29nat,
{
    let (name, s1) = p_base(s);
    let (implicits, s5) = if s1.rem.len() <= s.rem.len() {
        p_implicits(s1)
    } else {
        (None, s1)
    };
    let (args, s6) = if s5.rem.len() <= s.rem.len() {
        p_args(s5)
    } else {
        (Seq::empty(), s5)
    };
    let (anno, s7) = if s6.rem.len() <= s.rem.len() && qnext(s6, COLON) {
        let (a, s7) = p_small(qadv(s6));
        (Some(a), s7)
    } else {
        (None, s6)
    };
    let (bind, s8) = if s7.rem.len() <= s.rem.len() && qnext(s7, EQUAL) {
        let (b, s8) = p_expr(qadv(s7));
        (Some(b), s8)
    } else {
        (None, s7)
    };
    let end = match bind {
        Some(b) => b.span,
        None => match anno {
            Some(a) => a.span,
            None => if args.len() > 0 {
                tspans(args)
            } else {
                name.span
            },
        },
    };
    (
        DTree {
            node: DTreeNode::FunDecl { name, implicits, args, anno, bind },
            span: fun_span.spec_join(end),
        },
        s8,
    )
}

/// The span of the first of the tokens skipped up to the next one that may
/// start a declaration, unless `first` already holds one, and the state
/// after them.
pub open spec fn skip_to_decl(s: QState, first: Option<Span>) -> (Option<Span>, QState)
    decreases s.rem.len(),
{
    if s.rem.len() > 0 && !starts_decl(kind(s.rem[0].0)) {
        skip_to_decl(
            qadv(s),
            match first {
                Some(f) => Some(f),
                None => Some(s.rem[0].1),
            },
        )
    } else {
        (first, s)
    }
}

/// `prog = decls`, and nothing else: what follows the declarations up to the
/// next token that may start one is skipped and reported at its first token.
pub open spec fn p_program(s: QState) -> (Seq<DTree>, QState)
    decreases s.rem.len(),
{
    if s.rem.len() == 0 {
        (Seq::empty(), s)
    } else {
        let (ds, s1) = p_decls(s);
        let (first, s2) = skip_to_decl(s1, None);
        let s3 = match first {
            Some(span) => qreport(s2, MessageKind::ExpectedDeclaration, span),
            None => s2,
        };
        if s3.rem.len() < s.rem.len() {
            let (more, s4) = p_program(s3);
            (ds + more, s4)
        } else {
            (ds, s3)
        }
    }
}

/// Whether `ts` is a chain of names separated by arrows: `a -> b -> ... -> z`.
pub open spec fn arrow_chain(ts: Seq<(Token, Span)>) -> bool {
    &&& ts.len() % 2 == 1
    &&& forall|i: int|
        0 <= i < ts.len() ==> (i % 2 == 0 ==> (#[trigger] ts[i]).0 is Name) && (i % 2 == 1
            ==> ts[i].0 is MinArrow)
}

/// The name the token holds, if it is a name.
pub open spec fn token_name(t: Token) -> Seq<char> {
    match t {
        Token::Name(n) => n@,
        _ => Seq::empty(),
    }
}

/// The arrows of a chain of names, nested to the right: `a -> (b -> c)`.
pub open spec fn right_nested(ts: Seq<(Token, Span)>) -> ETree
    decreases ts.len(),
{
    let first = ETree { node: ETreeNode::Name(token_name(ts[0].0)), span: ts[0].1 };
    if ts.len() <= 2 {
        first
    } else {
        let rest = right_nested(ts.subrange(2, ts.len() as int));
        ETree {
            node: ETreeNode::Fun(ts[1].1, Box::new(first), Box::new(rest)),
            span: first.span.spec_join(rest.span),
        }
    }
}

/// The state after reading all of `s`'s tokens without a message.
pub open spec fn q_read_all(s: QState) -> QState {
    QState { rem: Seq::empty(), prev: Some(s.rem.last().1), ..s }
}

proof fn lemma_chain_tail(ts: Seq<(Token, Span)>)
    requires
        arrow_chain(ts),
        ts.len() > 1,
    ensures
        arrow_chain(ts.subrange(2, ts.len() as int)),
        ts.subrange(2, ts.len() as int).last() == ts.last(),
{
    let r = ts.subrange(2, ts.len() as int);
    assert forall|i: int| 0 <= i < r.len() implies (i % 2 == 0 ==> (#[trigger] r[i]).0 is Name)
        && (i % 2 == 1 ==> r[i].0 is MinArrow) by {
        assert(r[i] == ts[i + 2]);
        assert((i + 2) % 2 == i % 2);
    }
}

/// A name on its own, as the arrow level reads it.
proof fn lemma_name_at_arrow_level(s: QState)
    requires
        arrow_chain(s.rem),
    ensures
        ({
            let first = ETree { node: ETreeNode::Name(token_name(s.rem[0].0)), span: s.rem[0].1 };
            &&& p_base(s) == (first, qadv(s))
            &&& p_app(s) == (first, qadv(s))
            &&& p_mul(s) == (first, qadv(s))
            &&& p_range(s) == (first, qadv(s))
        }),
{
    assert(s.rem[0].0 is Name);
    let s1 = qadv(s);
    if s1.rem.len() > 0 {
        assert(s1.rem[0] == s.rem[1]);
        assert(s.rem[1].0 is MinArrow);
    }
}

/// The arrow level reads a chain of names separated by arrows whole, nested
/// to the right.
#[verifier::spinoff_prover]
#[verifier::rlimit(50)]
proof fn lemma_arrow_chain(s: QState)
    requires
        arrow_chain(s.rem),
    ensures
        p_arrow(s) == (right_nested(s.rem), q_read_all(s)),
    decreases s.rem.len(),
{
    lemma_name_at_arrow_level(s);
    let s1 = qadv(s);
    if s.rem.len() == 1 {
        assert(s1.rem =~= Seq::<(Token, Span)>::empty());
        assert(s.rem.last() == s.rem[0]);
        assert(s1 == q_read_all(s));
    } else {
        assert(s1.rem[0] == s.rem[1]);
        assert(s.rem[1].0 is MinArrow);
        let s2 = qadv(s1);
        assert(s2.rem =~= s.rem.subrange(2, s.rem.len() as int));
        lemma_chain_tail(s.rem);
        lemma_arrow_chain(s2);
        assert(q_read_all(s2) == q_read_all(s));
        let first = ETree { node: ETreeNode::Name(token_name(s.rem[0].0)), span: s.rem[0].1 };
        let rest = right_nested(s2.rem);
        assert(p_range(s) == (first, s1));
        assert(qnext(s1, MIN_ARROW));
        assert(s1.rem[0].1 == s.rem[1].1);
        assert(p_arrow(s2) == (rest, q_read_all(s)));
        assert(right_nested(s.rem) == ejoin(ETreeNode::Fun(s.rem[1].1, Box::new(first), Box::new(rest)), first, rest));
    }
}

/// An expression that is a chain of names separated by arrows is read whole,
/// with no token left and no message, and its arrows nest to the right:
/// `a -> b -> c` is `a -> (b -> c)`.
pub proof fn law_arrows_nest_right(s: QState)
    requires
        arrow_chain(s.rem),
    ensures
        p_expr(s) == (right_nested(s.rem), q_read_all(s)),
{
    lemma_arrow_chain(s);
    let end = q_read_all(s);
    assert(!qnext(end, COLON));
    assert(p_anno(s) == (right_nested(s.rem), end));
    assert(p_tuple_loop(right_nested(s.rem), end) == (right_nested(s.rem), end));
    assert(p_tuple(s) == (right_nested(s.rem), end));
    assert(p_small(s) == (right_nested(s.rem), end));
    assert(p_lam(s) == (right_nested(s.rem), end));
}

/// The tree of a name token.
pub open spec fn name_etree(t: (Token, Span)) -> ETree {
    ETree { node: ETreeNode::Name(token_name(t.0)), span: t.1 }
}

/// A name followed by a comma or by nothing is read as that name at every
/// level up to annotations.
proof fn lemma_lone_name(s: QState)
    requires
        s.rem.len() >= 1,
        s.rem[0].0 is Name,
        s.rem.len() >= 2 ==> s.rem[1].0 is Comma,
    ensures
        p_base(s) == (name_etree(s.rem[0]), qadv(s)),
        p_app(s) == (name_etree(s.rem[0]), qadv(s)),
        p_mul(s) == (name_etree(s.rem[0]), qadv(s)),
        p_range(s) == (name_etree(s.rem[0]), qadv(s)),
        p_arrow(s) == (name_etree(s.rem[0]), qadv(s)),
        p_anno(s) == (name_etree(s.rem[0]), qadv(s)),
{
    let s1 = qadv(s);
    if s1.rem.len() > 0 {
        assert(s1.rem[0] == s.rem[1]);
    }
    assert(p_base(s) == (name_etree(s.rem[0]), s1));
    assert(p_app(s) == (name_etree(s.rem[0]), s1));
    assert(p_mul(s) == (name_etree(s.rem[0]), s1));
    assert(p_range(s) == (name_etree(s.rem[0]), s1));
    assert(p_arrow(s) == (name_etree(s.rem[0]), s1));
}

/// Whether `ts` is a list of names separated by commas: `a, b, ..., z`.
pub open spec fn comma_list(ts: Seq<(Token, Span)>) -> bool {
    &&& ts.len() % 2 == 1
    &&& forall|i: int|
        0 <= i < ts.len() ==> (i % 2 == 0 ==> (#[trigger] ts[i]).0 is Name) && (i % 2 == 1
            ==> ts[i].0 is Comma)
}

/// The tuples of a list of names, nested to the left: `(a, b), c`.
pub open spec fn left_tuples(ts: Seq<(Token, Span)>) -> ETree
    decreases ts.len(),
{
    if ts.len() <= 2 {
        name_etree(ts[0])
    } else {
        let init = left_tuples(ts.subrange(0, ts.len() - 2));
        let last = name_etree(ts.last());
        ETree {
            node: ETreeNode::Tuple(Box::new(init), Box::new(last)),
            span: init.span.spec_join(last.span),
        }
    }
}

#[verifier::spinoff_prover]
#[verifier::rlimit(50)]
proof fn lemma_tuple_rest(ts: Seq<(Token, Span)>, j: int, e: ETree, s: QState)
    requires
        comma_list(ts),
        0 <= j,
        2 * j + 1 <= ts.len(),
        s.rem == ts.subrange(2 * j + 1, ts.len() as int),
        s.prev == Some(ts[2 * j].1),
        e == left_tuples(ts.subrange(0, 2 * j + 1)),
    ensures
        p_tuple_loop(e, s) == (left_tuples(ts), QState { rem: Seq::empty(), prev: Some(ts.last().1), ..s }),
    decreases ts.len() - 2 * j,
{
    if 2 * j + 1 == ts.len() {
        assert(ts.subrange(0, 2 * j + 1) =~= ts);
        assert(s.rem =~= Seq::<(Token, Span)>::empty());
        assert(ts.last() == ts[2 * j]);
        assert(s == QState { rem: Seq::empty(), prev: Some(ts.last().1), ..s });
    } else {
        let k = 2 * j + 1;
        assert(s.rem[0] == ts[k]);
        assert(ts[k].0 is Comma);
        let s1 = qadv(s);
        assert(s1.rem[0] == ts[k + 1]);
        assert(ts[k + 1].0 is Name);
        if s1.rem.len() >= 2 {
            assert(s1.rem[1] == ts[k + 2]);
            assert(ts[k + 2].0 is Comma);
        }
        lemma_lone_name(s1);
        let s2 = qadv(s1);
        let other = name_etree(ts[k + 1]);
        let t = ejoin(ETreeNode::Tuple(Box::new(e), Box::new(other)), e, other);
        let pre = ts.subrange(0, k + 2);
        assert(pre.subrange(0, pre.len() - 2) =~= ts.subrange(0, 2 * j + 1));
        assert(pre.last() == ts[k + 1]);
        assert(left_tuples(pre) == t);
        assert(s2.rem =~= ts.subrange(2 * (j + 1) + 1, ts.len() as int));
        lemma_tuple_rest(ts, j + 1, t, s2);
        assert(QState { rem: Seq::empty(), prev: Some(ts.last().1), ..s2 } == QState { rem: Seq::empty(), prev: Some(ts.last().1), ..s });
    }
}

/// A list of names separated by commas is read whole, with no token left
/// and no message, as tuples nested to the left: `a, b, c` is `(a, b), c`.
pub proof fn law_tuples_nest_left(s: QState)
    requires
        comma_list(s.rem),
    ensures
        p_small(s) == (left_tuples(s.rem), q_read_all(s)),
{
    let ts = s.rem;
    if ts.len() >= 2 {
        assert(ts[1].0 is Comma);
    }
    lemma_lone_name(s);
    let s1 = qadv(s);
    assert(left_tuples(ts.subrange(0, 1)) == name_etree(ts[0]));
    assert(s1.rem =~= ts.subrange(1, ts.len() as int));
    lemma_tuple_rest(ts, 0, name_etree(ts[0]), s1);
    assert(p_tuple(s) == (left_tuples(ts), q_read_all(s)));
}

/// Whether `ts` is an application of names to names: `f a b ... z`.
pub open spec fn name_run(ts: Seq<(Token, Span)>) -> bool {
    &&& ts.len() >= 1
    &&& forall|i: int| 0 <= i < ts.len() ==> (#[trigger] ts[i]).0 is Name
}

/// The applications of a run of names, nested to the left: `(f a) b`.
pub open spec fn left_apps(ts: Seq<(Token, Span)>) -> ETree
    decreases ts.len(),
{
    if ts.len() <= 1 {
        name_etree(ts[0])
    } else {
        let init = left_apps(ts.subrange(0, ts.len() - 1));
        let last = name_etree(ts.last());
        ETree {
            node: ETreeNode::App(Box::new(init), Box::new(last)),
            span: init.span.spec_join(last.span),
        }
    }
}

#[verifier::spinoff_prover]
#[verifier::rlimit(50)]
proof fn lemma_app_rest(ts: Seq<(Token, Span)>, tail: Seq<(Token, Span)>, j: int, e: ETree, s: QState)
    requires
        name_run(ts),
        tail.len() == 0 || tail[0].0 is EqArrow,
        1 <= j <= ts.len(),
        s.rem == ts.subrange(j, ts.len() as int) + tail,
        s.prev == Some(ts[j - 1].1),
        e == left_apps(ts.subrange(0, j)),
    ensures
        p_app_loop(e, s) == (left_apps(ts), QState { rem: tail, prev: Some(ts.last().1), ..s }),
    decreases ts.len() - j,
{
    if j == ts.len() {
        assert(ts.subrange(0, j) =~= ts);
        assert(s.rem =~= tail);
        assert(ts.last() == ts[j - 1]);
        if tail.len() > 0 {
            assert(s.rem[0] == tail[0]);
        }
        assert(!q_is_arg(s));
        assert(s == QState { rem: tail, prev: Some(ts.last().1), ..s });
    } else {
        assert(s.rem[0] == ts[j]);
        assert(ts[j].0 is Name);
        assert(q_is_arg(s));
        assert(!qnext(s, PIPE));
        let s1 = qadv(s);
        assert(p_base(s) == (name_etree(ts[j]), s1));
        let arg = name_etree(ts[j]);
        let t = ejoin(ETreeNode::App(Box::new(e), Box::new(arg)), e, arg);
        let pre = ts.subrange(0, j + 1);
        assert(pre.subrange(0, pre.len() - 1) =~= ts.subrange(0, j));
        assert(pre.last() == ts[j]);
        assert(left_apps(pre) == t);
        assert(s1.rem =~= ts.subrange(j + 1, ts.len() as int) + tail);
        lemma_app_rest(ts, tail, j + 1, t, s1);
        assert(QState { rem: tail, prev: Some(ts.last().1), ..s1 } == QState { rem: tail, prev: Some(ts.last().1), ..s });
    }
}

/// The application level reads a run of names up to a `=>` or the end.
proof fn lemma_app_run(ts: Seq<(Token, Span)>, tail: Seq<(Token, Span)>, s: QState)
    requires
        name_run(ts),
        tail.len() == 0 || tail[0].0 is EqArrow,
        s.rem == ts + tail,
    ensures
        p_app(s) == (left_apps(ts), QState { rem: tail, prev: Some(ts.last().1), ..s }),
{
    assert(s.rem[0] == ts[0]);
    assert(ts[0].0 is Name);
    let s1 = qadv(s);
    assert(p_base(s) == (name_etree(ts[0]), s1));
    assert(left_apps(ts.subrange(0, 1)) == name_etree(ts[0]));
    assert(s1.rem =~= ts.subrange(1, ts.len() as int) + tail);
    lemma_app_rest(ts, tail, 1, name_etree(ts[0]), s1);
    assert(QState { rem: tail, prev: Some(ts.last().1), ..s1 } == QState { rem: tail, prev: Some(ts.last().1), ..s });
}

/// A run of names is read whole, with no token left and no message, as
/// applications nested to the left: `f a b` is `(f a) b`.
pub proof fn law_applications_nest_left(s: QState)
    requires
        name_run(s.rem),
    ensures
        p_app(s) == (left_apps(s.rem), q_read_all(s)),
{
    assert(s.rem + Seq::<(Token, Span)>::empty() =~= s.rem);
    lemma_app_run(s.rem, Seq::empty(), s);
}

/// A run of names, `=>` and a chain of names separated by arrows is a
/// lambda whose parameter is the last name of the run, applied to what comes
/// before it: `f x => y` is `f (x => y)`, while `x => y` is a lambda.
#[verifier::spinoff_prover]
#[verifier::rlimit(60)]
pub proof fn law_lambda_takes_last_argument(
    ts: Seq<(Token, Span)>,
    arrow: (Token, Span),
    body: Seq<(Token, Span)>,
    s: QState,
)
    requires
        name_run(ts),
        arrow.0 is EqArrow,
        arrow_chain(body),
        s.rem == ts + seq![arrow] + body,
    ensures
        ({
            let b = right_nested(body);
            let x = name_etree(ts.last());
            let lam = ejoin(ETreeNode::Lam(Box::new(x), Box::new(b)), x, b);
            let tree = if ts.len() == 1 {
                lam
            } else {
                let f = left_apps(ts.subrange(0, ts.len() - 1));
                ETree {
                    node: ETreeNode::App(Box::new(f), Box::new(lam)),
                    span: left_apps(ts).span.spec_join(b.span),
                }
            };
            p_expr(s) == (tree, QState { rem: Seq::empty(), prev: Some(body.last().1), ..s })
        }),
{
    let tail = seq![arrow] + body;
    assert(s.rem =~= ts + tail);
    lemma_app_run(ts, tail, s);
    let e = left_apps(ts);
    let s1 = QState { rem: tail, prev: Some(ts.last().1), ..s };
    assert(s1.rem[0] == arrow);
    assert(p_mul_loop(e, s1) == (e, s1));
    assert(p_mul(s) == (e, s1));
    assert(p_range(s) == (e, s1));
    assert(p_arrow(s) == (e, s1));
    assert(p_anno(s) == (e, s1));
    assert(p_tuple_loop(e, s1) == (e, s1));
    assert(p_tuple(s) == (e, s1));
    assert(p_small(s) == (e, s1));
    assert(qnext(s1, EQ_ARROW));
    let s2 = qadv(s1);
    assert(s2.rem =~= body);
    law_arrows_nest_right(s2);
    assert(q_read_all(s2) == QState { rem: Seq::empty(), prev: Some(body.last().1), ..s });
    if ts.len() > 1 {
        assert(e.node == ETreeNode::App(
            Box::new(left_apps(ts.subrange(0, ts.len() - 1))),
            Box::new(name_etree(ts.last())),
        ));
    }
}

} // verus!
