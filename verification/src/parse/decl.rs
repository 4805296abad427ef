//! Declarations: `let` and `fun`, delimited by `;` and grouped in
//! parentheses.

use vstd::prelude::*;

use super::tree::{Decl, DeclNode, Expr, ExprNode};
use super::unconcretify::{
    args_ids, decl_ids, decl_supported, decls_ids, decls_messages, decls_of, ids, opt_ids,
    spans_sum, supported, Unconcretifier,
};
use super::{
    kind, starts_decl, Parser, Token, COLON, DELIMIT, EQUAL, FUN, GROUP_CLOSE, GROUP_OPEN, LET,
    PIPE,
};
use super::grammar::{
    dtree, dtrees, etree, etrees, lemma_dtrees_concat, lemma_dtrees_push, lemma_etrees_push,
    opt_etree, p_args, p_decl, p_decls, p_decls_loop, p_fun_decl, p_let_decl, p_program, qadv,
    qnext, qstart, skip_to_decl, tspans, lemma_decls_loop_stop, lemma_decls_loop_group,
    lemma_decls_loop_decl, lemma_decls_loop_end, decls_rest, decls_all, lemma_decls_all,
    lemma_decls_start,
};
use crate::hir;
use crate::messages::{Message, MessageKind};
use crate::source::Span;

verus! {

impl Parser {
    /// ```abnf
    /// prog = decls
    /// ; and nothing else
    /// ```
    ///
    /// Every token is consumed: where declarations stop, what follows up to
    /// the next token that may start one is skipped and reported at its
    /// first token.
    pub fn parse_program(&mut self) -> (decls: Vec<Decl>)
        requires
            !old(self).implicit(),
        ensures
            (dtrees(decls@), final(self).qstate()) == p_program(old(self).qstate()),
            Parser::stepped(*old(self), *final(self)),
            final(self).remaining().len() == 0,
            !final(self).implicit(),
    {
        let mut decls = Vec::new();
        proof {
            Parser::lemma_stepped_refl(*self);
        }
        proof {
            assert(dtrees(decls@) + p_program(self.qstate()).0 =~= p_program(self.qstate()).0);
        }
        while !self.is_done()
            invariant
                Parser::stepped(*old(self), *self),
                !self.implicit(),
                dtrees(decls@) + p_program(self.qstate()).0 == p_program(old(self).qstate()).0,
                p_program(self.qstate()).1 == p_program(old(self).qstate()).1,
            decreases self.remaining().len(),
        {
            let ghost start = *self;
            let ghost decls0 = decls@;
            let mut more = self.parse_decls();
            let ghost more0 = more@;
            decls.append(&mut more);
            let ghost middle = *self;
            proof {
                lemma_dtrees_concat(decls0, more0);
            }
            proof {
                Parser::lemma_stepped_refl(middle);
            }
            let mut opener_span: Option<Span> = None;
            while !self.is_done() && !self.peek_decl_start()
                invariant
                    Parser::stepped(middle, *self),
                    !self.implicit(),
                    self.remaining().len() < middle.remaining().len() || *self == middle,
                    opener_span is Some || *self == middle,
                    skip_to_decl(self.qstate(), opener_span) == skip_to_decl(middle.qstate(), None),
                decreases self.remaining().len(),
            {
                let ghost before = *self;
                let token = self.advance();
                if opener_span.is_none() {
                    opener_span = match token {
                        Some((_, span)) => Some(span),
                        None => None,
                    };
                }
                proof {
                    Parser::lemma_stepped_trans(middle, before, *self);
                }
            }
            let ghost skipped = *self;
            if let Some(span) = opener_span {
                self.report(MessageKind::ExpectedDeclaration, span);
                proof {
                    Parser::lemma_stepped_trans(middle, skipped, *self);
                }
            }
            proof {
                Parser::lemma_stepped_trans(start, middle, *self);
                Parser::lemma_stepped_trans(*old(self), start, *self);
                let (more_t, fin) = p_program(self.qstate());
                assert(self.qstate().rem.len() < start.qstate().rem.len());
                assert(p_program(start.qstate()) == (dtrees(more0) + more_t, fin));
                assert(dtrees(decls@) + more_t =~= dtrees(decls0) + (dtrees(more0) + more_t));
            }
        }
        proof {
            assert(dtrees(decls@) + p_program(self.qstate()).0 =~= dtrees(decls@));
        }
        decls
    }

    /// ```abnf
    /// decls  = [decl *(";" decl) [";"]]
    /// decls =/ "(" decls ")"
    /// ```
    ///
    /// A group may also follow a `;`: its declarations are taken in order
    /// with the others.
    #[verifier::spinoff_prover]
    #[verifier::rlimit(100)]
    pub fn parse_decls(&mut self) -> (decls: Vec<Decl>)
        requires
            !old(self).implicit(),
        ensures
            (dtrees(decls@), final(self).qstate()) == p_decls(old(self).qstate()),
            Parser::stepped(*old(self), *final(self)),
            !final(self).implicit(),
            old(self).remaining().len() > 0 && starts_decl(kind(old(self).remaining()[0].0))
                ==> final(self).remaining().len() < old(self).remaining().len(),
            !(old(self).remaining().len() > 0 && starts_decl(kind(old(self).remaining()[0].0)))
                ==> *final(self) == *old(self) && decls@.len() == 0,
        decreases old(self).remaining().len(), 16nat,
    {
        if let Some(span) = self.matches(GROUP_OPEN) {
            let ghost after_open = *self;
            let decls = self.parse_decls();
            let ghost middle = *self;
            if !self.consume(GROUP_CLOSE) {
                self.report(MessageKind::UnclosedGroup, span);
            }
            proof {
                Parser::lemma_stepped_trans(after_open, middle, *self);
                Parser::lemma_stepped_trans(*old(self), after_open, *self);
            }
            decls
        } else if self.peek_decl_start() {
            let mut decls = Vec::new();
            let ghost s0 = self.qstate();
            let first = self.decl();
            proof {
                lemma_dtrees_push(decls@, first);
                assert(dtrees(decls@.push(first)) =~= seq![dtree(first)]);
                lemma_decls_start(s0, dtree(first), self.qstate());
            }
            decls.push(first);
            loop
                invariant_except_break
                    decls_rest(dtrees(decls@), self.qstate()) == decls_all(old(self).qstate()),
                invariant
                    Parser::stepped(*old(self), *self),
                    self.remaining().len() < old(self).remaining().len(),
                    !self.implicit(),
                ensures
                    Parser::stepped(*old(self), *self),
                    self.remaining().len() < old(self).remaining().len(),
                    !self.implicit(),
                    (dtrees(decls@), self.qstate()) == decls_all(old(self).qstate()),
                decreases self.remaining().len(),
            {
                let ghost before = *self;
                let ghost decls0 = decls@;
                if !self.consume(DELIMIT) {
                    proof {
                        lemma_decls_loop_stop(dtrees(decls@), self.qstate());
                    }
                    break;
                }
                let ghost after_delimit = *self;
                if self.peek(GROUP_OPEN) {
                    let mut more = self.parse_decls();
                    let ghost more0 = more@;
                    decls.append(&mut more);
                    proof {
                        lemma_dtrees_concat(decls0, more0);
                        lemma_decls_loop_group(dtrees(decls0), before.qstate(), dtrees(more0), self.qstate());
                    }
                } else if self.peek(LET) || self.peek(FUN) {
                    let d = self.decl();
                    proof {
                        lemma_dtrees_push(decls0, d);
                        lemma_decls_loop_decl(dtrees(decls0), before.qstate(), dtree(d), self.qstate());
                    }
                    decls.push(d);
                } else {
                    proof {
                        Parser::lemma_stepped_trans(*old(self), before, *self);
                        lemma_decls_loop_end(dtrees(decls0), before.qstate());
                    }
                    break;
                }
                proof {
                    Parser::lemma_stepped_trans(before, after_delimit, *self);
                    Parser::lemma_stepped_trans(*old(self), before, *self);
                }
            }
            proof {
                lemma_decls_all(old(self).qstate());
            }
            decls
        } else {
            proof {
                Parser::lemma_stepped_refl(*self);
            }
            Vec::new()
        }
    }

    /// ```abnf
    /// decl = let-decl / fun-decl
    /// ```
    fn decl(&mut self) -> (decl: Decl)
        requires
            old(self).next_is(LET) || old(self).next_is(FUN),
            !old(self).implicit(),
        ensures
            (dtree(decl), final(self).qstate()) == p_decl(old(self).qstate()),
            Parser::progressed(*old(self), *final(self)),
            old(self).next_is(LET) ==> decl.node is ValueDecl,
            old(self).next_is(FUN) ==> decl.node is FunDecl,
        decreases old(self).remaining().len(), 15nat,
    {
        let ghost start = *self;
        if let Some(span) = self.matches(LET) {
            let ghost after = *self;
            let decl = self.let_decl(span);
            proof {
                Parser::lemma_stepped_trans(start, after, *self);
            }
            decl
        } else {
            let opener = self.matches(FUN);
            let span = match opener {
                Some(span) => span,
                None => {
                    proof {
                        assert(false);
                    }
                    self.last_span()
                },
            };
            let ghost after = *self;
            let decl = self.fun_decl(span);
            proof {
                Parser::lemma_stepped_trans(start, after, *self);
            }
            decl
        }
    }

    /// ```abnf
    /// let-decl = "let" small-expr ["=" expr]
    /// ```
    fn let_decl(&mut self, let_span: Span) -> (decl: Decl)
        ensures
            (dtree(decl), final(self).qstate()) == p_let_decl(old(self).qstate(), let_span),
            Parser::progressed(*old(self), *final(self)),
            decl.node matches DeclNode::ValueDecl { pat, bind } && decl.span == let_span.spec_join(
                match bind {
                    Some(b) => b.span,
                    None => pat.span,
                },
            ),
        decreases old(self).remaining().len(), 14nat,
    {
        let pat = self.parse_small_expr();
        let ghost middle = *self;
        let bind = if self.consume(EQUAL) {
            let ghost after_equal = *self;
            let bind = self.parse_expr();
            proof {
                Parser::lemma_stepped_trans(middle, after_equal, *self);
            }
            Some(bind)
        } else {
            None
        };
        proof {
            Parser::lemma_stepped_trans(*old(self), middle, *self);
        }
        let span = match &bind {
            Some(bind) => bind.span,
            None => pat.span,
        };
        Decl { node: DeclNode::ValueDecl { pat, bind }, span: let_span.join(span) }
    }

    /// ```abnf
    /// fun-decl = "fun" base-expr ["|" small-expr "|"] *(base-expr) [":" small-expr] ["=" expr]
    /// ```
    #[verifier::spinoff_prover]
    #[verifier::rlimit(100)]
    fn fun_decl(&mut self, fun_span: Span) -> (decl: Decl)
        requires
            !old(self).implicit(),
        ensures
            (dtree(decl), final(self).qstate()) == p_fun_decl(old(self).qstate(), fun_span),
            Parser::progressed(*old(self), *final(self)),
            decl.node matches DeclNode::FunDecl { name, args, anno, bind, .. } && decl.span
                == fun_span.spec_join(
                match bind {
                    Some(b) => b.span,
                    None => match anno {
                        Some(a) => a.span,
                        None => if args@.len() > 0 {
                            spans_sum(args@)
                        } else {
                            name.span
                        },
                    },
                },
            ),
        decreases old(self).remaining().len(), 14nat,
    {
        let name = self.parse_base_expr();
        let ghost after_name = *self;
        let implicits = if let Some(opener) = self.matches(PIPE) {
            let ghost after_pipe = *self;
            self.set_implicit(true);
            let ghost entered = *self;
            let args = self.parse_small_expr();
            let ghost parsed = *self;
            self.set_implicit(false);
            let ghost left = *self;
            if !self.consume(PIPE) {
                self.report(MessageKind::UnclosedImplicits, opener);
            }
            proof {
                Parser::lemma_stepped_trans(after_name, after_pipe, entered);
                Parser::lemma_stepped_trans(after_name, entered, parsed);
                Parser::lemma_stepped_trans(after_name, parsed, left);
                Parser::lemma_stepped_trans(after_name, left, *self);
            }
            Some(args)
        } else {
            None
        };
        proof {
            Parser::lemma_stepped_trans(*old(self), after_name, *self);
        }
        let mut args: Vec<Expr> = Vec::new();
        let ghost s5 = self.qstate();
        proof {
            assert(etrees(args@) + p_args(self.qstate()).0 =~= p_args(self.qstate()).0);
        }
        while !self.is_done() && self.peek_base_start()
            invariant
                Parser::progressed(*old(self), *self),
                !self.implicit(),
                etrees(args@) + p_args(self.qstate()).0 == p_args(s5).0,
                p_args(self.qstate()).1 == p_args(s5).1,
            decreases self.remaining().len(),
        {
            let ghost before = *self;
            let ghost args0 = args@;
            let arg = self.parse_base_expr();
            proof {
                lemma_etrees_push(args0, arg);
                let (rest, fin) = p_args(self.qstate());
                assert(p_args(before.qstate()) == (seq![etree(arg)] + rest, fin));
                assert(etrees(args0.push(arg)) + rest =~= etrees(args0) + (seq![etree(arg)] + rest));
            }
            args.push(arg);
            proof {
                Parser::lemma_stepped_trans(*old(self), before, *self);
            }
        }
        proof {
            assert(etrees(args@) + p_args(self.qstate()).0 =~= etrees(args@));
        }
        let ghost before_anno = *self;
        let anno = if self.consume(COLON) {
            let ghost after_colon = *self;
            let anno = self.parse_small_expr();
            proof {
                Parser::lemma_stepped_trans(before_anno, after_colon, *self);
            }
            Some(anno)
        } else {
            None
        };
        let ghost before_bind = *self;
        let bind = if self.consume(EQUAL) {
            let ghost after_equal = *self;
            let bind = self.parse_expr();
            proof {
                Parser::lemma_stepped_trans(before_bind, after_equal, *self);
            }
            Some(bind)
        } else {
            None
        };
        proof {
            Parser::lemma_stepped_trans(before_anno, before_bind, *self);
            Parser::lemma_stepped_trans(*old(self), before_anno, *self);
        }
        let span = match &bind {
            Some(bind) => bind.span,
            None => match &anno {
                Some(anno) => anno.span,
                None => if args.len() > 0 {
                    let mut span = args[0].span;
                    let mut i: usize = 1;
                    proof {
                        assert(args@.take(1).drop_last().len() == 0);
                    }
                    while i < args.len()
                        invariant
                            1 <= i <= args@.len(),
                            span == spans_sum(args@.take(i as int)),
                        decreases args@.len() - i,
                    {
                        proof {
                            assert(args@.take(i + 1).drop_last() =~= args@.take(i as int));
                        }
                        span = span.join(args[i].span);
                        i = i + 1;
                    }
                    proof {
                        assert(args@.take(i as int) =~= args@);
                        lemma_tspans(args@);
                    }
                    span
                } else {
                    name.span
                },
            },
        };
        Decl {
            node: DeclNode::FunDecl { name, implicits, args, anno, bind },
            span: fun_span.join(span),
        }
    }
}

/// The span covering expressions is that covering their trees.
proof fn lemma_tspans(es: Seq<Expr>)
    requires
        es.len() > 0,
    ensures
        spans_sum(es) == tspans(etrees(es)),
    decreases es.len(),
{
    if es.len() > 1 {
        lemma_tspans(es.drop_last());
        assert(etrees(es).drop_last() =~= etrees(es.drop_last()));
    }
}

/// Whether reading `e` as an expression (`mode` 0), a pattern (1), a type
/// (2) or a list of types (3) meets no unsupported pattern.
pub fn check_supported(e: &Expr, mode: u8) -> (r: bool)
    requires
        mode <= 3,
    ensures
        r == supported(*e, mode as nat),
    decreases *e, mode,
{
    if mode == 3 {
        match &e.node {
            ExprNode::Tuple(a, b) => check_supported(a, 3) && check_supported(b, 3),
            _ => check_supported(e, 2),
        }
    } else {
        match &e.node {
            ExprNode::Group(x) => check_supported(x, mode),
            ExprNode::BinOp(_, _, x, y) => mode != 1 && check_supported(x, mode) && check_supported(
                y,
                mode,
            ),
            ExprNode::Range(_, x, y) => mode == 1 || (check_supported(x, 0) && check_supported(y, 0)),
            ExprNode::Fun(_, x, y) => mode == 1 || (check_supported(x, mode) && check_supported(
                y,
                mode,
            )),
            ExprNode::Tuple(x, y) => mode == 2 || (check_supported(x, mode) && check_supported(
                y,
                mode,
            )),
            ExprNode::Lam(p, b) => mode != 0 || (check_supported(p, 1) && check_supported(b, 0)),
            ExprNode::App(f, a) => mode != 0 || (check_supported(f, 0) && check_supported(a, 0)),
            ExprNode::Inst(f, a) => (mode != 0 || (check_supported(f, 0) && check_supported(a, 3)))
                && (mode != 1 || check_supported(f, 1)),
            ExprNode::Anno(x, t) => mode == 2 || (check_supported(x, mode) && check_supported(t, 2)),
            _ => true,
        }
    }
}

/// Whether `r` holds `n`, or is `None` where `n` does not fit a `usize`.
pub open spec fn counted(r: Option<usize>, n: nat) -> bool {
    match r {
        Some(v) => v == n,
        None => n > usize::MAX,
    }
}

fn plus(a: Option<usize>, b: Option<usize>, Ghost(x): Ghost<nat>, Ghost(y): Ghost<nat>) -> (r: Option<
    usize,
>)
    requires
        counted(a, x),
        counted(b, y),
    ensures
        counted(r, x + y),
{
    match (a, b) {
        (Some(a), Some(b)) => a.checked_add(b),
        _ => None,
    }
}

/// How many binding numbers reading `e` in `mode` hands out, where that
/// fits a `usize`.
pub fn count_ids(e: &Expr, mode: u8) -> (r: Option<usize>)
    requires
        mode <= 3,
    ensures
        counted(r, ids(*e, mode as nat)),
    decreases *e, mode,
{
    if mode == 3 {
        match &e.node {
            ExprNode::Tuple(a, b) => plus(
                count_ids(a, 3),
                count_ids(b, 3),
                Ghost(ids(**a, 3)),
                Ghost(ids(**b, 3)),
            ),
            _ => count_ids(e, 2),
        }
    } else {
        match &e.node {
            ExprNode::Group(x) => count_ids(x, mode),
            ExprNode::Range(_, x, y) => if mode == 1 {
                Some(0)
            } else {
                plus(count_ids(x, 0), count_ids(y, 0), Ghost(ids(**x, 0)), Ghost(ids(**y, 0)))
            },
            ExprNode::Fun(_, x, y) | ExprNode::BinOp(_, _, x, y) => if mode == 1 {
                Some(0)
            } else {
                plus(
                    count_ids(x, mode),
                    count_ids(y, mode),
                    Ghost(ids(**x, mode as nat)),
                    Ghost(ids(**y, mode as nat)),
                )
            },
            ExprNode::Tuple(x, y) => if mode == 2 {
                Some(0)
            } else {
                plus(
                    count_ids(x, mode),
                    count_ids(y, mode),
                    Ghost(ids(**x, mode as nat)),
                    Ghost(ids(**y, mode as nat)),
                )
            },
            ExprNode::Lam(p, b) => if mode == 0 {
                let inner = plus(count_ids(p, 1), count_ids(b, 0), Ghost(ids(**p, 1)), Ghost(ids(**b, 0)));
                plus(inner, Some(1), Ghost(ids(**p, 1) + ids(**b, 0)), Ghost(1))
            } else {
                Some(0)
            },
            ExprNode::App(f, a) => if mode == 0 {
                plus(count_ids(f, 0), count_ids(a, 0), Ghost(ids(**f, 0)), Ghost(ids(**a, 0)))
            } else {
                Some(0)
            },
            ExprNode::Inst(f, a) => if mode == 0 {
                plus(count_ids(f, 0), count_ids(a, 3), Ghost(ids(**f, 0)), Ghost(ids(**a, 3)))
            } else if mode == 1 {
                count_ids(f, 1)
            } else {
                Some(0)
            },
            ExprNode::Anno(x, t) => if mode == 2 {
                Some(0)
            } else {
                plus(
                    count_ids(x, mode),
                    count_ids(t, 2),
                    Ghost(ids(**x, mode as nat)),
                    Ghost(ids(**t, 2)),
                )
            },
            _ => Some(0),
        }
    }
}

/// Whether the declaration `d` meets no unsupported pattern.
fn check_decl(d: &Decl) -> (r: bool)
    ensures
        r == decl_supported(*d),
{
    match &d.node {
        DeclNode::TypeDecl { pat, bind } => check_supported(pat, 1) && match bind {
            Some(b) => check_supported(b, 2),
            None => true,
        },
        DeclNode::ValueDecl { pat, bind } => check_supported(pat, 1) && match bind {
            Some(b) => check_supported(b, 0),
            None => true,
        },
        DeclNode::FunDecl { name, args, anno, bind, .. } => {
            if !check_supported(name, 1) {
                return false;
            }
            if let Some(a) = anno {
                if !check_supported(a, 2) {
                    return false;
                }
            }
            if let Some(b) = bind {
                if !check_supported(b, 0) {
                    return false;
                }
            }
            let mut i: usize = 0;
            while i < args.len()
                invariant
                    i <= args@.len(),
                    forall|j: int| 0 <= j < i ==> supported(#[trigger] args@[j], 1),
                    d.node matches DeclNode::FunDecl { args: a, .. } && a@ == args@,
                decreases args@.len() - i,
            {
                if !check_supported(&args[i], 1) {
                    assert(!supported(args@[i as int], 1));
                    return false;
                }
                i = i + 1;
            }
            true
        },
    }
}

fn count_opt(e: &Option<Expr>, mode: u8) -> (r: Option<usize>)
    requires
        mode <= 3,
    ensures
        counted(r, opt_ids(*e, mode as nat)),
{
    match e {
        Some(e) => count_ids(e, mode),
        None => Some(0),
    }
}

/// How many binding numbers reading the declaration `d` hands out, where
/// that fits a `usize`.
fn count_decl(d: &Decl) -> (r: Option<usize>)
    ensures
        counted(r, decl_ids(*d)),
{
    match &d.node {
        DeclNode::TypeDecl { pat, bind } => {
            let inner = plus(count_ids(pat, 1), count_opt(bind, 2), Ghost(ids(*pat, 1)), Ghost(opt_ids(*bind, 2)));
            plus(inner, Some(1), Ghost(ids(*pat, 1) + opt_ids(*bind, 2)), Ghost(1))
        },
        DeclNode::ValueDecl { pat, bind } => {
            let inner = plus(count_ids(pat, 1), count_opt(bind, 0), Ghost(ids(*pat, 1)), Ghost(opt_ids(*bind, 0)));
            plus(inner, Some(1), Ghost(ids(*pat, 1) + opt_ids(*bind, 0)), Ghost(1))
        },
        DeclNode::FunDecl { name, args, anno, bind, .. } => {
            let mut acc: Option<usize> = Some(0);
            let mut i: usize = args.len();
            proof {
                assert(args@.subrange(args@.len() as int, args@.len() as int) =~= Seq::<Expr>::empty());
            }
            while i > 0
                invariant
                    i <= args@.len(),
                    counted(acc, args_ids(args@.subrange(i as int, args@.len() as int))),
                decreases i,
            {
                let ghost rest = args@.subrange(i as int, args@.len() as int);
                i = i - 1;
                let ghost here = args@.subrange(i as int, args@.len() as int);
                assert(here.drop_first() =~= rest);
                assert(here[0] == args@[i as int]);
                let one = plus(count_ids(&args[i], 1), Some(1), Ghost(ids(args@[i as int], 1)), Ghost(1));
                acc = plus(one, acc, Ghost(ids(args@[i as int], 1) + 1), Ghost(args_ids(rest)));
            }
            proof {
                assert(args@.subrange(0, args@.len() as int) =~= args@);
            }
            let a = plus(count_ids(name, 1), count_opt(anno, 2), Ghost(ids(*name, 1)), Ghost(opt_ids(*anno, 2)));
            let b = plus(a, count_opt(bind, 0), Ghost(ids(*name, 1) + opt_ids(*anno, 2)), Ghost(opt_ids(*bind, 0)));
            let c = plus(b, acc, Ghost(ids(*name, 1) + opt_ids(*anno, 2) + opt_ids(*bind, 0)), Ghost(args_ids(args@)));
            plus(c, Some(1), Ghost(ids(*name, 1) + opt_ids(*anno, 2) + opt_ids(*bind, 0) + args_ids(args@)), Ghost(1))
        },
    }
}

/// Whether the declarations `ds` can be told apart: none meets an
/// unsupported pattern, and their binding numbers fit a `usize`.
pub open spec fn readable(ds: Seq<Decl>) -> bool {
    &&& forall|i: int| 0 <= i < ds.len() ==> decl_supported(#[trigger] ds[i])
    &&& decls_ids(ds) <= usize::MAX
}

/// Tell the patterns, types and expressions of `decls` apart, with the
/// messages that doing so reports; `None` where a declaration has a pattern
/// that is not supported, or where there are more binding numbers than a
/// `usize` holds.
pub fn read_decls(decls: Vec<Decl>) -> (r: Option<(hir::Decls, Vec<Message>)>)
    ensures
        r is Some <==> readable(decls@),
        r matches Some((read, messages)) ==> decls_of(decls@, read.values@, read.types@, 0)
            && messages@ == decls_messages(decls@),
{
    let mut total: Option<usize> = Some(0);
    let mut i: usize = 0;
    while i < decls.len()
        invariant
            i <= decls@.len(),
            forall|j: int| 0 <= j < i ==> decl_supported(#[trigger] decls@[j]),
            counted(total, decls_ids(decls@.take(i as int))),
        decreases decls@.len() - i,
    {
        if !check_decl(&decls[i]) {
            return None;
        }
        let ghost before = decls@.take(i as int);
        let one = count_decl(&decls[i]);
        total = plus(total, one, Ghost(decls_ids(before)), Ghost(decl_ids(decls@[i as int])));
        i = i + 1;
        proof {
            assert(decls@.take(i as int).drop_last() =~= before);
        }
    }
    proof {
        assert(decls@.take(i as int) =~= decls@);
    }
    if total.is_none() {
        return None;
    }
    let mut unconcretifier = Unconcretifier::new();
    let read = unconcretifier.unconcretify(decls);
    let messages = unconcretifier.take_messages();
    Some((read, messages))
}

/// Whether `r` is what reading the parsed declarations `ds` gives, with
/// the messages of reading them last.
pub open spec fn parsed_as(ds: Seq<Decl>, r: Option<(hir::Decls, Vec<Message>)>) -> bool {
    match r {
        Some((read, messages)) => readable(ds) && decls_of(ds, read.values@, read.types@, 0)
            && decls_messages(ds).is_suffix_of(messages@),
        None => !readable(ds),
    }
}

/// Parse `tokens` into declarations, then tell their patterns, types and
/// expressions apart. The messages are those of parsing, then those of
/// telling apart; `None` where `read_decls` gives none.
pub fn parse(tokens: Vec<(Token, Span)>) -> (r: Option<(hir::Decls, Vec<Message>)>)
    ensures
        exists|ds: Seq<Decl>|
            {
                &&& #[trigger] parsed_as(ds, r)
                &&& dtrees(ds) == p_program(qstart(tokens@)).0
                &&& r matches Some((_, messages)) ==> messages@ == p_program(qstart(tokens@)).1.msgs
                    + decls_messages(ds)
            },
{
    let ghost toks = tokens@;
    let mut parser = Parser::new(tokens);
    proof {
        assert(parser.qstate() == qstart(toks)) by {
            assert(parser.messages() =~= Seq::<Message>::empty());
        }
    }
    let decls = parser.parse_program();
    let mut messages = parser.take_messages();
    let ghost parsed = decls@;
    match read_decls(decls) {
        Some((read, mut more)) => {
            let ghost before = messages@;
            messages.append(&mut more);
            proof {
                assert(messages@.subrange(
                    messages@.len() - decls_messages(parsed).len(),
                    messages@.len() as int,
                ) =~= decls_messages(parsed));
            }
            let r = Some((read, messages));
            assert(parsed_as(parsed, r));
            assert(messages@ == p_program(qstart(toks)).1.msgs + decls_messages(parsed));
            r
        },
        None => {
            let r = None;
            assert(parsed_as(parsed, r));
            r
        },
    }
}

} // verus!
