//! Expressions, from the loosest binding (`=>`) to the tightest (names,
//! numbers and groups).

use vstd::prelude::*;

use super::tree::{BinOp, Expr, ExprNode};
use super::{
    kind, starts_base_expr, starts_op_name, Parser, Token, COLON, COMMA, EQ_ARROW, GROUP_CLOSE,
    MIN_ARROW, PIPE, STAR, UPTO,
};
use super::grammar::{
    etree, op_tree, p_anno, p_app, p_app_loop, p_arrow, p_base, p_expr, p_lam, p_mul, p_mul_loop,
    p_range, p_small, p_tuple, p_tuple_loop, qadv, qnext, ETree, ETreeNode,
};
use crate::messages::{msg, MessageKind};

verus! {

impl Parser {
    /// ```abnf
    /// expr = lam-expr
    /// ```
    pub fn parse_expr(&mut self) -> (expr: Expr)
        ensures
            (etree(expr), final(self).qstate()) == p_expr(old(self).qstate()),
            Parser::progressed(*old(self), *final(self)),
        decreases old(self).remaining().len(), 12nat,
    {
        self.lam_expr()
    }

    /// ```abnf
    /// small-expr = tuple-expr
    /// ```
    pub fn parse_small_expr(&mut self) -> (expr: Expr)
        ensures
            (etree(expr), final(self).qstate()) == p_small(old(self).qstate()),
            Parser::progressed(*old(self), *final(self)),
        decreases old(self).remaining().len(), 10nat,
    {
        self.tuple_expr()
    }

    /// ```abnf
    /// lam-expr = small-expr ["=>" expr]
    /// ; reassoc 'f x => y' as 'f (x => y)'
    /// ```
    #[verifier::spinoff_prover]
    #[verifier::rlimit(100)]
    fn lam_expr(&mut self) -> (result: Expr)
        ensures
            (etree(result), final(self).qstate()) == p_lam(old(self).qstate()),
            Parser::progressed(*old(self), *final(self)),
        decreases old(self).remaining().len(), 11nat,
    {
        let expr = self.parse_small_expr();
        let ghost middle = *self;
        if self.consume(EQ_ARROW) {
            let ghost after_arrow = *self;
            let body = self.parse_expr();
            proof {
                Parser::lemma_stepped_trans(middle, after_arrow, *self);
                Parser::lemma_stepped_trans(*old(self), middle, *self);
            }
            let span = expr.span.join(body.span);
            let expr_span = expr.span;
            let ghost e0 = expr;
            proof {
                assert(middle.qstate().rem.len() <= old(self).qstate().rem.len());
                assert((etree(e0), middle.qstate()) == p_small(old(self).qstate()));
                assert(qnext(middle.qstate(), EQ_ARROW));
                assert((etree(body), self.qstate()) == p_expr(qadv(middle.qstate())));
            }
            match expr.node {
                ExprNode::App(func, arg) => {
                    proof {
                        assert(etree(e0).node == ETreeNode::App(Box::new(etree(*func)), Box::new(etree(*arg))));
                    }
                    let lam_span = arg.span.join(body.span);
                    let lam = Expr { node: ExprNode::Lam(arg, Box::new(body)), span: lam_span };
                    proof {
                        assert(etree(lam) == ETree {
                            node: ETreeNode::Lam(Box::new(etree(*arg)), Box::new(etree(body))),
                            span: lam_span,
                        });
                    }
                    let r = Expr { node: ExprNode::App(func, Box::new(lam)), span };
                    proof {
                        assert(etree(r) == ETree {
                            node: ETreeNode::App(Box::new(etree(*func)), Box::new(etree(lam))),
                            span,
                        });
                    }
                    r
                },
                node => {
                    let inner = Expr { node, span: expr_span };
                    proof {
                        assert(inner == e0);
                        assert(!(etree(e0).node is App));
                    }
                    let r = Expr { node: ExprNode::Lam(Box::new(inner), Box::new(body)), span };
                    proof {
                        assert(etree(r) == ETree {
                            node: ETreeNode::Lam(Box::new(etree(inner)), Box::new(etree(body))),
                            span,
                        });
                    }
                    r
                },
            }
        } else {
            expr
        }
    }

    /// ```abnf
    /// tuple-expr = anno-expr *("," anno-expr)
    /// ```
    #[verifier::spinoff_prover]
    #[verifier::rlimit(100)]
    fn tuple_expr(&mut self) -> (result: Expr)
        ensures
            (etree(result), final(self).qstate()) == p_tuple(old(self).qstate()),
            Parser::progressed(*old(self), *final(self)),
        decreases old(self).remaining().len(), 9nat,
    {
        let mut expr = self.anno_expr();
        loop
            invariant
                Parser::progressed(*old(self), *self),
                p_tuple_loop(etree(expr), self.qstate()) == p_tuple(old(self).qstate()),
            ensures
                Parser::progressed(*old(self), *self),
                (etree(expr), self.qstate()) == p_tuple(old(self).qstate()),
            decreases self.remaining().len(),
        {
            let ghost before = *self;
            if !self.consume(COMMA) {
                break;
            }
            let ghost after_comma = *self;
            let other = self.anno_expr();
            proof {
                Parser::lemma_stepped_trans(before, after_comma, *self);
                Parser::lemma_stepped_trans(*old(self), before, *self);
            }
            let span = expr.span.join(other.span);
            expr = Expr { node: ExprNode::Tuple(Box::new(expr), Box::new(other)), span };
        }
        expr
    }

    /// ```abnf
    /// anno-expr = arrow-expr [":" arrow-expr]
    /// ```
    #[verifier::spinoff_prover]
    #[verifier::rlimit(100)]
    fn anno_expr(&mut self) -> (result: Expr)
        ensures
            (etree(result), final(self).qstate()) == p_anno(old(self).qstate()),
            Parser::progressed(*old(self), *final(self)),
        decreases old(self).remaining().len(), 8nat,
    {
        let expr = self.arrow_expr();
        let ghost middle = *self;
        if self.consume(COLON) {
            let ghost after_colon = *self;
            let anno = self.arrow_expr();
            proof {
                Parser::lemma_stepped_trans(middle, after_colon, *self);
                Parser::lemma_stepped_trans(*old(self), middle, *self);
            }
            let span = expr.span.join(anno.span);
            Expr { node: ExprNode::Anno(Box::new(expr), Box::new(anno)), span }
        } else {
            expr
        }
    }

    /// ```abnf
    /// arrow-expr = range-expr ["->" arrow-expr]
    /// ```
    fn arrow_expr(&mut self) -> (result: Expr)
        ensures
            (etree(result), final(self).qstate()) == p_arrow(old(self).qstate()),
            Parser::progressed(*old(self), *final(self)),
        decreases old(self).remaining().len(), 7nat,
    {
        let expr = self.range_expr();
        let ghost middle = *self;
        if let Some(op_span) = self.matches(MIN_ARROW) {
            let ghost after_arrow = *self;
            let other = self.arrow_expr();
            proof {
                Parser::lemma_stepped_trans(middle, after_arrow, *self);
                Parser::lemma_stepped_trans(*old(self), middle, *self);
            }
            let span = expr.span.join(other.span);
            Expr { node: ExprNode::Fun(op_span, Box::new(expr), Box::new(other)), span }
        } else {
            expr
        }
    }

    /// ```abnf
    /// range-expr = mul-expr ["upto" mul-expr]
    /// ```
    fn range_expr(&mut self) -> (result: Expr)
        ensures
            (etree(result), final(self).qstate()) == p_range(old(self).qstate()),
            Parser::progressed(*old(self), *final(self)),
        decreases old(self).remaining().len(), 6nat,
    {
        let expr = self.mul_expr();
        let ghost middle = *self;
        if let Some(op_span) = self.matches(UPTO) {
            let ghost after_upto = *self;
            let other = self.mul_expr();
            proof {
                Parser::lemma_stepped_trans(middle, after_upto, *self);
                Parser::lemma_stepped_trans(*old(self), middle, *self);
            }
            let span = expr.span.join(other.span);
            Expr { node: ExprNode::Range(op_span, Box::new(expr), Box::new(other)), span }
        } else {
            expr
        }
    }

    /// ```abnf
    /// mul-expr = app-expr *("*" app-expr)
    /// ```
    fn mul_expr(&mut self) -> (result: Expr)
        ensures
            (etree(result), final(self).qstate()) == p_mul(old(self).qstate()),
            Parser::progressed(*old(self), *final(self)),
        decreases old(self).remaining().len(), 5nat,
    {
        let mut expr = self.app_expr();
        loop
            invariant
                Parser::progressed(*old(self), *self),
                p_mul_loop(etree(expr), self.qstate()) == p_mul(old(self).qstate()),
            ensures
                Parser::progressed(*old(self), *self),
                (etree(expr), self.qstate()) == p_mul(old(self).qstate()),
            decreases self.remaining().len(),
        {
            let ghost before = *self;
            let op_span = match self.matches(STAR) {
                Some(span) => span,
                None => break,
            };
            let ghost after_star = *self;
            let other = self.app_expr();
            proof {
                Parser::lemma_stepped_trans(before, after_star, *self);
                Parser::lemma_stepped_trans(*old(self), before, *self);
            }
            let span = expr.span.join(other.span);
            expr = Expr {
                node: ExprNode::BinOp(op_span, BinOp::Mul, Box::new(expr), Box::new(other)),
                span,
            };
        }
        expr
    }

    /// Whether the next token is an argument of an application: it starts a
    /// base expression, or opens implicit arguments outside of them.
    fn is_arg(&self) -> (r: bool)
        ensures
            r == (self.remaining().len() > 0 && (starts_base_expr(kind(self.remaining()[0].0)) || (
            !self.implicit() && self.next_is(PIPE)))),
    {
        !self.is_done() && (self.peek_base_start() || (!self.in_implicit && self.peek(PIPE)))
    }

    /// ```abnf
    /// app-expr = base-expr *(base-expr / "|" small-expr "|")
    /// ```
    #[verifier::spinoff_prover]
    #[verifier::rlimit(100)]
    fn app_expr(&mut self) -> (result: Expr)
        ensures
            (etree(result), final(self).qstate()) == p_app(old(self).qstate()),
            Parser::progressed(*old(self), *final(self)),
        decreases old(self).remaining().len(), 4nat,
    {
        let mut expr = self.parse_base_expr();
        while self.is_arg()
            invariant
                Parser::progressed(*old(self), *self),
                p_app_loop(etree(expr), self.qstate()) == p_app(old(self).qstate()),
            decreases self.remaining().len(),
        {
            let ghost before = *self;
            if let Some(opener) = self.matches(PIPE) {
                let ghost after_pipe = *self;
                self.set_implicit(true);
                let ghost entered = *self;
                let arg = self.parse_small_expr();
                let ghost parsed = *self;
                self.set_implicit(false);
                let ghost left = *self;
                if !self.consume(PIPE) {
                    self.report(MessageKind::UnclosedImplicits, opener);
                    proof {
                        Parser::lemma_stepped_trans(left, left, *self);
                    }
                }
                proof {
                    Parser::lemma_stepped_trans(before, after_pipe, entered);
                    Parser::lemma_stepped_trans(before, entered, parsed);
                    Parser::lemma_stepped_trans(before, parsed, left);
                    Parser::lemma_stepped_trans(before, left, *self);
                    Parser::lemma_stepped_trans(*old(self), before, *self);
                }
                let span = expr.span.join(arg.span);
                expr = Expr { node: ExprNode::Inst(Box::new(expr), Box::new(arg)), span };
            } else {
                let arg = self.parse_base_expr();
                proof {
                    Parser::lemma_stepped_trans(*old(self), before, *self);
                }
                let span = expr.span.join(arg.span);
                expr = Expr { node: ExprNode::App(Box::new(expr), Box::new(arg)), span };
            }
        }
        expr
    }

    /// ```abnf
    /// base-expr  = NAME / NUM / WILDCARD / "type"
    /// base-expr =/ "(" expr ")"
    /// base-expr =/ "(" OP-NAME ")"
    /// ```
    ///
    /// The current token is consumed, whatever it is. Where there is none,
    /// an expression is expected at the last token.
    pub fn parse_base_expr(&mut self) -> (expr: Expr)
        ensures
            (etree(expr), final(self).qstate()) == p_base(old(self).qstate()),
            Parser::progressed(*old(self), *final(self)),
            old(self).remaining().len() > 0 ==> {
                let (token, span) = old(self).remaining()[0];
                let simple = final(self).remaining() == old(self).remaining().drop_first();
                match token {
                    Token::Name(name) => expr == (Expr { node: ExprNode::Name(name), span })
                        && simple && final(self).messages() == old(self).messages(),
                    Token::Number(number) => expr == (Expr { node: ExprNode::Int(number), span })
                        && simple && final(self).messages() == old(self).messages(),
                    Token::Question => expr == (Expr { node: ExprNode::Wildcard, span }) && simple
                        && final(self).messages() == old(self).messages(),
                    Token::Type => expr == (Expr { node: ExprNode::Type, span }) && simple
                        && final(self).messages() == old(self).messages(),
                    Token::Invalid => expr == (Expr { node: ExprNode::Invalid, span }) && simple
                        && final(self).messages() == old(self).messages(),
                    Token::GroupOpen => expr.node is Group,
                    _ => expr == (Expr { node: ExprNode::Invalid, span }) && simple
                        && final(self).messages() == old(self).messages().push(
                        msg(MessageKind::ExpectedBaseExpression, span),
                    ),
                }
            },
            old(self).remaining().len() == 0 ==> expr == (Expr {
                node: ExprNode::Invalid,
                span: old(self).spec_last_span(),
            }) && final(self).remaining() == old(self).remaining() && final(self).messages()
                == old(self).messages().push(
                msg(MessageKind::ExpectedBaseExpression, old(self).spec_last_span()),
            ),
        decreases old(self).remaining().len(), 3nat,
    {
        let current = self.advance();
        let ghost after = *self;
        match current {
            Some((Token::Name(name), span)) => Expr { node: ExprNode::Name(name), span },
            Some((Token::Number(number), span)) => Expr { node: ExprNode::Int(number), span },
            Some((Token::Question, span)) => Expr { node: ExprNode::Wildcard, span },
            Some((Token::Type, span)) => Expr { node: ExprNode::Type, span },
            Some((Token::GroupOpen, span)) => {
                let inner = if self.peek_op_start() {
                    self.op_name()
                } else {
                    self.parse_expr()
                };
                let ghost middle = *self;
                if !self.consume(GROUP_CLOSE) {
                    self.report(MessageKind::UnclosedGroup, span);
                }
                let close_span = self.last_span();
                proof {
                    Parser::lemma_stepped_trans(after, middle, *self);
                    Parser::lemma_stepped_trans(*old(self), after, *self);
                }
                Expr { node: ExprNode::Group(Box::new(inner)), span: span.join(close_span) }
            },
            Some((Token::Invalid, span)) => Expr { node: ExprNode::Invalid, span },
            Some((_, span)) => {
                self.report(MessageKind::ExpectedBaseExpression, span);
                proof {
                    Parser::lemma_stepped_trans(*old(self), after, *self);
                }
                Expr { node: ExprNode::Invalid, span }
            },
            None => {
                let span = self.last_span();
                self.report(MessageKind::ExpectedBaseExpression, span);
                proof {
                    Parser::lemma_stepped_trans(*old(self), after, *self);
                }
                Expr { node: ExprNode::Invalid, span }
            },
        }
    }

    /// ```abnf
    /// OP-NAME = "->" / "upto" / "*"
    /// ```
    fn op_name(&mut self) -> (expr: Expr)
        requires
            old(self).remaining().len() > 0,
            starts_op_name(kind(old(self).remaining()[0].0)),
        ensures
            etree(expr) == op_tree(old(self).remaining()[0].0, old(self).remaining()[0].1),
            final(self).qstate() == qadv(old(self).qstate()),
            Parser::progressed(*old(self), *final(self)),
            final(self).remaining() == old(self).remaining().drop_first(),
            final(self).messages() == old(self).messages(),
            expr.span == old(self).remaining()[0].1,
            expr.node matches ExprNode::Name(name) && name@ == match old(self).remaining()[0].0 {
                Token::MinArrow => "->"@,
                Token::Upto => "upto"@,
                _ => "*"@,
            },
    {
        let current = self.advance();
        match current {
            Some((Token::MinArrow, span)) => Expr { node: ExprNode::Name(String::from_str("->")), span },
            Some((Token::Upto, span)) => Expr { node: ExprNode::Name(String::from_str("upto")), span },
            Some((_, span)) => Expr { node: ExprNode::Name(String::from_str("*")), span },
            None => {
                proof {
                    assert(false);
                }
                Expr { node: ExprNode::Invalid, span: self.last_span() }
            },
        }
    }
}

} // verus!
