//! The tree produced by the declaration parser. It does not tell patterns,
//! types and expressions apart: that is left to unconcretification.

use vstd::prelude::*;

use crate::source::Span;

verus! {

pub type Name = String;

#[derive(Debug)]
pub struct Decl {
    pub node: DeclNode,
    pub span: Span,
}

#[derive(Debug)]
pub enum DeclNode {
    ValueDecl { pat: Expr, bind: Option<Expr> },
    FunDecl {
        name: Expr,
        implicits: Option<Expr>,
        args: Vec<Expr>,
        anno: Option<Expr>,
        bind: Option<Expr>,
    },
    TypeDecl { pat: Expr, bind: Option<Expr> },
}

#[derive(Debug)]
pub struct Expr {
    pub node: ExprNode,
    pub span: Span,
}

#[derive(Debug)]
pub enum ExprNode {
    Name(Name),
    Int(u64),
    Group(Box<Expr>),
    Range(Span, Box<Expr>, Box<Expr>),
    Fun(Span, Box<Expr>, Box<Expr>),
    BinOp(Span, BinOp, Box<Expr>, Box<Expr>),
    Tuple(Box<Expr>, Box<Expr>),
    Lam(Box<Expr>, Box<Expr>),
    Inst(Box<Expr>, Box<Expr>),
    App(Box<Expr>, Box<Expr>),
    Anno(Box<Expr>, Box<Expr>),
    Wildcard,
    Type,
    Invalid,
}

#[derive(Clone, Copy, Debug, PartialEq, Eq, Structural)]
pub enum BinOp {
    Mul,
}

} // verus!
