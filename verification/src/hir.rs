//! The high-level intermediate representation: declarations whose patterns,
//! types and expressions are told apart, with every binding numbered.

use vstd::prelude::*;

use crate::source::Span;

verus! {

/// The number of a binding.
#[derive(Clone, Copy, Debug, PartialEq, Eq, Hash, Structural)]
pub struct BindId(pub usize);

/// Hands out fresh binding numbers, counting up from zero.
#[derive(Debug)]
pub struct BindIdGenerator {
    next: usize,
}

impl BindIdGenerator {
    /// The number the next call of `fresh` hands out.
    pub closed spec fn next(self) -> nat {
        self.next as nat
    }

    pub fn new() -> (g: Self)
        ensures
            g.next() == 0,
    {
        BindIdGenerator { next: 0 }
    }

    /// A binding number not handed out before.
    pub fn fresh(&mut self) -> (id: BindId)
        requires
            old(self).next() < usize::MAX,
        ensures
            id.0 == old(self).next(),
            final(self).next() == old(self).next() + 1,
    {
        let id = BindId(self.next);
        self.next = self.next + 1;
        id
    }
}

#[derive(Debug)]
pub struct Decls {
    pub values: Vec<ValueDef>,
    pub types: Vec<TypeDef>,
}

#[derive(Debug)]
pub struct ValueDef {
    pub span: Span,
    pub id: BindId,
    pub implicits: Vec<(String, Span)>,
    pub pat: Pat,
    pub anno: Type,
    pub bind: Expr,
}

#[derive(Debug)]
pub struct TypeDef {
    pub span: Span,
    pub id: BindId,
    pub anno: Type,
    pub bind: Type,
    pub pat: Pat,
}

#[derive(Debug)]
pub struct Expr {
    pub node: ExprNode,
    pub span: Span,
}

#[derive(Debug)]
pub enum ExprNode {
    Name(String),
    Int(i64),
    Tuple(Box<Expr>, Box<Expr>),
    Lam(BindId, Pat, Box<Expr>),
    App(Box<Expr>, Box<Expr>),
    Inst(Box<Expr>, Vec<Type>),
    Anno(Box<Expr>, Type),
    Hole,
    Invalid,
}

#[derive(Debug)]
pub struct Pat {
    pub node: PatNode,
    pub span: Span,
}

#[derive(Debug)]
pub enum PatNode {
    Name(String),
    Tuple(Box<Pat>, Box<Pat>),
    Anno(Box<Pat>, Type),
    Wildcard,
    Invalid,
}

#[derive(Debug)]
pub struct Type {
    pub node: TypeNode,
    pub span: Span,
}

#[derive(Debug)]
pub enum TypeNode {
    Name(String),
    Range(i64, i64),
    Fun(Box<Type>, Box<Type>),
    Prod(Box<Type>, Box<Type>),
    Type,
    Wildcard,
    Invalid,
}

} // verus!
