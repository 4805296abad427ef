//! The syntax tree once every name is resolved to what it refers to.

use vstd::prelude::*;

use crate::ast::Clusivity;
use crate::invalid::Reason;
use crate::names::{ItemName, LocalName, Name, RawName};
use crate::source::Span;

verus! {

/// A name as written at some span.
#[derive(Clone, Copy, Debug, PartialEq, Eq, Hash, Structural)]
pub struct Identifier {
    pub span: Span,
    pub name: RawName,
}

/// A name brought into scope by an import, and where.
#[derive(Clone, Copy, Debug, PartialEq, Eq, Hash, Structural)]
pub struct Alias {
    pub name: RawName,
    pub defined: Span,
}

#[derive(Clone, Copy, Debug, PartialEq, Eq, Hash, Structural)]
pub struct ImportedName {
    pub span: Span,
    /// The name being imported.
    pub name: Identifier,
    /// The name it is known by here.
    pub alias: Alias,
}

#[derive(Debug)]
pub struct Import {
    pub from: Expression,
    pub names: Vec<ImportedName>,
}

#[derive(Debug)]
pub enum Item {
    Let { pattern: Pattern<ItemName>, anno: Option<Type>, body: Option<Expression> },
}

#[derive(Debug)]
pub struct Type {
    pub node: TypeNode,
    pub span: Span,
}

#[derive(Debug)]
pub enum TypeNode {
    Range { clusivity: Clusivity, lower: Box<Expression>, upper: Box<Expression> },
    Invalid(Reason),
}

#[derive(Debug)]
pub struct Expression {
    pub node: ExpressionNode,
    pub span: Span,
}

#[derive(Debug)]
pub enum ExpressionNode {
    Entry { items: Vec<Item>, imports: Vec<Import> },
    Let { pattern: Pattern<LocalName>, anno: Option<Type>, body: Option<Box<Expression>> },
    Block(Vec<Expression>),
    Annotate(Box<Expression>, Box<Type>),
    Path(Box<Expression>, Identifier),
    Name(Name),
    Alias(Alias),
    Number(String),
    String(String),
    Unit,
    Invalid(Reason),
}

/// A pattern parameterized by the kind of name it can bind.
#[derive(Debug)]
pub struct Pattern<N> {
    pub node: PatternNode<N>,
    pub span: Span,
}

#[derive(Debug)]
pub enum PatternNode<N> {
    Annotate(Box<Pattern<N>>, Type),
    Name(N),
    Unit,
    Invalid(Reason),
}

/// The resolved imports and items of one source of a module.
#[derive(Debug)]
pub struct ModulePart {
    pub imports: Vec<Import>,
    pub items: Vec<Item>,
}

/// A module: its name and the parts its sources make up.
#[derive(Debug)]
pub struct Module {
    pub name: ItemName,
    pub parts: Vec<ModulePart>,
}

} // verus!
