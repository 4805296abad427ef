//! The abstract syntax tree: what the concrete syntax tree means, with the
//! constructions that make no sense reported and marked invalid.

use vstd::prelude::*;

use crate::invalid::Reason;
use crate::source::Span;

verus! {

/// The items and imports of one source.
#[derive(Debug, PartialEq, Eq)]
pub struct AstSource {
    pub items: Vec<Item>,
    pub imports: Vec<Import>,
}

/// An import of some names, possibly from some expression.
#[derive(Debug, PartialEq, Eq)]
pub struct Import {
    pub from: Option<Expression>,
    pub names: Vec<ImportedName>,
    pub span: Span,
}

#[derive(Debug, PartialEq, Eq)]
pub struct ImportedName {
    pub span: Span,
    /// The actual name being imported.
    pub name: Identifier,
    /// The name as it appears in this source.
    pub alias: Identifier,
}

#[derive(Debug, PartialEq, Eq)]
pub enum Item {
    Let { pattern: Pattern, anno: Option<Type>, body: Option<Expression> },
}

#[derive(Debug, PartialEq, Eq)]
pub struct Type {
    pub node: TypeNode,
    pub span: Span,
}

#[derive(Debug, PartialEq, Eq)]
pub enum TypeNode {
    Range { clusivity: Clusivity, lower: Expression, upper: Expression },
    Invalid(Reason),
}

#[derive(Debug, PartialEq, Eq)]
pub struct Expression {
    pub node: ExpressionNode,
    pub span: Span,
}

#[derive(Debug, PartialEq, Eq)]
pub enum ExpressionNode {
    /// A collection of items treated as a single object.
    Entry { items: Vec<Item>, imports: Vec<Import> },
    /// A sequence of expressions delimited by semicolons or newlines.
    Block(Vec<Expression>),
    Annotate(Box<Expression>, Box<Type>),
    Path(Box<Expression>, Identifier),
    Name(Identifier),
    Number(String),
    String(String),
    Unit,
    Invalid(Reason),
}

#[derive(Debug, PartialEq, Eq)]
pub struct Pattern {
    pub node: PatternNode,
    pub span: Span,
}

#[derive(Debug, PartialEq, Eq)]
pub enum PatternNode {
    Annotate(Box<Pattern>, Type),
    Name(Identifier),
    Unit,
    Invalid(Reason),
}

/// Whether a range includes its start and its end.
#[derive(Clone, Copy, Debug, PartialEq, Eq, Hash, Structural)]
pub struct Clusivity {
    pub includes_start: bool,
    pub includes_end: bool,
}

impl Clusivity {
    /// The clusivity of `a upto b`: the start is included, the end is not.
    pub fn exclusive() -> (c: Self)
        ensures
            c.includes_start,
            !c.includes_end,
    {
        Self { includes_start: true, includes_end: false }
    }

    /// A range that includes both its start and its end.
    pub fn inclusive() -> (c: Self)
        ensures
            c.includes_start,
            c.includes_end,
    {
        Self { includes_start: true, includes_end: true }
    }
}

/// A name as written at some span.
#[derive(Clone, Debug, PartialEq, Eq, Hash)]
pub struct Identifier {
    pub span: Span,
    pub name: String,
}

} // verus!
