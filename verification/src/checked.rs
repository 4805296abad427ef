//! The checked program: every item with the types of what it contains,
//! numbered by the order it was reserved.

use vstd::prelude::*;

use crate::ast::Clusivity;
use crate::invalid::Reason;
use crate::names::{ItemName, LocalName, Name};
use crate::resolved::Identifier;
use crate::source::Span;

verus! {

/// Refers to an item of the checked program.
#[derive(Clone, Copy, Debug, PartialEq, Eq, Hash, Structural)]
pub struct ItemIndex(pub usize);

/// The items of a program, with the types of the names it declares.
#[derive(Debug)]
pub struct Program {
    pub items: Vec<(ItemIndex, Item)>,
    pub item_types: Vec<(ItemName, Template)>,
    pub local_types: Vec<(LocalName, Type)>,
    counter: usize,
}

impl Program {
    /// The items, each with its index.
    pub closed spec fn entries(self) -> Seq<(ItemIndex, Item)> {
        self.items@
    }

    /// How many items have been reserved.
    pub closed spec fn count(self) -> nat {
        self.counter as nat
    }

    /// No item is held twice, and every item was reserved.
    pub closed spec fn wf(self) -> bool {
        &&& forall|i: int| 0 <= i < self.items@.len() ==> (#[trigger] self.items@[i]).0.0 < self.count()
        &&& forall|i: int, j: int|
            0 <= i < j < self.items@.len() ==> (#[trigger] self.items@[i]).0 != (#[trigger] self.items@[j]).0
    }

    /// What being well formed means.
    pub proof fn lemma_wf(self)
        requires
            self.wf(),
        ensures
            forall|i: int| 0 <= i < self.entries().len() ==> (#[trigger] self.entries()[i]).0.0 < self.count(),
            forall|i: int, j: int|
                0 <= i < j < self.entries().len() ==> (#[trigger] self.entries()[i]).0 != (#[trigger] self.entries()[j]).0,
    {
    }

    /// A program with no items.
    pub fn new() -> (p: Self)
        ensures
            p.wf(),
            p.entries().len() == 0,
            p.count() == 0,
    {
        Program { items: Vec::new(), item_types: Vec::new(), local_types: Vec::new(), counter: 0 }
    }

    /// The items, each with its index.
    pub fn items(&self) -> (r: &Vec<(ItemIndex, Item)>)
        ensures
            r@ == self.entries(),
    {
        &self.items
    }

    /// How many items have been reserved.
    pub fn reserved(&self) -> (n: usize)
        ensures
            n == self.count(),
    {
        self.counter
    }

    /// Give the reserved `index` its item.
    pub fn add_item_for(&mut self, index: ItemIndex, item: Item)
        requires
            old(self).wf(),
            index.0 < old(self).count(),
            forall|i: int| 0 <= i < old(self).entries().len() ==> (#[trigger] old(self).entries()[i]).0 != index,
        ensures
            final(self).wf(),
            final(self).entries() == old(self).entries().push((index, item)),
            final(self).count() == old(self).count(),
    {
        self.items.push((index, item));
        proof {
            assert forall|i: int, j: int|
                0 <= i < j < self.items@.len() implies (#[trigger] self.items@[i]).0 != (#[trigger] self.items@[j]).0 by {
                if j == self.items@.len() - 1 {
                    assert(old(self).items@[i] == self.items@[i]);
                    assert(old(self).entries()[i].0 != index);
                } else {
                    assert(old(self).items@[i] == self.items@[i]);
                    assert(old(self).items@[j] == self.items@[j]);
                }
            }
            assert forall|i: int| 0 <= i < self.items@.len() implies (#[trigger] self.items@[i]).0.0 < self.count() by {
                if i < old(self).items@.len() {
                    assert(old(self).items@[i] == self.items@[i]);
                }
            }
        }
    }

    /// Reserve the index of an item yet to be added.
    pub fn reserve_item(&mut self) -> (index: ItemIndex)
        requires
            old(self).wf(),
            old(self).count() < usize::MAX,
        ensures
            final(self).wf(),
            index.0 == old(self).count(),
            final(self).count() == old(self).count() + 1,
            final(self).entries() == old(self).entries(),
    {
        let id = ItemIndex(self.counter);
        self.counter = self.counter + 1;
        id
    }
}

#[derive(Debug, PartialEq, Eq)]
pub enum Item {
    /// A bound in a number type.
    Bound { body: Expression },
    Let { pattern: Pattern<ItemName>, body: Option<Expression> },
}

#[derive(Debug, PartialEq, Eq)]
pub struct Template {
    pub ty: Type,
}

#[derive(Debug, PartialEq, Eq)]
pub enum Type {
    Trait { values: Vec<ItemName> },
    Range { clusivity: Clusivity, lower: ItemIndex, upper: ItemIndex },
    Number,
    Invalid(Reason),
}

#[derive(Debug, PartialEq, Eq)]
pub struct Expression {
    pub node: ExpressionNode,
    pub data: Type,
    pub span: Span,
}

#[derive(Debug, PartialEq, Eq)]
pub enum ExpressionNode {
    Entry(Entry),
    Let { pattern: Pattern<LocalName>, body: Option<Box<Expression>> },
    Block(Vec<Expression>, Box<Expression>),
    Path(Box<Expression>, Identifier),
    Coerce(Box<Expression>),
    /// A reference to the value bound by an item.
    Item(ItemIndex),
    Name(Name),
    Number(String),
    String(String),
    Invalid(Reason),
}

#[derive(Debug, PartialEq, Eq)]
pub struct Entry {
    pub items: Vec<ItemIndex>,
}

#[derive(Debug, PartialEq, Eq)]
pub struct Pattern<N> {
    pub node: PatternNode<N>,
    pub data: Type,
    pub span: Span,
}

#[derive(Debug, PartialEq, Eq)]
pub enum PatternNode<N> {
    Name(N),
    Wildcard,
    Invalid(Reason),
}

} // verus!
