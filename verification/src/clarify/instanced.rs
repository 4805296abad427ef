//! Types whose traits refer to instances: concrete entries, parameters of a
//! template, or variables to be solved by unification.

use vstd::prelude::*;

use crate::ast::Clusivity;
use crate::checked::ItemIndex;
use crate::invalid::Reason;

verus! {

/// A variable standing for an instance, to be solved by unification.
#[derive(Clone, Copy, Debug, PartialEq, Eq, Hash, Structural)]
pub struct InstanceVar(pub usize);

/// A concrete instance: an entry with its dependencies.
#[derive(Clone, Copy, Debug, PartialEq, Eq, Hash, Structural)]
pub struct InstanceIndex(pub usize);

/// An instance parameter of a template.
#[derive(Clone, Copy, Debug, PartialEq, Eq, Hash, Structural)]
pub struct AbstractInstance(pub usize);

/// A reference to an instance. This may be either an instance parameter, a
/// concrete instance, or a variable to be solved by unification.
#[derive(Clone, Copy, Debug, PartialEq, Eq, Hash, Structural)]
pub enum Instance {
    Concrete(InstanceIndex),
    Parameter(AbstractInstance),
    Var(InstanceVar),
}

/// An entry instance is the actual entry body with an explicit list of
/// dependencies. Entry expressions explicitly supply the dependencies.
#[derive(Debug)]
pub struct EntryInstance {
    pub items: Vec<ItemIndex>,
}

#[derive(Clone, Copy, Debug, PartialEq, Eq, Structural)]
pub enum Type {
    Trait { instance: Instance },
    Range { clusivity: Clusivity, lower: ItemIndex, upper: ItemIndex },
    Number,
    Invalid(Reason),
}

#[derive(Debug)]
pub struct Template {
    pub ty: Type,
    /// The existential parameters introduced by this template.
    pub exists: Vec<AbstractInstance>,
}

} // verus!
