use vstd::prelude::*;

verus! {

/// Why a piece of a tree is invalid.
#[derive(Clone, Copy, Debug, PartialEq, Eq, Hash, Structural)]
pub enum Reason {
    SyntaxError,
    NameError,
    TypeError,
}

} // verus!
