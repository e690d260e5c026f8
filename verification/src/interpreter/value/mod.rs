use vstd::prelude::*;

verus! {

/// The kind of a value.
#[derive(Debug, Clone, Copy, PartialEq, Eq, Structural, Hash)]
pub enum TypeId {
    Scalar,
    Failed,
    Empty,
}

} // verus!
