use vstd::prelude::*;

verus! {

/// A value held as a leaf of the syntax tree.
#[derive(Debug, Clone, PartialEq)]
pub struct Leaf<T> {
    pub value: T,
}

impl<T> From<T> for Leaf<T> {
    fn from(value: T) -> (r: Self) {
        Self { value }
    }
}

impl<T> vstd::std_specs::convert::FromSpecImpl<T> for Leaf<T> {
    open spec fn obeys_from_spec() -> bool {
        true
    }

    open spec fn from_spec(v: T) -> Self {
        Leaf { value: v }
    }
}

} // verus!
