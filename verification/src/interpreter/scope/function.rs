use vstd::prelude::*;

use crate::interpreter::operator::Operator;

verus! {

/// The name of a function: an operator, or a name written in the program.
#[derive(Debug, Clone, PartialEq, Eq, Hash)]
pub enum FuncName {
    Operator(Operator),
    String(String),
}

/// What tells functions apart: their name and the types of their arguments.
#[derive(Debug, Clone, PartialEq, Eq, Hash)]
pub struct FuncFootprint {
    name: FuncName,
    arguments_type: Vec<usize>,
}

} // verus!
