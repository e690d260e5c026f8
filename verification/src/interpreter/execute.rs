use vstd::prelude::*;

use crate::interpreter::parser::ErrorLocation;
use crate::interpreter::scope::output::OutputCollector;

verus! {

/// What running a program gave: nothing yet, its outputs, or where its text could not be
/// parsed.
#[derive(Clone)]
pub enum ProgramResult {
    Unexecuted,
    Executed(OutputCollector),
    InvalidTokens(ErrorLocation),
}

impl Default for ProgramResult {
    fn default() -> (r: Self)
        ensures
            r is Unexecuted,
    {
        ProgramResult::Unexecuted
    }
}

} // verus!
