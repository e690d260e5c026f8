pub mod collector;

use vstd::prelude::*;

use crate::interpreter::ast::location::{range_text, RangeReverseLocation};
use crate::interpreter::scope::AssignmentOperator;

verus! {

/// Full text of an error message: `name: description`, followed by the location when known.
pub open spec fn message_text(
    name: Seq<char>,
    description: Seq<char>,
    loc_range: Option<RangeReverseLocation>,
) -> Seq<char> {
    match loc_range {
        Some(r) => name + ": "@ + description + "\nLocation: "@ + range_text(r),
        None => name + ": "@ + description,
    }
}

/// Builds `name: description` followed by the location when known.
pub fn build_message(name: &str, description: &str, loc_range: Option<RangeReverseLocation>) -> (s:
    String)
    ensures
        s@ == message_text(name@, description@, loc_range),
{
    let mut s = String::from_str(name);
    s.append(": ");
    s.append(description);
    match loc_range {
        Some(r) => {
            s.append("\nLocation: ");
            let t = r.to_string();
            s.append(t.as_str());
        },
        None => {},
    }
    s
}

/// A kind of error that the interpreter can raise.
pub trait ErrorMessage: Sized {
    /// Name of this kind of error.
    spec fn spec_name(&self) -> Seq<char>;

    /// Text that describes this error.
    spec fn spec_description(&self) -> Seq<char>;

    fn name(&self) -> (r: &'static str)
        ensures
            r@ == self.spec_name(),
    ;

    fn description(&self) -> (r: String)
        ensures
            r@ == self.spec_description(),
    ;

    /// The error as a result that failed.
    fn raise<T>(self) -> (r: Result<T, Error>)
        ensures
            r is Err,
            r->Err_0@ == (ErrorView {
                loc_range: None,
                name: self.spec_name(),
                description: self.spec_description(),
            }),
    {
        let d = self.description();
        Err(Error::from_parts(self.name(), d))
    }

    /// The message of this error, with its location when known.
    fn get_message(&self, loc_range: Option<RangeReverseLocation>) -> (r: String)
        ensures
            r@ == message_text(self.spec_name(), self.spec_description(), loc_range),
    {
        let d = self.description();
        build_message(self.name(), d.as_str(), loc_range)
    }
}

/// What an error holds: where it happened, and its name and description.
pub struct ErrorView {
    pub loc_range: Option<RangeReverseLocation>,
    pub name: Seq<char>,
    pub description: Seq<char>,
}

/// An error raised while interpreting a program.
#[derive(Clone)]
pub struct Error {
    loc_range: Option<RangeReverseLocation>,
    name: String,
    description: String,
}

impl View for Error {
    type V = ErrorView;

    closed spec fn view(&self) -> ErrorView {
        ErrorView {
            loc_range: self.loc_range,
            name: self.name@,
            description: self.description@,
        }
    }
}

impl Error {
    pub fn new<M: ErrorMessage>(error_type: M) -> (e: Self)
        ensures
            e@ == (ErrorView {
                loc_range: None,
                name: error_type.spec_name(),
                description: error_type.spec_description(),
            }),
    {
        let d = error_type.description();
        Self::from_parts(error_type.name(), d)
    }

    /// An error with the given name and description, and no location yet.
    pub(crate) fn from_parts(name: &str, description: String) -> (e: Self)
        ensures
            e@ == (ErrorView { loc_range: None, name: name@, description: description@ }),
    {
        Self { loc_range: None, name: String::from_str(name), description }
    }

    pub fn get_message(&self) -> (r: String)
        ensures
            r@ == message_text(self@.name, self@.description, self@.loc_range),
    {
        build_message(self.name.as_str(), self.description.as_str(), self.loc_range)
    }

    /// Records where the error happened, unless a location is already known.
    pub fn set_loc_range(&mut self, loc_range: &RangeReverseLocation)
        ensures
            final(self)@ == (ErrorView {
                loc_range: if old(self)@.loc_range is None {
                    Some(*loc_range)
                } else {
                    old(self)@.loc_range
                },
                ..old(self)@
            }),
    {
        if self.loc_range.is_none() {
            self.loc_range = Some(*loc_range);
        }
    }
}

/// A functionality that the interpreter does not support.
pub struct UnsupportedError {
    pub functionality: &'static str,
}

impl ErrorMessage for UnsupportedError {
    open spec fn spec_name(&self) -> Seq<char> {
        "UnsupportedError"@
    }

    open spec fn spec_description(&self) -> Seq<char> {
        "The functionality '"@ + self.functionality@ + "' is not supported"@
    }

    fn name(&self) -> (r: &'static str) {
        "UnsupportedError"
    }

    fn description(&self) -> (r: String) {
        let mut s = String::from_str("The functionality '");
        s.append(self.functionality);
        s.append("' is not supported");
        s
    }
}

/// Description of a refused assignment with `op` to the variable named `name`.
pub open spec fn assignment_description(op: AssignmentOperator, name: Seq<char>) -> Seq<char> {
    match op {
        AssignmentOperator::Define => "You can't define a variable that already exists: '"@ + name
            + "'"@,
        AssignmentOperator::Reassign => "You can't reassign a variable that is not defined: '"@ + name
            + "'"@,
        AssignmentOperator::Push => "You can't push a value to a variable that is not defined: '"@
            + name + "'"@,
    }
}

/// A variable assigned in a way that its state does not allow.
pub struct AssignmentError {
    pub variable_name: String,
    pub assignment_operator: AssignmentOperator,
}

impl ErrorMessage for AssignmentError {
    open spec fn spec_name(&self) -> Seq<char> {
        "AssignmentError"@
    }

    open spec fn spec_description(&self) -> Seq<char> {
        assignment_description(self.assignment_operator, self.variable_name@)
    }

    fn name(&self) -> (r: &'static str) {
        "AssignmentError"
    }

    fn description(&self) -> (r: String) {
        let mut s = match self.assignment_operator {
            AssignmentOperator::Define => String::from_str(
                "You can't define a variable that already exists: '",
            ),
            AssignmentOperator::Reassign => String::from_str(
                "You can't reassign a variable that is not defined: '",
            ),
            AssignmentOperator::Push => String::from_str(
                "You can't push a value to a variable that is not defined: '",
            ),
        };
        s.append(self.variable_name.as_str());
        s.append("'");
        s
    }
}

/// A variable read before it was defined.
pub struct UndefinedError {
    pub variable_name: String,
}

impl ErrorMessage for UndefinedError {
    open spec fn spec_name(&self) -> Seq<char> {
        "UndefinedError"@
    }

    open spec fn spec_description(&self) -> Seq<char> {
        "The variable '"@ + self.variable_name@ + "' is not defined"@
    }

    fn name(&self) -> (r: &'static str) {
        "UndefinedError"
    }

    fn description(&self) -> (r: String) {
        let mut s = String::from_str("The variable '");
        s.append(self.variable_name.as_str());
        s.append("' is not defined");
        s
    }
}

/// A unit label that the unit dictionary does not hold.
pub struct UnfoundUnitError {
    pub unit_name: String,
}

impl ErrorMessage for UnfoundUnitError {
    open spec fn spec_name(&self) -> Seq<char> {
        "UnfoundUnitError"@
    }

    open spec fn spec_description(&self) -> Seq<char> {
        "The unit '"@ + self.unit_name@ + "' is not found"@
    }

    fn name(&self) -> (r: &'static str) {
        "UnfoundUnitError"
    }

    fn description(&self) -> (r: String) {
        let mut s = String::from_str("The unit '");
        s.append(self.unit_name.as_str());
        s.append("' is not found");
        s
    }
}

/// Two quantities whose dimensions differ; the dimensions are given by their display text.
pub struct DimensionMismatchError {
    pub unit_a: String,
    pub unit_b: String,
}

impl ErrorMessage for DimensionMismatchError {
    open spec fn spec_name(&self) -> Seq<char> {
        "DimensionMismatchError"@
    }

    open spec fn spec_description(&self) -> Seq<char> {
        "The units '"@ + self.unit_a@ + "' and '"@ + self.unit_b@ + "' do not match"@
    }

    fn name(&self) -> (r: &'static str) {
        "DimensionMismatchError"
    }

    fn description(&self) -> (r: String) {
        let mut s = String::from_str("The units '");
        s.append(self.unit_a.as_str());
        s.append("' and '");
        s.append(self.unit_b.as_str());
        s.append("' do not match");
        s
    }
}

/// An input that an operation cannot take.
pub struct InvalidInputError {
    pub message: String,
}

impl ErrorMessage for InvalidInputError {
    open spec fn spec_name(&self) -> Seq<char> {
        "InvalidInputError"@
    }

    open spec fn spec_description(&self) -> Seq<char> {
        "'"@ + self.message@ + "'"@
    }

    fn name(&self) -> (r: &'static str) {
        "InvalidInputError"
    }

    fn description(&self) -> (r: String) {
        let mut s = String::from_str("'");
        s.append(self.message.as_str());
        s.append("'");
        s
    }
}

} // verus!
