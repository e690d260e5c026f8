use vstd::prelude::*;

verus! {

/// A literal written in a program. A decimal number with a fraction is kept as the text
/// that was written (digits, a dot, digits, and an optional exponent).
#[derive(Debug, PartialEq, Clone)]
pub enum LiteralValue {
    Integer(i64),
    Float(String),
    String(String),
    Unit(String, i32),
    Bool(bool),
    Empty,
    Failed,
}

/// The value of a literal, with its texts as character sequences.
pub enum LiteralView {
    Integer(i64),
    Float(Seq<char>),
    String(Seq<char>),
    Unit(Seq<char>, i32),
    Bool(bool),
    Empty,
    Failed,
}

impl View for LiteralValue {
    type V = LiteralView;

    open spec fn view(&self) -> LiteralView {
        match self {
            LiteralValue::Integer(v) => LiteralView::Integer(*v),
            LiteralValue::Float(t) => LiteralView::Float(t@),
            LiteralValue::String(t) => LiteralView::String(t@),
            LiteralValue::Unit(u, e) => LiteralView::Unit(u@, *e),
            LiteralValue::Bool(b) => LiteralView::Bool(*b),
            LiteralValue::Empty => LiteralView::Empty,
            LiteralValue::Failed => LiteralView::Failed,
        }
    }
}

} // verus!
