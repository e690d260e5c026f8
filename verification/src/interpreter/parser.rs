use vstd::prelude::*;

use crate::interpreter::ast::location::{LocationIndex, RangeIndex};
use crate::lexer::{LexicalError, Token};
use crate::text::chars_of;

verus! {

/// Index (in characters) where each line of `s` starts: 0, then the index after each line
/// feed.
pub open spec fn line_starts(s: Seq<char>) -> Seq<int>
    decreases s.len(),
{
    if s.len() == 0 {
        seq![0]
    } else if s.last() == '\n' {
        line_starts(s.drop_last()).push(s.len() as int)
    } else {
        line_starts(s.drop_last())
    }
}

/// Index (in characters) where each line of `input` starts.
pub fn get_lines_pos(input: &str) -> (r: Vec<usize>)
    ensures
        r@.len() == line_starts(input@).len(),
        forall|k: int| 0 <= k < r@.len() ==> #[trigger] r@[k] as int == line_starts(input@)[k],
{
    let chars = chars_of(input);
    let ghost s = input@;
    let mut lines_index: Vec<usize> = Vec::new();
    lines_index.push(0);
    let mut i: usize = 0;
    assert(s.take(0) =~= Seq::<char>::empty());
    while i < chars.len()
        invariant
            chars@ == s,
            i <= s.len(),
            lines_index@.len() == line_starts(s.take(i as int)).len(),
            forall|k: int|
                0 <= k < lines_index@.len() ==> #[trigger] lines_index@[k] as int == line_starts(
                    s.take(i as int),
                )[k],
        decreases s.len() - i,
    {
        assert(s.take(i + 1).drop_last() =~= s.take(i as int));
        if chars[i] == '\n' {
            lines_index.push(i + 1);
        }
        i += 1;
    }
    assert(s.take(s.len() as int) =~= s);
    lines_index
}

/// Where a program could not be parsed.
#[derive(Debug, Clone, Copy)]
pub struct ErrorLocation {
    pub loc_range: RangeIndex,
}

/// Why a program could not be parsed, as the parser reports it: positions are byte offsets,
/// tokens come with the offsets where they start and end.
#[derive(Debug)]
pub enum ParseError {
    InvalidToken { location: usize },
    UnrecognizedEof { location: usize, expected: Vec<String> },
    UnrecognizedToken { token: (usize, Token, usize), expected: Vec<String> },
    ExtraToken { token: (usize, Token, usize) },
    User { error: (usize, LexicalError, usize) },
}

/// The range of text that a parse error points at.
pub open spec fn error_range(error: ParseError) -> (usize, usize) {
    match error {
        ParseError::InvalidToken { location } => (location, location),
        ParseError::UnrecognizedEof { location, .. } => (location, location),
        ParseError::UnrecognizedToken { token, .. } => (token.0, token.2),
        ParseError::ExtraToken { token } => (token.0, token.2),
        ParseError::User { error } => (error.0, error.2),
    }
}

/// Where a parse error points: a single position where the parser stopped, or the span of
/// the token or lexical error it names.
pub fn get_error_location(error: &ParseError) -> (r: ErrorLocation)
    ensures
        r.loc_range.start.index == error_range(*error).0,
        r.loc_range.end.index == error_range(*error).1,
{
    match error {
        ParseError::InvalidToken { location } => ErrorLocation {
            loc_range: RangeIndex::new(*location, *location),
        },
        ParseError::UnrecognizedEof { location, .. } => ErrorLocation {
            loc_range: RangeIndex::new(*location, *location),
        },
        ParseError::UnrecognizedToken { token, .. } => ErrorLocation {
            loc_range: RangeIndex::new(token.0, token.2),
        },
        ParseError::ExtraToken { token } => ErrorLocation {
            loc_range: RangeIndex::new(token.0, token.2),
        },
        ParseError::User { error } => ErrorLocation { loc_range: RangeIndex::new(error.0, error.2) },
    }
}

} // verus!
