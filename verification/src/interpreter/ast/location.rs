use vstd::prelude::*;

use crate::text::{decimal, push_char, push_decimal, usize_to_string};

verus! {

/// A position in the source text.
#[derive(Debug, Clone, Copy, PartialEq, Eq, Structural)]
pub struct LocationIndex {
    pub index: usize,
}

/// A range of positions in the source text.
#[derive(Debug, Clone, Copy, PartialEq, Eq, Structural)]
pub struct RangeIndex {
    pub start: LocationIndex,
    pub end: LocationIndex,
}

/// A position given as block, line and column.
#[derive(Debug, Clone, Copy, PartialEq, Eq, Structural, PartialOrd, Ord)]
pub struct ReverseLocation {
    pub block: usize,
    pub line: usize,
    pub column: usize,
}

/// A range given as two block/line/column positions.
#[derive(Debug, Clone, Copy, PartialEq, Eq, Structural)]
pub struct RangeReverseLocation {
    pub start: ReverseLocation,
    pub end: ReverseLocation,
}

/// The entries of `s` never decrease.
pub open spec fn sorted(s: Seq<usize>) -> bool {
    forall|i: int, j: int| 0 <= i <= j < s.len() ==> s[i] <= s[j]
}

/// `line` starts at or before `index`, and the next line, if any, after it (for line starts
/// in increasing order: the last line start at or before `index`).
pub open spec fn is_line_of(lines: Seq<usize>, index: usize, line: int) -> bool {
    &&& 0 <= line < lines.len()
    &&& lines[line] <= index
    &&& line + 1 < lines.len() ==> index < lines[line + 1]
}

/// For line starts in increasing order, one line at most holds a position: the line that
/// `rev_pos` gives is then the only one.
pub proof fn lemma_line_unique(lines: Seq<usize>, index: usize, a: int, b: int)
    requires
        sorted(lines),
        is_line_of(lines, index, a),
        is_line_of(lines, index, b),
    ensures
        a == b,
{
    if a < b {
        assert(lines[a + 1] <= lines[b]);
    } else if b < a {
        assert(lines[b + 1] <= lines[a]);
    }
}

/// `index` can be placed on a line of `lines` (it is at or after the first line start).
pub open spec fn locatable(lines: Seq<usize>, index: usize) -> bool {
    &&& lines.len() > 0
    &&& lines[0] <= index
}

/// The block/line/column position of `index`, given the positions where lines start.
pub open spec fn reverse_of(block: usize, lines: Seq<usize>, index: usize, r: ReverseLocation) -> bool {
    &&& r.block == block
    &&& is_line_of(lines, index, r.line as int)
    &&& r.column == index - lines[r.line as int]
}

/// Text of a position: `block:line:column`.
pub open spec fn location_text(r: ReverseLocation) -> Seq<char> {
    decimal(r.block as nat) + seq![':'] + decimal(r.line as nat) + seq![':'] + decimal(
        r.column as nat,
    )
}

/// Text of a range: `start..end`.
pub open spec fn range_text(r: RangeReverseLocation) -> Seq<char> {
    location_text(r.start) + seq!['.', '.'] + location_text(r.end)
}

impl RangeIndex {
    pub fn new(start: usize, end: usize) -> (r: Self)
        ensures
            r.start.index == start,
            r.end.index == end,
    {
        Self { start: LocationIndex::from_index(start), end: LocationIndex::from_index(end) }
    }

    /// Converts both ends of the range to block/line/column positions.
    pub fn rev_pos(&self, block: usize, lines_index: &[usize]) -> (r: RangeReverseLocation)
        requires
            locatable(lines_index@, self.start.index),
            locatable(lines_index@, self.end.index),
        ensures
            reverse_of(block, lines_index@, self.start.index, r.start),
            reverse_of(block, lines_index@, self.end.index, r.end),
    {
        RangeReverseLocation {
            start: self.start.rev_pos(block, lines_index),
            end: self.end.rev_pos(block, lines_index),
        }
    }
}

impl LocationIndex {
    pub fn from_index(index: usize) -> (r: Self)
        ensures
            r.index == index,
    {
        Self { index }
    }

    /// Finds the line of this position by binary search over the line starts `lines_pos`.
    pub fn rev_pos(&self, block: usize, lines_pos: &[usize]) -> (r: ReverseLocation)
        requires
            locatable(lines_pos@, self.index),
        ensures
            reverse_of(block, lines_pos@, self.index, r),
    {
        let mut start: usize = 0;
        let mut end: usize = lines_pos.len();
        while start < end
            invariant
                0 <= start <= end <= lines_pos@.len(),
                locatable(lines_pos@, self.index),
                start > 0 ==> lines_pos@[start - 1] <= self.index,
                end < lines_pos@.len() ==> lines_pos@[end as int] > self.index,
            decreases end - start,
        {
            let mid = start + (end - start) / 2;
            if lines_pos[mid] <= self.index {
                start = mid + 1;
            } else {
                end = mid;
            }
        }
        let line = start - 1;
        let column = self.index - lines_pos[line];
        ReverseLocation { block, line, column }
    }
}

impl ReverseLocation {
    /// The text `block:line:column`.
    pub fn to_string(&self) -> (s: String)
        ensures
            s@ == location_text(*self),
    {
        let mut s = usize_to_string(self.block);
        push_char(&mut s, ':');
        push_decimal(&mut s, self.line);
        push_char(&mut s, ':');
        push_decimal(&mut s, self.column);
        assert(s@ =~= location_text(*self));
        s
    }
}

impl RangeReverseLocation {
    /// The text `start..end`.
    pub fn to_string(&self) -> (s: String)
        ensures
            s@ == range_text(*self),
    {
        let mut s = self.start.to_string();
        push_char(&mut s, '.');
        push_char(&mut s, '.');
        let e = self.end.to_string();
        s.append(e.as_str());
        assert(s@ =~= range_text(*self));
        s
    }
}

} // verus!
