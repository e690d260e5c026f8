use vstd::prelude::*;

use crate::lexer::fits;
use crate::text::chars_of;

verus! {

/// Number of line feeds in `s`.
pub open spec fn newlines(s: Seq<char>) -> nat
    decreases s.len(),
{
    if s.len() == 0 {
        0
    } else {
        newlines(s.drop_last()) + if s.last() == '\n' {
            1nat
        } else {
            0nat
        }
    }
}

/// Number of lines of `text`: one more than its line feeds.
pub fn line_count(text: &str) -> (r: usize)
    requires
        fits(text@),
    ensures
        r == newlines(text@) + 1,
{
    let chars = chars_of(text);
    let ghost s = text@;
    let mut count: usize = 0;
    let mut i: usize = 0;
    assert(s.take(0) =~= Seq::<char>::empty());
    while i < chars.len()
        invariant
            chars@ == s,
            fits(s),
            i <= s.len(),
            count == newlines(s.take(i as int)),
            count <= i,
        decreases s.len() - i,
    {
        assert(s.take(i + 1).drop_last() =~= s.take(i as int));
        if chars[i] == '\n' {
            count += 1;
        }
        i += 1;
    }
    assert(s.take(s.len() as int) =~= s);
    count + 1
}

} // verus!
