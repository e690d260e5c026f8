use vstd::prelude::*;

use crate::editor::cursor::{CURSOR_BEGIN_MARKER, CURSOR_END_MARKER};
use crate::editor::stylization::{balise_at, overlays_at, positions, GhostOverlayIndex, Stylization};
use crate::interpreter::scope::output::{Output, OutputCollector};
use crate::number::{lemma_decimal_reads_back, parse_integer, parse_integer_spec};
use crate::text::{byte_len, copy_range, decimal, push_decimal, char_width, char_width_exec, chars_of, lemma_byte_len_concat, lemma_byte_len_encode, lemma_byte_len_push, push_char, push_chars};

verus! {

/// Opens the number of a ghost overlay, in text read back from the editor.
pub const OVERLAYS_BEGIN_MARKER: char = '\u{e003}';

/// Closes the number of a ghost overlay, in text read back from the editor.
pub const OVERLAYS_END_MARKER: char = '\u{e004}';

/// Index of the first `c` in `s` at or after `from`.
pub open spec fn find_from(s: Seq<char>, c: char, from: int) -> Option<int>
    decreases s.len() - from,
{
    if from < 0 || from >= s.len() {
        None
    } else if s[from] == c {
        Some(from)
    } else {
        find_from(s, c, from + 1)
    }
}

pub proof fn lemma_find_from(s: Seq<char>, c: char, from: int)
    requires
        0 <= from,
    ensures
        find_from(s, c, from) matches Some(i) ==> from <= i < s.len() && s[i] == c && forall|
            j: int,
        | from <= j < i ==> s[j] != c,
        find_from(s, c, from) is None ==> forall|j: int| from <= j < s.len() ==> s[j] != c,
    decreases s.len() - from,
{
    if from < s.len() && s[from] != c {
        lemma_find_from(s, c, from + 1);
    }
}

/// Searching a suffix is searching the whole from further on.
pub proof fn lemma_find_skip(s: Seq<char>, c: char, a: int, k: int)
    requires
        0 <= a <= s.len(),
        0 <= k,
    ensures
        find_from(s.skip(a), c, k) == (match find_from(s, c, a + k) {
            Some(i) => Some(i - a),
            None => None,
        }),
    decreases s.len() - (a + k),
{
    if a + k < s.len() && s[a + k] != c {
        lemma_find_skip(s, c, a, k + 1);
    }
}

/// Bytes of `s` that are not cursor markers.
pub open spec fn visible_len(s: Seq<char>) -> nat
    decreases s.len(),
{
    if s.len() == 0 {
        0
    } else {
        visible_len(s.drop_last()) + if s.last() == CURSOR_BEGIN_MARKER || s.last()
            == CURSOR_END_MARKER {
            0
        } else {
            char_width(s.last())
        }
    }
}

/// The number of the overlay written between `b` and `e`.
pub open spec fn overlay_number(s: Seq<char>, b: int, e: int) -> Option<int> {
    parse_integer_spec(s.subrange(b + 1, e), 10, 0, usize::MAX as int)
}

/// `s` without its overlay markers, and the overlays found, each with its position (bytes
/// kept before it, not counting cursor markers, plus `offset`) and its number.
pub open spec fn overlay_scan(s: Seq<char>, offset: nat) -> (Seq<char>, Seq<(nat, nat)>)
    decreases s.len(),
{
    match find_from(s, OVERLAYS_BEGIN_MARKER, 0) {
        None => (s, Seq::empty()),
        Some(b) => match find_from(s, OVERLAYS_END_MARKER, b) {
            None => (s, Seq::empty()),
            Some(e) => {
                proof {
                    lemma_find_from(s, OVERLAYS_BEGIN_MARKER, 0);
                    lemma_find_from(s, OVERLAYS_END_MARKER, b);
                }
                let head = s.take(b);
                let pos = offset + visible_len(head);
                let number = match overlay_number(s, b, e) {
                    Some(v) => v as nat,
                    None => 0,
                };
                let rest = overlay_scan(s.skip(e + 1), pos);
                (head + rest.0, seq![(pos, number)] + rest.1)
            },
        },
    }
}

/// Every overlay number in `s` can be read.
pub open spec fn overlay_numbers_valid(s: Seq<char>) -> bool
    decreases s.len(),
{
    match find_from(s, OVERLAYS_BEGIN_MARKER, 0) {
        None => true,
        Some(b) => match find_from(s, OVERLAYS_END_MARKER, b) {
            None => true,
            Some(e) => {
                proof {
                    lemma_find_from(s, OVERLAYS_BEGIN_MARKER, 0);
                    lemma_find_from(s, OVERLAYS_END_MARKER, b);
                }
                overlay_number(s, b, e) is Some && overlay_numbers_valid(s.skip(e + 1))
            },
        },
    }
}

/// `loc` holds the overlays marked in `text`: their positions and numbers, in order.
pub open spec fn overlays_read(loc: Seq<(usize, usize)>, text: Seq<char>) -> bool {
    &&& loc.len() == overlay_scan(text, 0).1.len()
    &&& forall|i: int|
        0 <= i < loc.len() ==> (#[trigger] loc[i]).0 as nat == overlay_scan(text, 0).1[i].0
            && loc[i].1 as nat == overlay_scan(text, 0).1[i].1
}

/// `loc` places the overlay of each output, in order, where its output came from.
pub open spec fn overlays_of(loc: Seq<(usize, usize)>, outputs: Seq<Output>) -> bool {
    &&& loc.len() == outputs.len()
    &&& forall|i: int|
        0 <= i < loc.len() ==> #[trigger] loc[i] == (outputs[i].initial_location.index, outputs[i].index)
}

/// Removing the overlay markers leaves no more bytes than there were.
pub proof fn lemma_overlay_scan_bytes(s: Seq<char>, offset: nat)
    ensures
        byte_len(overlay_scan(s, offset).0) <= byte_len(s),
    decreases s.len(),
{
    match find_from(s, OVERLAYS_BEGIN_MARKER, 0) {
        None => {},
        Some(b) => match find_from(s, OVERLAYS_END_MARKER, b) {
            None => {},
            Some(e) => {
                lemma_find_from(s, OVERLAYS_BEGIN_MARKER, 0);
                lemma_find_from(s, OVERLAYS_END_MARKER, b);
                let head = s.take(b);
                let pos = offset + visible_len(head);
                let tail = s.skip(e + 1);
                lemma_overlay_scan_bytes(tail, pos);
                lemma_byte_len_concat(head, overlay_scan(tail, pos).0);
                lemma_byte_len_concat(head, s.subrange(b, e + 1));
                lemma_byte_len_concat(head + s.subrange(b, e + 1), tail);
                assert(head + s.subrange(b, e + 1) + tail =~= s);
            },
        },
    }
}

/// `s` holds no overlay marker and no cursor marker.
pub open spec fn no_marker(s: Seq<char>) -> bool {
    forall|i: int|
        0 <= i < s.len() ==> #[trigger] s[i] != OVERLAYS_BEGIN_MARKER && s[i] != OVERLAYS_END_MARKER
            && s[i] != CURSOR_BEGIN_MARKER && s[i] != CURSOR_END_MARKER
}

proof fn lemma_visible_len_plain(s: Seq<char>)
    requires
        no_marker(s),
    ensures
        visible_len(s) == byte_len(s),
    decreases s.len(),
{
    if s.len() > 0 {
        assert(no_marker(s.drop_last()));
        lemma_visible_len_plain(s.drop_last());
    }
}

proof fn lemma_scan_plain(s: Seq<char>, offset: nat)
    requires
        no_marker(s),
    ensures
        overlay_scan(s, offset) == (s, Seq::<(nat, nat)>::empty()),
{
    lemma_find_from(s, OVERLAYS_BEGIN_MARKER, 0);
}

/// What a text marked with an overlay gives back: for a text `t` without markers, a
/// character index `a` and an overlay number `n`, writing the overlay's markers and number
/// before character `a` and reading the overlays back gives `t` and the one overlay `n` at
/// byte `a` of `t`.
pub proof fn lemma_overlay_round_trip(t: Seq<char>, a: int, n: usize)
    requires
        no_marker(t),
        0 <= a <= t.len(),
    ensures
        ({
            let marked = t.take(a) + seq![OVERLAYS_BEGIN_MARKER] + decimal(n as nat) + seq![
                OVERLAYS_END_MARKER,
            ] + t.skip(a);
            &&& overlay_numbers_valid(marked)
            &&& overlay_scan(marked, 0) == (t, seq![(byte_len(t.take(a)), n as nat)])
        }),
{
    let t1 = t.take(a);
    let t2 = t.skip(a);
    let d = decimal(n as nat);
    let marked = t1 + seq![OVERLAYS_BEGIN_MARKER] + d + seq![OVERLAYS_END_MARKER] + t2;
    lemma_decimal_reads_back(n as nat);
    let b = a;
    let e = a + 1 + d.len();
    assert(marked[b] == OVERLAYS_BEGIN_MARKER);
    assert(marked[e] == OVERLAYS_END_MARKER);
    lemma_find_from(marked, OVERLAYS_BEGIN_MARKER, 0);
    match find_from(marked, OVERLAYS_BEGIN_MARKER, 0) {
        Some(i) => {
            if i < b {
                assert(marked[i] == t[i]);
            }
        },
        None => {
            assert(marked[b] != OVERLAYS_BEGIN_MARKER);
        },
    }
    assert(find_from(marked, OVERLAYS_BEGIN_MARKER, 0) == Some(b));
    lemma_find_from(marked, OVERLAYS_END_MARKER, b);
    match find_from(marked, OVERLAYS_END_MARKER, b) {
        Some(i) => {
            if i < e {
                if i > b {
                    assert(marked[i] == d[i - b - 1]);
                }
            }
        },
        None => {
            assert(marked[e] != OVERLAYS_END_MARKER);
        },
    }
    assert(find_from(marked, OVERLAYS_END_MARKER, b) == Some(e));
    assert(marked.subrange(b + 1, e) =~= d);
    assert(marked.take(b) =~= t1);
    assert(marked.skip(e + 1) =~= t2);
    assert(no_marker(t1));
    assert(no_marker(t2));
    lemma_visible_len_plain(t1);
    lemma_scan_plain(t2, byte_len(t1));
    lemma_find_from(t2, OVERLAYS_BEGIN_MARKER, 0);
    assert(overlay_numbers_valid(t2));
    assert(t1 + t2 =~= t);
    assert(seq![(byte_len(t1), n as nat)] + Seq::<(nat, nat)>::empty() =~= seq![(byte_len(t1), n as nat)]);
}

/// Numbers of the overlays of `loc` (its first `n` entries) placed at position `p`, in order.
pub open spec fn overlays_placed(loc: Seq<(usize, usize)>, n: int, p: usize) -> Seq<GhostOverlayIndex>
    decreases n,
{
    if n <= 0 {
        Seq::empty()
    } else if loc[n - 1].0 == p {
        overlays_placed(loc, n - 1, p).push(GhostOverlayIndex { index: loc[n - 1].1 })
    } else {
        overlays_placed(loc, n - 1, p)
    }
}

/// What the editor writes in place of the ghost overlay `index` before reading its text back:
/// the begin marker, the number, the end marker.
pub open spec fn overlay_marker_text(index: usize) -> Seq<char> {
    seq![OVERLAYS_BEGIN_MARKER] + decimal(index as nat) + seq![OVERLAYS_END_MARKER]
}

/// The text that stands for the ghost overlay `index` while the editor's text is read.
pub fn overlay_marker(index: usize) -> (r: String)
    ensures
        r@ == overlay_marker_text(index),
{
    let mut s = String::new();
    push_char(&mut s, OVERLAYS_BEGIN_MARKER);
    push_decimal(&mut s, index);
    push_char(&mut s, OVERLAYS_END_MARKER);
    assert(s@ =~= overlay_marker_text(index));
    s
}

/// `sep` is found in `s` at `i`.
pub open spec fn found_at(s: Seq<char>, sep: Seq<char>, i: int) -> bool {
    0 <= i && i + sep.len() <= s.len() && s.subrange(i, i + sep.len()) == sep
}

/// First place at or after `from` where `sep` is found in `s`.
pub open spec fn find_text(s: Seq<char>, sep: Seq<char>, from: int) -> Option<int>
    decreases s.len() - from,
{
    if from < 0 || from >= s.len() || from + sep.len() > s.len() {
        None
    } else if found_at(s, sep, from) {
        Some(from)
    } else {
        find_text(s, sep, from + 1)
    }
}

pub proof fn lemma_find_text(s: Seq<char>, sep: Seq<char>, from: int)
    requires
        0 <= from,
    ensures
        find_text(s, sep, from) matches Some(i) ==> from <= i && found_at(s, sep, i),
    decreases s.len() - from,
{
    if from < s.len() && from + sep.len() <= s.len() && !found_at(s, sep, from) {
        lemma_find_text(s, sep, from + 1);
    }
}

/// The last piece of `s` cut at each `sep` (a text that is not empty), reading from `from`:
/// what follows the last `sep`, or all of it from `from` when there is none.
pub open spec fn last_piece(s: Seq<char>, sep: Seq<char>, from: int) -> Seq<char>
    decreases s.len() - from,
{
    match find_text(s, sep, from) {
        Some(i) => {
            proof {
                lemma_find_text(s, sep, from);
            }
            if sep.len() > 0 && from >= 0 {
                last_piece(s, sep, i + sep.len())
            } else {
                s.skip(from)
            }
        },
        None => s.skip(from),
    }
}

fn found_at_exec(s: &Vec<char>, sep: &Vec<char>, i: usize) -> (r: bool)
    requires
        i <= s@.len(),
    ensures
        r == found_at(s@, sep@, i as int),
{
    if sep.len() > s.len() - i {
        return false;
    }
    let mut k: usize = 0;
    while k < sep.len()
        invariant
            i + sep@.len() <= s@.len(),
            i + sep.len() <= s.len(),
            k <= sep@.len(),
            forall|m: int| 0 <= m < k ==> s@[i + m] == sep@[m],
        decreases sep.len() - k,
    {
        if s[i + k] != sep[k] {
            assert(s@.subrange(i as int, i + sep@.len())[k as int] != sep@[k as int]);
            return false;
        }
        k += 1;
    }
    assert(s@.subrange(i as int, i + sep@.len()) =~= sep@);
    true
}

/// The number that ends a class name after the last `prefix` (a text that is not empty), as
/// `usize` parsing reads it.
pub fn class_index(class_name: &str, prefix: &str) -> (r: Option<usize>)
    requires
        prefix@.len() > 0,
    ensures
        r matches Some(v) ==> parse_integer_spec(last_piece(class_name@, prefix@, 0), 10, 0, usize::MAX as int)
            == Some(v as int),
        r is None ==> parse_integer_spec(last_piece(class_name@, prefix@, 0), 10, 0, usize::MAX as int) is None,
{
    let s = chars_of(class_name);
    let sep = chars_of(prefix);
    let ghost t = class_name@;
    let ghost p = prefix@;
    let mut from: usize = 0;
    let mut i: usize = 0;
    while i < s.len()
        invariant
            s@ == t,
            sep@ == p,
            p.len() > 0,
            from <= i <= t.len(),
            last_piece(t, p, 0) == last_piece(t, p, from as int),
            find_text(t, p, from as int) == find_text(t, p, i as int),
        decreases t.len() - i,
    {
        if found_at_exec(&s, &sep, i) {
            proof {
                lemma_find_text(t, p, from as int);
            }
            from = i + sep.len();
            i = from;
        } else {
            i += 1;
        }
    }
    proof {
        lemma_find_text(t, p, i as int);
        assert(find_text(t, p, i as int) is None);
    }
    let piece = copy_range(&s, from, s.len());
    assert(piece@ =~= t.skip(from as int));
    match parse_integer(piece.as_slice(), 10, 0, usize::MAX as i128) {
        Some(v) => Some(v as usize),
        None => None,
    }
}

/// The positions of the first `n` overlays of `loc`.
pub open spec fn overlay_positions(loc: Seq<(usize, usize)>, n: int) -> Set<usize>
    decreases n,
{
    if n <= 0 {
        Set::empty()
    } else {
        overlay_positions(loc, n - 1).insert(loc[n - 1].0)
    }
}

/// Where the ghost overlays sit in the text: (position, overlay number).
#[derive(Debug)]
pub struct OverlaysLocation {
    pub location: Vec<(usize, usize)>,
}

fn find_char(s: &Vec<char>, c: char, from: usize) -> (r: Option<usize>)
    requires
        from <= s@.len(),
    ensures
        r matches Some(i) ==> find_from(s@, c, from as int) == Some(i as int),
        r is None ==> find_from(s@, c, from as int) is None,
{
    let mut i = from;
    while i < s.len()
        invariant
            from <= i <= s@.len(),
            find_from(s@, c, from as int) == find_from(s@, c, i as int),
        decreases s.len() - i,
    {
        if s[i] == c {
            return Some(i);
        }
        i += 1;
    }
    None
}

/// Appends `s[last..b]` to `out` and adds its visible bytes to `visible`.
fn copy_head(out: &mut String, chars: &Vec<char>, last: usize, b: usize, visible: usize, total: usize) -> (r: usize)
    requires
        last <= b < chars@.len(),
        total == byte_len(chars@),
        byte_len(chars@.take(last as int)) <= total,
        visible <= byte_len(chars@.take(last as int)),
    ensures
        final(out)@ == old(out)@ + chars@.subrange(last as int, b as int),
        r == visible + visible_len(chars@.subrange(last as int, b as int)),
        r <= byte_len(chars@.take(b as int)),
{
    let ghost s = chars@;
    let ghost ns0 = out@;
    let mut visible = visible;
    let ghost vis0 = visible;
    let mut j = last;
    assert(s.subrange(last as int, last as int) =~= Seq::<char>::empty());
    while j < b
        invariant
            last <= j <= b < s.len(),
            chars@ == s,
            total == byte_len(s),
            byte_len(s.take(j as int)) <= total,
            visible <= byte_len(s.take(j as int)),
            out@ == ns0 + s.subrange(last as int, j as int),
            visible == vis0 + visible_len(s.subrange(last as int, j as int)),
        decreases b - j,
    {
        let c = chars[j];
        push_char(out, c);
        proof {
            lemma_byte_len_push(s.take(j as int), c);
            assert(s.take(j as int).push(c) =~= s.take(j + 1));
            lemma_byte_len_concat(s.take(j + 1), s.skip(j + 1));
            assert(s.take(j + 1) + s.skip(j + 1) =~= s);
            let sub = s.subrange(last as int, j + 1);
            assert(sub.drop_last() =~= s.subrange(last as int, j as int));
            assert(sub.last() == c);
        }
        if c != CURSOR_BEGIN_MARKER && c != CURSOR_END_MARKER {
            visible = visible + char_width_exec(c);
        }
        j += 1;
        assert(out@ =~= ns0 + s.subrange(last as int, j as int));
    }
    visible
}

impl OverlaysLocation {
    pub fn void() -> (r: Self)
        ensures
            r.location@.len() == 0,
    {
        Self { location: Vec::new() }
    }

    /// The overlays of the outputs of a run: each at the location its output came from.
    pub fn from_output(output: &OutputCollector) -> (r: Self)
        ensures
            r.location@.len() == output.spec_outputs().len(),
            forall|i: int|
                0 <= i < r.location@.len() ==> #[trigger] r.location@[i] == (
                    output.spec_outputs()[i].initial_location.index,
                    output.spec_outputs()[i].index,
                ),
    {
        let outputs = output.outputs();
        let mut location: Vec<(usize, usize)> = Vec::new();
        let mut i: usize = 0;
        while i < outputs.len()
            invariant
                outputs@ == output.spec_outputs(),
                i <= outputs@.len(),
                location@.len() == i,
                forall|k: int|
                    0 <= k < i ==> #[trigger] location@[k] == (
                        outputs@[k].initial_location.index,
                        outputs@[k].index,
                    ),
            decreases outputs.len() - i,
        {
            let o: &Output = &outputs[i];
            location.push((o.initial_location.index, o.index));
            i += 1;
        }
        Self { location }
    }

    /// Reads the overlay markers out of `text`: their positions and numbers, and the text
    /// without them.
    #[verifier::rlimit(40)]
    pub fn retrieve_overlays_location(text: &str) -> (r: (Self, String))
        requires
            overlay_numbers_valid(text@),
        ensures
            r.1@ == overlay_scan(text@, 0).0,
            r.0.location@.len() == overlay_scan(text@, 0).1.len(),
            forall|i: int|
                0 <= i < r.0.location@.len() ==> (#[trigger] r.0.location@[i]).0 as nat
                    == overlay_scan(text@, 0).1[i].0 && r.0.location@[i].1 as nat == overlay_scan(
                    text@,
                    0,
                ).1[i].1,
    {
        let chars = chars_of(text);
        let ghost s = text@;
        let total = text.as_bytes().len();
        let n = chars.len();
        proof {
            lemma_byte_len_encode(s);
        }
        let mut location: Vec<(usize, usize)> = Vec::new();
        let mut new_string = String::new();
        let mut last: usize = 0;
        let mut visible: usize = 0;
        assert(s.skip(0) =~= s);
        loop
            invariant
                chars@ == s,
                n == s.len(),
                total == byte_len(s),
                last <= s.len(),
                visible <= byte_len(s.take(last as int)),
                overlay_numbers_valid(s.skip(last as int)),
                new_string@ + overlay_scan(s.skip(last as int), visible as nat).0 == overlay_scan(s, 0).0,
                location@.map_values(|l: (usize, usize)| (l.0 as nat, l.1 as nat)) + overlay_scan(
                    s.skip(last as int),
                    visible as nat,
                ).1 == overlay_scan(s, 0).1,
            ensures
                overlay_scan(s.skip(last as int), visible as nat).0 == s.skip(last as int),
                overlay_scan(s.skip(last as int), visible as nat).1 == Seq::<(nat, nat)>::empty(),
            decreases s.len() - last,
        {
            let ghost rest = s.skip(last as int);
            let ghost cur = location@.map_values(|l: (usize, usize)| (l.0 as nat, l.1 as nat));
            proof {
                lemma_find_skip(s, OVERLAYS_BEGIN_MARKER, last as int, 0);
            }
            let b = match find_char(&chars, OVERLAYS_BEGIN_MARKER, last) {
                Some(b) => b,
                None => {
                    break;
                },
            };
            proof {
                lemma_find_from(s, OVERLAYS_BEGIN_MARKER, last as int);
                lemma_find_skip(s, OVERLAYS_END_MARKER, last as int, b - last);
            }
            let e = match find_char(&chars, OVERLAYS_END_MARKER, b) {
                Some(e) => e,
                None => {
                    break;
                },
            };
            proof {
                lemma_find_from(s, OVERLAYS_END_MARKER, b as int);
                lemma_find_from(rest, OVERLAYS_BEGIN_MARKER, 0);
                lemma_find_from(rest, OVERLAYS_END_MARKER, b - last);
                assert(rest.subrange(b - last + 1, e - last) =~= s.subrange(b + 1, e as int));
                assert(rest.skip(e - last + 1) =~= s.skip(e + 1));
                assert(rest.take(b - last) =~= s.subrange(last as int, b as int));
            }
            assert(find_from(rest, OVERLAYS_BEGIN_MARKER, 0) == Some(b - last));
            assert(find_from(rest, OVERLAYS_END_MARKER, b - last) == Some(e - last));
            assert(overlay_number(rest, b - last, e - last) is Some);
            let digits = crate::text::copy_range(&chars, b + 1, e);
            let number = parse_integer(&digits, 10, 0, usize::MAX as i128);
            let number = match number {
                Some(v) => v as usize,
                None => {
                    return (Self { location }, new_string);
                },
            };
            // the text before the marker
            let ghost ns0 = new_string@;
            let ghost vis0 = visible;
            proof {
                lemma_byte_len_concat(s.take(last as int), s.skip(last as int));
                assert(s.take(last as int) + s.skip(last as int) =~= s);
            }
            visible = copy_head(&mut new_string, &chars, last, b, visible, total);
            location.push((visible, number));
            proof {
                lemma_byte_len_concat(s.take(b as int), s.subrange(b as int, e + 1));
                assert(s.take(b as int) + s.subrange(b as int, e + 1) =~= s.take(e + 1));
                let now = location@.map_values(|l: (usize, usize)| (l.0 as nat, l.1 as nat));
                assert(now =~= cur.push((visible as nat, number as nat)));
                let tail = overlay_scan(s.skip(e + 1), visible as nat);
                assert(overlay_scan(rest, vis0 as nat).1 == seq![(visible as nat, number as nat)] + tail.1);
                assert(now + tail.1 =~= cur + (seq![(visible as nat, number as nat)] + tail.1));
                assert(new_string@ + tail.0 =~= ns0 + (s.subrange(last as int, b as int) + tail.0));
            }
            assert(e < n);
            last = e + 1;
        }
        proof {
            let rest = s.skip(last as int);
            assert(rest =~= s.subrange(last as int, s.len() as int));
        }
        push_chars(&mut new_string, &chars, last, chars.len());
        proof {
            let cur = location@.map_values(|l: (usize, usize)| (l.0 as nat, l.1 as nat));
            assert(cur + Seq::<(nat, nat)>::empty() =~= cur);
            assert forall|i: int| 0 <= i < location@.len() implies (#[trigger] location@[i]).0 as nat
                == overlay_scan(s, 0).1[i].0 && location@[i].1 as nat == overlay_scan(s, 0).1[i].1 by {
                assert(cur[i] == (location@[i].0 as nat, location@[i].1 as nat));
            }
        }
        (Self { location }, new_string)
    }

    /// Places each overlay back in `marking`, in order, at its position.
    pub fn restore_overlays_location(&self, marking: &mut Stylization)
        requires
            old(marking).wf(),
        ensures
            final(marking).wf(),
            forall|p: usize| balise_at(final(marking)@, p) == balise_at(old(marking)@, p),
            forall|p: usize|
                overlays_at(final(marking)@, p) == overlays_at(old(marking)@, p) + overlays_placed(
                    self.location@,
                    self.location@.len() as int,
                    p,
                ),
            positions(final(marking)@) == positions(old(marking)@).union(
                overlay_positions(self.location@, self.location@.len() as int),
            ),
    {
        let ghost m0 = marking@;
        let mut i: usize = 0;
        assert(positions(m0).union(overlay_positions(self.location@, 0)) =~= positions(m0));
        while i < self.location.len()
            invariant
                i <= self.location@.len(),
                marking.wf(),
                forall|p: usize| balise_at(marking@, p) == balise_at(m0, p),
                forall|p: usize|
                    overlays_at(marking@, p) == overlays_at(m0, p) + overlays_placed(
                        self.location@,
                        i as int,
                        p,
                    ),
                positions(marking@) == positions(m0).union(overlay_positions(self.location@, i as int)),
            decreases self.location.len() - i,
        {
            let (position, index) = self.location[i];
            let ghost before = marking@;
            marking.insert_ghost_overlay(position, GhostOverlayIndex { index });
            proof {
                assert forall|p: usize|
                    overlays_at(marking@, p) == overlays_at(m0, p) + overlays_placed(
                        self.location@,
                        i + 1,
                        p,
                    ) by {
                    if p == position {
                        assert(overlays_at(m0, p) + overlays_placed(self.location@, i as int, p).push(
                            GhostOverlayIndex { index },
                        ) =~= (overlays_at(m0, p) + overlays_placed(self.location@, i as int, p)).push(
                            GhostOverlayIndex { index },
                        ));
                    }
                }
            }
            i += 1;
        }
    }
}

/// Whether every overlay number in `text` can be read (the condition for
/// `OverlaysLocation::retrieve_overlays_location`).
pub fn overlays_readable(text: &str) -> (r: bool)
    ensures
        r == overlay_numbers_valid(text@),
{
    let chars = chars_of(text);
    let ghost s = text@;
    let n = chars.len();
    let mut last: usize = 0;
    assert(s.skip(0) =~= s);
    loop
        invariant
            chars@ == s,
            s == text@,
            n == s.len(),
            last <= s.len(),
            overlay_numbers_valid(s) == overlay_numbers_valid(s.skip(last as int)),
        decreases s.len() - last,
    {
        let ghost rest = s.skip(last as int);
        proof {
            lemma_find_skip(s, OVERLAYS_BEGIN_MARKER, last as int, 0);
        }
        let b = match find_char(&chars, OVERLAYS_BEGIN_MARKER, last) {
            Some(b) => b,
            None => {
                assert(find_from(rest, OVERLAYS_BEGIN_MARKER, 0) is None);
                return true;
            },
        };
        proof {
            lemma_find_from(s, OVERLAYS_BEGIN_MARKER, last as int);
            lemma_find_skip(s, OVERLAYS_END_MARKER, last as int, b - last);
        }
        assert(find_from(rest, OVERLAYS_BEGIN_MARKER, 0) == Some(b - last));
        let e = match find_char(&chars, OVERLAYS_END_MARKER, b) {
            Some(e) => e,
            None => {
                assert(find_from(rest, OVERLAYS_END_MARKER, b - last) is None);
                return true;
            },
        };
        proof {
            lemma_find_from(s, OVERLAYS_END_MARKER, b as int);
            lemma_find_from(rest, OVERLAYS_BEGIN_MARKER, 0);
            lemma_find_from(rest, OVERLAYS_END_MARKER, b - last);
            assert(rest.subrange(b - last + 1, e - last) =~= s.subrange(b + 1, e as int));
            assert(rest.skip(e - last + 1) =~= s.skip(e + 1));
        }
        assert(find_from(rest, OVERLAYS_END_MARKER, b - last) == Some(e - last));
        let digits = copy_range(&chars, b + 1, e);
        if parse_integer(&digits, 10, 0, usize::MAX as i128).is_none() {
            return false;
        }
        assert(e < n);
        last = e + 1;
    }
}

} // verus!
