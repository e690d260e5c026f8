use vstd::prelude::*;

use crate::editor::stylization::{balise_at, overlays_at, positions, Balise, Stylization, CURSOR_BEGIN, CURSOR_END};
use crate::text::{byte_len, char_width, char_width_exec, chars_of, lemma_byte_len_concat, lemma_byte_len_encode, push_char};

verus! {

/// Marks where a selection begins, in text read back from the editor.
pub const CURSOR_BEGIN_MARKER: char = '\u{e001}';

/// Marks where a selection ends, in text read back from the editor.
pub const CURSOR_END_MARKER: char = '\u{e002}';

/// `s` without its cursor markers: a begin marker is removed when no selection is open, and
/// an end marker when one is (`seeking_end`); other characters are kept.
pub open spec fn strip_cursor(s: Seq<char>, seeking_end: bool) -> Seq<char>
    decreases s.len(),
{
    if s.len() == 0 {
        Seq::empty()
    } else if !seeking_end && s[0] == CURSOR_BEGIN_MARKER {
        strip_cursor(s.drop_first(), true)
    } else if seeking_end && s[0] == CURSOR_END_MARKER {
        strip_cursor(s.drop_first(), false)
    } else {
        seq![s[0]] + strip_cursor(s.drop_first(), seeking_end)
    }
}

/// The selections marked in `s`, as byte offsets in the stripped text; `emitted` counts the
/// bytes kept so far and `begin` is where the open selection began.
pub open spec fn cursor_spans(s: Seq<char>, seeking_end: bool, begin: nat, emitted: nat) -> Seq<(nat, nat)>
    decreases s.len(),
{
    if s.len() == 0 {
        Seq::empty()
    } else if !seeking_end && s[0] == CURSOR_BEGIN_MARKER {
        cursor_spans(s.drop_first(), true, emitted, emitted)
    } else if seeking_end && s[0] == CURSOR_END_MARKER {
        seq![(begin, emitted)] + cursor_spans(s.drop_first(), false, begin, emitted)
    } else {
        cursor_spans(s.drop_first(), seeking_end, begin, emitted + char_width(s[0]))
    }
}

/// Classes that the first `n` selections of `cs` give to position `p`: the begin class where
/// a selection begins, the end class where one ends.
pub open spec fn cursor_marks(cs: Seq<[usize; 2]>, n: int, p: usize) -> Balise
    decreases n,
{
    if n <= 0 {
        0
    } else {
        cursor_marks(cs, n - 1, p) | (if cs[n - 1][0] == p { CURSOR_BEGIN } else { 0 }) | (
        if cs[n - 1][1] == p {
            CURSOR_END
        } else {
            0
        })
    }
}

proof fn lemma_or_assoc(a: usize, b: usize, c: usize, d: usize)
    ensures
        ((a | b) | c) | d == a | ((b | c) | d),
        a | 0 == a,
{
    assert(((a | b) | c) | d == a | ((b | c) | d)) by (bit_vector);
    assert(a | 0 == a) by (bit_vector);
}

/// One of the first `n` selections of `cs`, empty or not, begins at `p`.
pub open spec fn selection_begins_at(cs: Seq<[usize; 2]>, n: int, p: usize) -> bool {
    exists|i: int| 0 <= i < n && i < cs.len() && (#[trigger] cs[i])[0] == p
}

/// One of the first `n` selections of `cs`, empty or not, ends at `p`.
pub open spec fn selection_ends_at(cs: Seq<[usize; 2]>, n: int, p: usize) -> bool {
    exists|i: int| 0 <= i < n && i < cs.len() && (#[trigger] cs[i])[1] == p
}

/// One of the first `n` selections of `cs` begins or ends at `p`, or at the character before.
pub open spec fn selection_edge_at(cs: Seq<[usize; 2]>, n: int, p: usize) -> bool {
    exists|i: int|
        0 <= i < n && i < cs.len() && {
            let c = #[trigger] cs[i];
            p == c[0] || p == c[0] + 1 || p == c[1] || p == c[1] + 1
        }
}

proof fn lemma_or_cursor_bits(b: usize, e: usize, b1: usize, e1: usize)
    requires
        b == 0 || b == 1,
        b1 == 0 || b1 == 1,
        e == 0 || e == 2,
        e1 == 0 || e1 == 2,
    ensures
        ((b | e) | b1) | e1 == (b | b1) | (e | e1),
        (b | b1) == 0 || (b | b1) == 1,
        (b | b1) == 1 <==> (b == 1 || b1 == 1),
        (e | e1) == 0 || (e | e1) == 2,
        (e | e1) == 2 <==> (e == 2 || e1 == 2),
{
    assert(((b | e) | b1) | e1 == (b | b1) | (e | e1)) by (bit_vector)
        requires
            b == 0 || b == 1,
            b1 == 0 || b1 == 1,
            e == 0 || e == 2,
            e1 == 0 || e1 == 2,
    ;
    assert(0usize | 0usize == 0usize && 0usize | 1usize == 1usize && 1usize | 0usize == 1usize
        && 1usize | 1usize == 1usize) by (bit_vector);
    assert(0usize | 0usize == 0usize && 0usize | 2usize == 2usize && 2usize | 0usize == 2usize
        && 2usize | 2usize == 2usize) by (bit_vector);
}

/// Every selection, empty or not, gives the begin class to the position where it begins and
/// the end class to the position where it ends, and no other class to any position.
pub proof fn lemma_cursor_marks(cs: Seq<[usize; 2]>, n: int, p: usize)
    requires
        0 <= n <= cs.len(),
    ensures
        cursor_marks(cs, n, p) == (if selection_begins_at(cs, n, p) {
            CURSOR_BEGIN
        } else {
            0
        }) | (if selection_ends_at(cs, n, p) {
            CURSOR_END
        } else {
            0
        }),
    decreases n,
{
    if n <= 0 {
        assert(0usize | 0usize == 0usize) by (bit_vector);
    } else {
        lemma_cursor_marks(cs, n - 1, p);
        let b = if selection_begins_at(cs, n - 1, p) { CURSOR_BEGIN } else { 0 };
        let e = if selection_ends_at(cs, n - 1, p) { CURSOR_END } else { 0 };
        let b1 = if cs[n - 1][0] == p { CURSOR_BEGIN } else { 0 };
        let e1 = if cs[n - 1][1] == p { CURSOR_END } else { 0 };
        lemma_or_cursor_bits(b, e, b1, e1);
        if selection_begins_at(cs, n - 1, p) {
            let i = choose|i: int| 0 <= i < n - 1 && i < cs.len() && (#[trigger] cs[i])[0] == p;
            assert(cs[i][0] == p);
        }
        if cs[n - 1][0] == p {
            assert(cs[n - 1][0] == p);
        }
        if selection_begins_at(cs, n, p) {
            let i = choose|i: int| 0 <= i < n && i < cs.len() && (#[trigger] cs[i])[0] == p;
            if i < n - 1 {
                assert(selection_begins_at(cs, n - 1, p));
            }
        }
        if selection_ends_at(cs, n - 1, p) {
            let i = choose|i: int| 0 <= i < n - 1 && i < cs.len() && (#[trigger] cs[i])[1] == p;
            assert(cs[i][1] == p);
        }
        if cs[n - 1][1] == p {
            assert(cs[n - 1][1] == p);
        }
        if selection_ends_at(cs, n, p) {
            let i = choose|i: int| 0 <= i < n && i < cs.len() && (#[trigger] cs[i])[1] == p;
            if i < n - 1 {
                assert(selection_ends_at(cs, n - 1, p));
            }
        }
    }
}

/// The first `n` selections put markers exactly at the positions where one of them begins or
/// ends, and at the positions just after those.
pub proof fn lemma_cursor_positions(cs: Seq<[usize; 2]>, n: int, p: usize)
    requires
        0 <= n <= cs.len(),
        forall|i: int| 0 <= i < cs.len() ==> (#[trigger] cs[i])[0] < usize::MAX && cs[i][1] < usize::MAX,
    ensures
        cursor_positions(cs, n).contains(p) <==> selection_edge_at(cs, n, p),
    decreases n,
{
    if n > 0 {
        lemma_cursor_positions(cs, n - 1, p);
        let c = cs[n - 1];
        if selection_edge_at(cs, n - 1, p) {
            let i = choose|i: int|
                0 <= i < n - 1 && i < cs.len() && {
                    let c = #[trigger] cs[i];
                    p == c[0] || p == c[0] + 1 || p == c[1] || p == c[1] + 1
                };
            assert(selection_edge_at(cs, n, p));
        }
        if p == c[0] || p == c[0] + 1 || p == c[1] || p == c[1] + 1 {
            assert(selection_edge_at(cs, n, p));
        }
        if selection_edge_at(cs, n, p) {
            let i = choose|i: int|
                0 <= i < n && i < cs.len() && {
                    let c = #[trigger] cs[i];
                    p == c[0] || p == c[0] + 1 || p == c[1] || p == c[1] + 1
                };
            if i < n - 1 {
                assert(selection_edge_at(cs, n - 1, p));
            }
        }
    }
}

/// `cs` holds the selections marked in `text`, in order.
pub open spec fn cursor_read(cs: Seq<[usize; 2]>, text: Seq<char>) -> bool {
    &&& cs.len() == cursor_spans(text, false, 0, 0).len()
    &&& forall|i: int|
        0 <= i < cs.len() ==> (#[trigger] cs[i])[0] as nat == cursor_spans(text, false, 0, 0)[i].0
            && cs[i][1] as nat == cursor_spans(text, false, 0, 0)[i].1
}

/// The selections lie within the stripped text: no offset passes the bytes kept so far plus
/// those of the rest.
pub proof fn lemma_cursor_spans_bound(s: Seq<char>, seeking_end: bool, begin: nat, emitted: nat)
    requires
        begin <= emitted,
    ensures
        forall|i: int|
            0 <= i < cursor_spans(s, seeking_end, begin, emitted).len() ==> (#[trigger] cursor_spans(
                s,
                seeking_end,
                begin,
                emitted,
            )[i]).0 <= emitted + byte_len(s) && cursor_spans(s, seeking_end, begin, emitted)[i].1
                <= emitted + byte_len(s),
    decreases s.len(),
{
    if s.len() > 0 {
        let rest = s.drop_first();
        lemma_byte_len_concat(seq![s[0]], rest);
        assert(seq![s[0]] + rest =~= s);
        assert(seq![s[0]].drop_last() =~= Seq::<char>::empty());
        assert(byte_len(seq![s[0]]) == char_width(s[0])) by {
            assert(byte_len(Seq::<char>::empty()) == 0);
        }
        let all = cursor_spans(s, seeking_end, begin, emitted);
        if !seeking_end && s[0] == CURSOR_BEGIN_MARKER {
            lemma_cursor_spans_bound(rest, true, emitted, emitted);
            let tail = cursor_spans(rest, true, emitted, emitted);
            assert(all == tail);
            assert forall|i: int| 0 <= i < all.len() implies (#[trigger] all[i]).0 <= emitted + byte_len(s)
                && all[i].1 <= emitted + byte_len(s) by {
                assert(all[i] == tail[i]);
            }
        } else if seeking_end && s[0] == CURSOR_END_MARKER {
            lemma_cursor_spans_bound(rest, false, begin, emitted);
            let tail = cursor_spans(rest, false, begin, emitted);
            assert(all == seq![(begin, emitted)] + tail);
            assert forall|i: int| 0 <= i < all.len() implies (#[trigger] all[i]).0 <= emitted + byte_len(s)
                && all[i].1 <= emitted + byte_len(s) by {
                if i > 0 {
                    assert(all[i] == tail[i - 1]);
                }
            }
        } else {
            lemma_cursor_spans_bound(rest, seeking_end, begin, emitted + char_width(s[0]));
            let tail = cursor_spans(rest, seeking_end, begin, emitted + char_width(s[0]));
            assert(all == tail);
            assert forall|i: int| 0 <= i < all.len() implies (#[trigger] all[i]).0 <= emitted + byte_len(s)
                && all[i].1 <= emitted + byte_len(s) by {
                assert(all[i] == tail[i]);
            }
        }
    }
}

/// `s` holds no cursor marker.
pub open spec fn no_cursor_marker(s: Seq<char>) -> bool {
    forall|i: int| 0 <= i < s.len() ==> #[trigger] s[i] != CURSOR_BEGIN_MARKER && s[i] != CURSOR_END_MARKER
}

/// Text without markers is kept as it is, and moves the selections found after it by its
/// bytes.
proof fn lemma_plain_prefix(u: Seq<char>, rest: Seq<char>, seeking_end: bool, begin: nat, emitted: nat)
    requires
        no_cursor_marker(u),
    ensures
        strip_cursor(u + rest, seeking_end) == u + strip_cursor(rest, seeking_end),
        cursor_spans(u + rest, seeking_end, begin, emitted) == cursor_spans(
            rest,
            seeking_end,
            begin,
            emitted + byte_len(u),
        ),
    decreases u.len(),
{
    if u.len() == 0 {
        assert(u + rest =~= rest);
    } else {
        let tail = u.drop_first();
        lemma_plain_prefix(tail, rest, seeking_end, begin, emitted + char_width(u[0]));
        assert((u + rest).drop_first() =~= tail + rest);
        assert((u + rest)[0] == u[0]);
        assert(seq![u[0]] + (tail + strip_cursor(rest, seeking_end)) =~= u + strip_cursor(
            rest,
            seeking_end,
        ));
        lemma_byte_len_concat(seq![u[0]], tail);
        assert(seq![u[0]] + tail =~= u);
        assert(seq![u[0]].drop_last() =~= Seq::<char>::empty());
        assert(byte_len(seq![u[0]]) == char_width(u[0])) by {
            assert(byte_len(Seq::<char>::empty()) == 0);
        }
    }
}

/// What a text marked with a selection gives back: for a text `t` without markers and
/// character indices `a <= b`, marking the selection from `a` to `b` (a begin marker before
/// character `a`, an end marker before character `b`) and reading the selections back gives
/// `t` and the one selection from byte `a` to byte `b` of `t`.
pub proof fn lemma_cursor_round_trip(t: Seq<char>, a: int, b: int)
    requires
        no_cursor_marker(t),
        0 <= a <= b <= t.len(),
    ensures
        ({
            let marked = t.take(a) + seq![CURSOR_BEGIN_MARKER] + t.subrange(a, b) + seq![
                CURSOR_END_MARKER,
            ] + t.skip(b);
            &&& strip_cursor(marked, false) == t
            &&& cursor_spans(marked, false, 0, 0) == seq![
                (byte_len(t.take(a)), byte_len(t.take(b))),
            ]
        }),
{
    let t1 = t.take(a);
    let t2 = t.subrange(a, b);
    let t3 = t.skip(b);
    let tail3 = seq![CURSOR_END_MARKER] + t3;
    let tail2 = t2 + tail3;
    let tail1 = seq![CURSOR_BEGIN_MARKER] + tail2;
    let marked = t1 + seq![CURSOR_BEGIN_MARKER] + t.subrange(a, b) + seq![CURSOR_END_MARKER] + t.skip(b);
    assert(marked =~= t1 + tail1);
    assert(no_cursor_marker(t1));
    assert(no_cursor_marker(t2));
    assert(no_cursor_marker(t3));
    let e1 = byte_len(t1);
    let e2 = e1 + byte_len(t2);
    lemma_plain_prefix(t1, tail1, false, 0, 0);
    assert(tail1.drop_first() =~= tail2);
    lemma_plain_prefix(t2, tail3, true, e1, e1);
    assert(tail3.drop_first() =~= t3);
    lemma_plain_prefix(t3, Seq::<char>::empty(), false, e1, e2);
    assert(t3 + Seq::<char>::empty() =~= t3);
    assert(strip_cursor(Seq::<char>::empty(), false) =~= Seq::<char>::empty());
    assert(t1 + (t2 + (t3 + Seq::<char>::empty())) =~= t);
    lemma_byte_len_concat(t1, t2);
    assert(t1 + t2 =~= t.take(b));
    assert(cursor_spans(tail3, true, e1, e2) == seq![(e1, e2)] + cursor_spans(t3, false, e1, e2));
    assert(cursor_spans(Seq::<char>::empty(), false, e1, e2 + byte_len(t3)) =~= Seq::<(nat, nat)>::empty());
    assert(seq![(e1, e2)] + Seq::<(nat, nat)>::empty() =~= seq![(e1, e2)]);
}

/// Where the first `n` selections of `cs` put markers: at the character where each begins and
/// after it, at the character where each ends and after it.
pub open spec fn cursor_positions(cs: Seq<[usize; 2]>, n: int) -> Set<usize>
    decreases n,
{
    if n <= 0 {
        Set::empty()
    } else {
        cursor_positions(cs, n - 1).insert(cs[n - 1][0]).insert((cs[n - 1][0] + 1) as usize).insert(
            cs[n - 1][1],
        ).insert((cs[n - 1][1] + 1) as usize)
    }
}

/// The selections of the editor, as byte offsets of their begin and end in the text.
pub struct CursorState {
    pub cursor: Vec<[usize; 2]>,
}

impl CursorState {
    pub fn void() -> (r: Self)
        ensures
            r.cursor@.len() == 0,
    {
        CursorState { cursor: Vec::new() }
    }

    /// Reads the selections out of `text` and removes their markers.
    pub fn retrieve_cursor(text: &str) -> (r: (CursorState, String))
        ensures
            r.1@ == strip_cursor(text@, false),
            r.0.cursor@.len() == cursor_spans(text@, false, 0, 0).len(),
            forall|i: int|
                0 <= i < r.0.cursor@.len() ==> (#[trigger] r.0.cursor@[i])[0] as nat == cursor_spans(
                    text@,
                    false,
                    0,
                    0,
                )[i].0 && r.0.cursor@[i][1] as nat == cursor_spans(text@, false, 0, 0)[i].1,
    {
        let chars = chars_of(text);
        let ghost s = text@;
        let total = text.as_bytes().len();
        proof {
            lemma_byte_len_encode(s);
        }
        let mut cursor: Vec<[usize; 2]> = Vec::new();
        let mut new_string = String::new();
        let mut seeking_end = false;
        let mut begin: usize = 0;
        let mut emitted: usize = 0;
        let mut i: usize = 0;
        assert(s.skip(0) =~= s);
        assert(s.take(0) =~= Seq::<char>::empty());
        while i < chars.len()
            invariant
                chars@ == s,
                total == byte_len(s),
                i <= s.len(),
                begin <= emitted,
                emitted <= byte_len(s.take(i as int)),
                new_string@ + strip_cursor(s.skip(i as int), seeking_end) == strip_cursor(s, false),
                cursor@.map_values(|c: [usize; 2]| (c[0] as nat, c[1] as nat)) + cursor_spans(
                    s.skip(i as int),
                    seeking_end,
                    begin as nat,
                    emitted as nat,
                ) == cursor_spans(s, false, 0, 0),
            decreases s.len() - i,
        {
            let c = chars[i];
            let ghost rest = s.skip(i as int);
            let ghost cur = cursor@.map_values(|c: [usize; 2]| (c[0] as nat, c[1] as nat));
            proof {
                assert(rest[0] == c);
                assert(rest.drop_first() =~= s.skip(i + 1));
                lemma_byte_len_concat(s.take(i as int), seq![c]);
                assert(s.take(i as int) + seq![c] =~= s.take(i + 1));
                lemma_byte_len_concat(s.take(i + 1), s.skip(i + 1));
                assert(s.take(i + 1) + s.skip(i + 1) =~= s);
                assert(byte_len(seq![c]) == char_width(c)) by {
                    assert(seq![c].drop_last() =~= Seq::<char>::empty());
                    assert(seq![c].last() == c);
                    assert(byte_len(Seq::<char>::empty()) == 0);
                }
            }
            if !seeking_end && c == CURSOR_BEGIN_MARKER {
                seeking_end = true;
                begin = emitted;
            } else if seeking_end && c == CURSOR_END_MARKER {
                seeking_end = false;
                cursor.push([begin, emitted]);
                proof {
                    let now = cursor@.map_values(|c: [usize; 2]| (c[0] as nat, c[1] as nat));
                    assert(now =~= cur + seq![(begin as nat, emitted as nat)]);
                    assert(now + cursor_spans(s.skip(i + 1), false, begin as nat, emitted as nat)
                        =~= cur + (seq![(begin as nat, emitted as nat)] + cursor_spans(
                        s.skip(i + 1),
                        false,
                        begin as nat,
                        emitted as nat,
                    )));
                }
            } else {
                let ghost before = new_string@;
                push_char(&mut new_string, c);
                let w = char_width_exec(c);
                emitted = emitted + w;
                proof {
                    assert(before + strip_cursor(rest, seeking_end) =~= new_string@ + strip_cursor(
                        s.skip(i + 1),
                        seeking_end,
                    ));
                }
            }
            i += 1;
        }
        proof {
            assert(s.skip(i as int) =~= Seq::<char>::empty());
            assert(new_string@ + Seq::<char>::empty() =~= new_string@);
            let cur = cursor@.map_values(|c: [usize; 2]| (c[0] as nat, c[1] as nat));
            assert(cur + Seq::<(nat, nat)>::empty() =~= cur);
            assert forall|k: int| 0 <= k < cursor@.len() implies (#[trigger] cursor@[k])[0] as nat
                == cursor_spans(s, false, 0, 0)[k].0 && cursor@[k][1] as nat == cursor_spans(
                s,
                false,
                0,
                0,
            )[k].1 by {
                assert(cur[k] == (cursor@[k][0] as nat, cursor@[k][1] as nat));
            }
        }
        (CursorState { cursor }, new_string)
    }

    /// Marks each selection's begin and end characters with the cursor classes.
    pub fn place_cursor_balise(&self, stylization: &mut Stylization)
        requires
            old(stylization).wf(),
            forall|i: int|
                0 <= i < self.cursor@.len() ==> (#[trigger] self.cursor@[i])[0] < usize::MAX
                    && self.cursor@[i][1] < usize::MAX,
        ensures
            final(stylization).wf(),
            forall|p: usize|
                balise_at(final(stylization)@, p) == balise_at(old(stylization)@, p) | cursor_marks(
                    self.cursor@,
                    self.cursor@.len() as int,
                    p,
                ),
            forall|p: usize| overlays_at(final(stylization)@, p) == overlays_at(old(stylization)@, p),
            positions(final(stylization)@) == positions(old(stylization)@).union(
                cursor_positions(self.cursor@, self.cursor@.len() as int),
            ),
            forall|p: usize|
                balise_at(final(stylization)@, p) == balise_at(old(stylization)@, p) | (if selection_begins_at(
                    self.cursor@,
                    self.cursor@.len() as int,
                    p,
                ) {
                    CURSOR_BEGIN
                } else {
                    0
                }) | (if selection_ends_at(self.cursor@, self.cursor@.len() as int, p) {
                    CURSOR_END
                } else {
                    0
                }),
            forall|p: usize|
                positions(final(stylization)@).contains(p) <==> positions(old(stylization)@).contains(p)
                    || selection_edge_at(self.cursor@, self.cursor@.len() as int, p),
    {
        let mut i: usize = 0;
        assert(positions(stylization@).union(cursor_positions(self.cursor@, 0)) =~= positions(
            stylization@,
        ));
        proof {
            assert forall|p: usize| balise_at(stylization@, p) == balise_at(old(stylization)@, p)
                | cursor_marks(self.cursor@, 0, p) by {
                lemma_or_assoc(balise_at(stylization@, p), 0, 0, 0);
            }
        }
        while i < self.cursor.len()
            invariant
                i <= self.cursor@.len(),
                stylization.wf(),
                forall|p: usize|
                    balise_at(stylization@, p) == balise_at(old(stylization)@, p) | cursor_marks(
                        self.cursor@,
                        i as int,
                        p,
                    ),
                forall|p: usize| overlays_at(stylization@, p) == overlays_at(old(stylization)@, p),
                positions(stylization@) == positions(old(stylization)@).union(
                    cursor_positions(self.cursor@, i as int),
                ),
                forall|k: int|
                    0 <= k < self.cursor@.len() ==> (#[trigger] self.cursor@[k])[0] < usize::MAX
                        && self.cursor@[k][1] < usize::MAX,
            decreases self.cursor.len() - i,
        {
            let c = self.cursor[i];
            let cursor_begin = c[0];
            let cursor_end = c[1];
            let ghost before = stylization@;
            stylization.insert_balise(CURSOR_BEGIN, (cursor_begin, cursor_begin + 1));
            let ghost middle = stylization@;
            stylization.insert_balise(CURSOR_END, (cursor_end, cursor_end + 1));
            proof {
                assert forall|p: usize|
                    balise_at(stylization@, p) == balise_at(old(stylization)@, p) | cursor_marks(
                        self.cursor@,
                        i + 1,
                        p,
                    ) by {
                    let o = balise_at(old(stylization)@, p);
                    let mk = cursor_marks(self.cursor@, i as int, p);
                    let b = if cursor_begin == p { CURSOR_BEGIN } else { 0usize };
                    let e = if cursor_end == p { CURSOR_END } else { 0usize };
                    assert(balise_at(middle, p) == balise_at(before, p) | b) by {
                        lemma_or_assoc(balise_at(before, p), 0, 0, 0);
                    }
                    assert(balise_at(stylization@, p) == balise_at(middle, p) | e) by {
                        lemma_or_assoc(balise_at(middle, p), 0, 0, 0);
                    }
                    lemma_or_assoc(o, mk, b, e);
                }
                assert(positions(stylization@) =~= positions(old(stylization)@).union(
                    cursor_positions(self.cursor@, i + 1),
                ));
            }
            i += 1;
        }
        proof {
            let n = self.cursor@.len() as int;
            assert forall|p: usize|
                balise_at(stylization@, p) == balise_at(old(stylization)@, p) | (if selection_begins_at(
                    self.cursor@,
                    n,
                    p,
                ) {
                    CURSOR_BEGIN
                } else {
                    0
                }) | (if selection_ends_at(self.cursor@, n, p) {
                    CURSOR_END
                } else {
                    0
                }) by {
                lemma_cursor_marks(self.cursor@, n, p);
                let o = balise_at(old(stylization)@, p);
                let b = if selection_begins_at(self.cursor@, n, p) { CURSOR_BEGIN } else { 0usize };
                let e = if selection_ends_at(self.cursor@, n, p) { CURSOR_END } else { 0usize };
                assert(o | (b | e) == (o | b) | e) by (bit_vector);
            }
            assert forall|p: usize|
                positions(stylization@).contains(p) <==> positions(old(stylization)@).contains(p)
                    || selection_edge_at(self.cursor@, n, p) by {
                lemma_cursor_positions(self.cursor@, n, p);
            }
        }
    }
}

} // verus!
