use vstd::prelude::*;
use vstd::string::StringSliceAdditionalSpecFns;
use vstd::utf8::{decode_utf8, is_char_boundary};

use crate::lexer::{fits, lexable, token_balise, token_bounds, token_cover, Lexer, Token};
use crate::text::{lemma_prefix_boundary, push_char, str_slice};

verus! {

/// A set of style classes, one bit per class.
pub type Balise = usize;

/// No class.
pub const EMPTY_BALISE: Balise = 0;
pub const CURSOR_BEGIN: Balise = 1;
pub const CURSOR_END: Balise = 2;
pub const LITERAL_NUMERICAL_BALISE: Balise = 4;
pub const LITERAL_KEYWORD_BALISE: Balise = 8;
pub const LITERAL_STRING_BALISE: Balise = 16;
pub const LITERAL_UNIT_BALISE: Balise = 32;
pub const IDENTIFIER_BALISE: Balise = 64;
pub const OPERATOR_BALISE: Balise = 128;
pub const STRUCTURAL_BALISE: Balise = 256;

/// Identifies a ghost overlay: an element shown in the text without changing it.
#[derive(Clone, Copy, Debug, PartialEq, Eq, Structural)]
pub struct GhostOverlayIndex {
    pub index: usize,
}

/// A marker: from its position on, the text has its classes, until the next marker;
/// ghost overlays sit at its position.
pub struct MarkerView {
    pub position: usize,
    pub balise: Balise,
    pub ghost_overlays: Seq<GhostOverlayIndex>,
}

/// The classes in force at position `p`: those of the last marker at or before `p`.
pub open spec fn balise_at(m: Seq<MarkerView>, p: usize) -> Balise
    decreases m.len(),
{
    if m.len() == 0 {
        EMPTY_BALISE
    } else if m.last().position <= p {
        m.last().balise
    } else {
        balise_at(m.drop_last(), p)
    }
}

/// The ghost overlays placed at position `p`.
pub open spec fn overlays_at(m: Seq<MarkerView>, p: usize) -> Seq<GhostOverlayIndex>
    decreases m.len(),
{
    if m.len() == 0 {
        Seq::empty()
    } else if m.last().position == p {
        m.last().ghost_overlays
    } else {
        overlays_at(m.drop_last(), p)
    }
}

/// The positions that hold a marker.
pub open spec fn positions(m: Seq<MarkerView>) -> Set<usize> {
    Set::new(|p: usize| exists|i: int| 0 <= i < m.len() && #[trigger] m[i].position == p)
}

/// Markers are in increasing order of position, and the first one is at position 0.
pub open spec fn well_placed(m: Seq<MarkerView>) -> bool {
    &&& m.len() > 0
    &&& m[0].position == 0
    &&& forall|i: int, j: int| 0 <= i < j < m.len() ==> m[i].position < m[j].position
}

/// Marker `j` is the last one at or before `p`.
pub open spec fn governs(m: Seq<MarkerView>, j: int, p: usize) -> bool {
    &&& 0 <= j < m.len()
    &&& m[j].position <= p
    &&& j + 1 < m.len() ==> p < m[j + 1].position
}

pub proof fn lemma_governs(m: Seq<MarkerView>, j: int, p: usize)
    requires
        well_placed(m),
        governs(m, j, p),
    ensures
        balise_at(m, p) == m[j].balise,
    decreases m.len(),
{
    if j < m.len() - 1 {
        assert(m.last().position > p) by {
            assert(m[j + 1].position <= m[m.len() - 1].position || j + 1 == m.len() - 1);
        }
        let d = m.drop_last();
        assert(well_placed(d));
        lemma_governs(d, j, p);
    }
}

pub proof fn lemma_overlays_index(m: Seq<MarkerView>, j: int)
    requires
        well_placed(m),
        0 <= j < m.len(),
    ensures
        overlays_at(m, m[j].position) == m[j].ghost_overlays,
    decreases m.len(),
{
    if j < m.len() - 1 {
        let d = m.drop_last();
        assert(well_placed(d));
        lemma_overlays_index(d, j);
    }
}

pub proof fn lemma_overlays_absent(m: Seq<MarkerView>, p: usize)
    requires
        forall|i: int| 0 <= i < m.len() ==> #[trigger] m[i].position != p,
    ensures
        overlays_at(m, p) == Seq::<GhostOverlayIndex>::empty(),
    decreases m.len(),
{
    if m.len() > 0 {
        assert(m[m.len() - 1].position != p);
        lemma_overlays_absent(m.drop_last(), p);
    }
}

/// Some marker governs every position of well placed markers.
pub proof fn lemma_some_governs(m: Seq<MarkerView>, p: usize) -> (j: int)
    requires
        well_placed(m),
    ensures
        governs(m, j, p),
    decreases m.len(),
{
    if m.last().position <= p {
        (m.len() - 1) as int
    } else {
        let d = m.drop_last();
        assert(d.len() > 0) by {
            if d.len() == 0 {
                assert(m[0].position == 0);
            }
        }
        assert(well_placed(d));
        let j = lemma_some_governs(d, p);
        j
    }
}

pub proof fn lemma_overlays_insert(m: Seq<MarkerView>, k: int, x: MarkerView, p: usize)
    requires
        0 <= k <= m.len(),
        x.position != p,
    ensures
        overlays_at(m.insert(k, x), p) == overlays_at(m, p),
    decreases m.len(),
{
    let n = m.insert(k, x);
    if k == m.len() {
        assert(n.drop_last() =~= m);
    } else {
        assert(n.last() == m.last());
        assert(n.drop_last() =~= m.drop_last().insert(k, x));
        lemma_overlays_insert(m.drop_last(), k, x, p);
    }
}

/// Inserting, at its place, a marker that carries the classes already in force there changes
/// the classes at no position.
pub proof fn lemma_balise_insert(m: Seq<MarkerView>, j: int, x: MarkerView, p: usize)
    requires
        well_placed(m),
        governs(m, j, x.position),
        m[j].position < x.position,
        x.balise == m[j].balise,
    ensures
        well_placed(m.insert(j + 1, x)),
        balise_at(m.insert(j + 1, x), p) == balise_at(m, p),
{
    let n = m.insert(j + 1, x);
    assert forall|a: int, b: int| 0 <= a < b < n.len() implies n[a].position < n[b].position by {
        if b < j + 1 {
        } else if b == j + 1 {
            assert(n[a] == m[a]);
        } else if a == j + 1 {
            assert(n[b] == m[b - 1]);
        } else if a < j + 1 {
            assert(n[a] == m[a] && n[b] == m[b - 1]);
        } else {
            assert(n[a] == m[a - 1] && n[b] == m[b - 1]);
        }
    }
    assert(well_placed(n));
    let g = lemma_some_governs(m, p);
    lemma_governs(m, g, p);
    if p < x.position {
        if g > j {
            assert(m[j + 1].position <= m[g].position);
        }
        assert(g <= j);
        assert(n[g] == m[g]);
        if g < j {
            assert(n[g + 1] == m[g + 1]);
        }
        assert(governs(n, g, p));
        lemma_governs(n, g, p);
    } else {
        if g < j {
            assert(m[g + 1].position <= m[j].position);
        }
        assert(g >= j);
        if g == j {
            if j + 2 < n.len() {
                assert(n[j + 2] == m[j + 1]);
            }
            assert(governs(n, j + 1, p));
            lemma_governs(n, j + 1, p);
        } else {
            assert(n[g + 1] == m[g]);
            if g + 2 < n.len() {
                assert(n[g + 2] == m[g + 1]);
            }
            assert(governs(n, g + 1, p));
            lemma_governs(n, g + 1, p);
        }
    }
}

/// Markers at the same positions with the same overlays have the same overlays everywhere.
pub proof fn lemma_same_overlays(m: Seq<MarkerView>, n: Seq<MarkerView>, p: usize)
    requires
        m.len() == n.len(),
        forall|i: int|
            0 <= i < m.len() ==> #[trigger] n[i].position == m[i].position && n[i].ghost_overlays
                == m[i].ghost_overlays,
    ensures
        overlays_at(n, p) == overlays_at(m, p),
    decreases m.len(),
{
    if m.len() > 0 {
        assert(n[n.len() - 1].position == m[m.len() - 1].position);
        lemma_same_overlays(m.drop_last(), n.drop_last(), p);
    }
}

/// Markers at the same positions with the same classes have the same classes everywhere.
pub proof fn lemma_same_balises(m: Seq<MarkerView>, n: Seq<MarkerView>, p: usize)
    requires
        m.len() == n.len(),
        forall|i: int|
            0 <= i < m.len() ==> #[trigger] n[i].position == m[i].position && n[i].balise
                == m[i].balise,
    ensures
        balise_at(n, p) == balise_at(m, p),
    decreases m.len(),
{
    if m.len() > 0 {
        assert(n[n.len() - 1].position == m[m.len() - 1].position);
        lemma_same_balises(m.drop_last(), n.drop_last(), p);
    }
}

/// Changing the overlays of one marker changes them at its position only.
pub proof fn lemma_overlays_update(m: Seq<MarkerView>, n: Seq<MarkerView>, k: int, p: usize)
    requires
        m.len() == n.len(),
        0 <= k < m.len(),
        m[k].position != p,
        forall|i: int| 0 <= i < m.len() ==> #[trigger] n[i].position == m[i].position,
        forall|i: int| 0 <= i < m.len() && i != k ==> #[trigger] n[i].ghost_overlays == m[i].ghost_overlays,
    ensures
        overlays_at(n, p) == overlays_at(m, p),
    decreases m.len(),
{
    if m.len() > 0 {
        assert(n[n.len() - 1].position == m[m.len() - 1].position);
        if k < m.len() - 1 {
            assert(n[n.len() - 1].ghost_overlays == m[m.len() - 1].ghost_overlays);
            lemma_overlays_update(m.drop_last(), n.drop_last(), k, p);
        } else {
            lemma_same_overlays(m.drop_last(), n.drop_last(), p);
        }
    }
}

/// The marker that governs `p` is at or after every marker at or before `p`.
pub proof fn lemma_governs_after(m: Seq<MarkerView>, g: int, i: int, p: usize)
    requires
        well_placed(m),
        governs(m, g, p),
        0 <= i < m.len(),
        m[i].position <= p,
    ensures
        m[i].position <= m[g].position,
{
    if i > g {
        assert(m[g + 1].position <= m[i].position || g + 1 == i);
    }
}

/// Name of the class of bit `i`.
pub open spec fn balise_name(i: int) -> Seq<char> {
    if i == 0 {
        "cursor_begin"@
    } else if i == 1 {
        "cursor_end"@
    } else if i == 2 {
        "literal_numerical"@
    } else if i == 3 {
        "literal_keyword"@
    } else if i == 4 {
        "literal_string"@
    } else if i == 5 {
        "literal_unit"@
    } else if i == 6 {
        "identifier"@
    } else if i == 7 {
        "operator"@
    } else {
        "structural"@
    }
}

/// Number of classes.
pub const NUMBER_OF_BALISES: usize = 9;

/// Name of the class of bit `i`.
pub fn balise_list(i: usize) -> (r: &'static str)
    requires
        i < NUMBER_OF_BALISES,
    ensures
        r@ == balise_name(i as int),
{
    if i == 0 {
        "cursor_begin"
    } else if i == 1 {
        "cursor_end"
    } else if i == 2 {
        "literal_numerical"
    } else if i == 3 {
        "literal_keyword"
    } else if i == 4 {
        "literal_string"
    } else if i == 5 {
        "literal_unit"
    } else if i == 6 {
        "identifier"
    } else if i == 7 {
        "operator"
    } else {
        "structural"
    }
}

/// Bit `i` of `b` is set.
pub open spec fn has_balise(b: Balise, i: usize) -> bool {
    b & (1usize << i) != 0
}

/// Names of the classes among the first `n` that `b` holds, in order.
pub open spec fn class_names(b: Balise, n: usize) -> Seq<Seq<char>>
    decreases n,
{
    if n == 0 {
        Seq::empty()
    } else if has_balise(b, (n - 1) as usize) {
        class_names(b, (n - 1) as usize).push(balise_name(n - 1))
    } else {
        class_names(b, (n - 1) as usize)
    }
}

/// `words` separated by single spaces.
pub open spec fn join_spaced(words: Seq<Seq<char>>) -> Seq<char>
    decreases words.len(),
{
    if words.len() == 0 {
        Seq::empty()
    } else if words.len() == 1 {
        words[0]
    } else {
        join_spaced(words.drop_last()) + seq![' '] + words.last()
    }
}

/// The value of a `class` attribute for the classes `b`.
pub open spec fn class_text(b: Balise) -> Seq<char> {
    join_spaced(class_names(b, NUMBER_OF_BALISES))
}

/// The names of the classes that `balise` holds, separated by spaces.
pub fn get_balise_class(balise: Balise) -> (r: String)
    ensures
        r@ == class_text(balise),
{
    let mut class = String::new();
    let mut i: usize = 0;
    let mut empty = true;
    while i < NUMBER_OF_BALISES
        invariant
            i <= NUMBER_OF_BALISES,
            class@ == join_spaced(class_names(balise, i)),
            empty == (class_names(balise, i).len() == 0),
        decreases NUMBER_OF_BALISES - i,
    {
        if balise & (1usize << i) != 0 {
            if !empty {
                push_char(&mut class, ' ');
            }
            class.append(balise_list(i));
            empty = false;
            proof {
                let w = class_names(balise, (i + 1) as usize);
                assert(w == class_names(balise, i).push(balise_name(i as int)));
                assert(w.drop_last() =~= class_names(balise, i));
                if class_names(balise, i).len() == 0 {
                    assert(join_spaced(w) == w[0]);
                }
            }
        }
        i += 1;
    }
    class
}

proof fn lemma_single_class_names(k: usize, n: usize)
    requires
        k < NUMBER_OF_BALISES,
        n <= NUMBER_OF_BALISES,
    ensures
        class_names(1usize << k, n) == (if k < n {
            seq![balise_name(k as int)]
        } else {
            Seq::<Seq<char>>::empty()
        }),
    decreases n,
{
    if n > 0 {
        let i = (n - 1) as usize;
        lemma_single_class_names(k, i);
        assert(((1usize << k) & (1usize << i) != 0) <==> i == k) by (bit_vector)
            requires
                k < 9,
                i < 9,
        ;
    }
}

/// A single class is shown by its name alone: each class bit, from the lowest up, is named
/// `cursor_begin`, `cursor_end`, `literal_numerical`, `literal_keyword`, `literal_string`,
/// `literal_unit`, `identifier`, `operator`, `structural`; no class is shown as nothing.
pub proof fn lemma_class_names()
    ensures
        class_text(EMPTY_BALISE) == Seq::<char>::empty(),
        class_text(CURSOR_BEGIN) == "cursor_begin"@,
        class_text(CURSOR_END) == "cursor_end"@,
        class_text(LITERAL_NUMERICAL_BALISE) == "literal_numerical"@,
        class_text(LITERAL_KEYWORD_BALISE) == "literal_keyword"@,
        class_text(LITERAL_STRING_BALISE) == "literal_string"@,
        class_text(LITERAL_UNIT_BALISE) == "literal_unit"@,
        class_text(IDENTIFIER_BALISE) == "identifier"@,
        class_text(OPERATOR_BALISE) == "operator"@,
        class_text(STRUCTURAL_BALISE) == "structural"@,
{
    assert(1usize << 0usize == 1usize && 1usize << 1usize == 2usize && 1usize << 2usize == 4usize
        && 1usize << 3usize == 8usize && 1usize << 4usize == 16usize && 1usize << 5usize == 32usize
        && 1usize << 6usize == 64usize && 1usize << 7usize == 128usize && 1usize << 8usize
        == 256usize) by (bit_vector);
    lemma_single_class_names(0, NUMBER_OF_BALISES);
    lemma_single_class_names(1, NUMBER_OF_BALISES);
    lemma_single_class_names(2, NUMBER_OF_BALISES);
    lemma_single_class_names(3, NUMBER_OF_BALISES);
    lemma_single_class_names(4, NUMBER_OF_BALISES);
    lemma_single_class_names(5, NUMBER_OF_BALISES);
    lemma_single_class_names(6, NUMBER_OF_BALISES);
    lemma_single_class_names(7, NUMBER_OF_BALISES);
    lemma_single_class_names(8, NUMBER_OF_BALISES);
    assert forall|i: usize| i < NUMBER_OF_BALISES implies !has_balise(EMPTY_BALISE, i) by {
        assert(0usize & (1usize << i) == 0) by (bit_vector);
    }
    lemma_no_class_names(NUMBER_OF_BALISES);
}

proof fn lemma_no_class_names(n: usize)
    requires
        n <= NUMBER_OF_BALISES,
        forall|i: usize| i < NUMBER_OF_BALISES ==> !has_balise(EMPTY_BALISE, i),
    ensures
        class_names(EMPTY_BALISE, n) == Seq::<Seq<char>>::empty(),
    decreases n,
{
    if n > 0 {
        lemma_no_class_names((n - 1) as usize);
    }
}

/// The first byte offset at or after `i` where a character starts, or the end of `bytes`.
pub open spec fn next_boundary(bytes: Seq<u8>, i: int) -> int
    decreases bytes.len() - i,
{
    if i >= bytes.len() || is_char_boundary(bytes, i) {
        i
    } else {
        next_boundary(bytes, i + 1)
    }
}

pub proof fn lemma_next_boundary(bytes: Seq<u8>, i: int, j: int)
    requires
        0 <= i <= j <= bytes.len(),
    ensures
        i <= next_boundary(bytes, i) <= next_boundary(bytes, j) <= bytes.len(),
        next_boundary(bytes, i) == bytes.len() || is_char_boundary(bytes, next_boundary(bytes, i)),
    decreases bytes.len() - i,
{
    if i < j && !is_char_boundary(bytes, i) {
        lemma_next_boundary(bytes, i + 1, j);
    } else if i == j {
        lemma_next_boundary_le(bytes, i);
    } else {
        lemma_next_boundary_le(bytes, j);
    }
}

proof fn lemma_next_boundary_le(bytes: Seq<u8>, i: int)
    requires
        0 <= i <= bytes.len(),
    ensures
        i <= next_boundary(bytes, i) <= bytes.len(),
        next_boundary(bytes, i) == bytes.len() || is_char_boundary(bytes, next_boundary(bytes, i)),
    decreases bytes.len() - i,
{
    if i < bytes.len() && !is_char_boundary(bytes, i) {
        lemma_next_boundary_le(bytes, i + 1);
    }
}

/// One section of a styled text: the ghost overlays placed at its start, then its text with
/// its classes.
pub struct Section {
    pub ghost_overlays: Vec<GhostOverlayIndex>,
    pub class: String,
    pub text: String,
}

/// Byte offset where section `i` of `text` starts.
pub open spec fn section_start(m: Seq<MarkerView>, bytes: Seq<u8>, i: int) -> int {
    next_boundary(bytes, if m[i].position <= bytes.len() { m[i].position as int } else { bytes.len() as int })
}

/// Byte offset where section `i` of `text` ends: where the next marker starts, or the end.
pub open spec fn section_end(m: Seq<MarkerView>, bytes: Seq<u8>, i: int) -> int {
    let next = if i + 1 < m.len() { m[i + 1].position as int } else { bytes.len() as int };
    next_boundary(bytes, if next <= bytes.len() { next } else { bytes.len() as int })
}

/// The text of section `i`.
pub open spec fn section_text(m: Seq<MarkerView>, bytes: Seq<u8>, i: int) -> Seq<char> {
    decode_utf8(bytes.subrange(section_start(m, bytes, i), section_end(m, bytes, i)))
}

/// Marker positions strictly increase.
pub open spec fn increasing(m: Seq<MarkerView>) -> bool {
    forall|i: int, j: int| 0 <= i < j < m.len() ==> m[i].position < m[j].position
}

/// Markers in increasing order are placed by their set of positions alone.
proof fn lemma_same_positions(m: Seq<MarkerView>, n: Seq<MarkerView>)
    requires
        increasing(m),
        increasing(n),
        positions(m) == positions(n),
    ensures
        m.len() == n.len(),
        forall|i: int| 0 <= i < m.len() ==> #[trigger] m[i].position == n[i].position,
    decreases m.len(),
{
    if m.len() == 0 {
        if n.len() > 0 {
            assert(positions(n).contains(n[0].position));
        }
    } else if n.len() == 0 {
        assert(positions(m).contains(m[0].position));
    } else {
        let pm = m.last().position;
        let pn = n.last().position;
        assert(positions(m).contains(pm));
        assert(positions(n).contains(pn));
        let j = choose|j: int| 0 <= j < n.len() && #[trigger] n[j].position == pm;
        let i = choose|i: int| 0 <= i < m.len() && #[trigger] m[i].position == pn;
        if i < m.len() - 1 {
            assert(m[i].position < m[m.len() - 1].position);
        }
        if j < n.len() - 1 {
            assert(n[j].position < n[n.len() - 1].position);
        }
        assert(pm == pn);
        let md = m.drop_last();
        let nd = n.drop_last();
        assert(positions(md) =~= positions(nd)) by {
            assert forall|p: usize| positions(md).contains(p) implies positions(nd).contains(p) by {
                let k = choose|k: int| 0 <= k < md.len() && #[trigger] md[k].position == p;
                assert(m[k].position == p && m[k].position < pm);
                assert(positions(n).contains(p));
                let k2 = choose|k2: int| 0 <= k2 < n.len() && #[trigger] n[k2].position == p;
                assert(nd[k2].position == p);
            }
            assert forall|p: usize| positions(nd).contains(p) implies positions(md).contains(p) by {
                let k = choose|k: int| 0 <= k < nd.len() && #[trigger] nd[k].position == p;
                assert(n[k].position == p && n[k].position < pn);
                assert(positions(m).contains(p));
                let k2 = choose|k2: int| 0 <= k2 < m.len() && #[trigger] m[k2].position == p;
                assert(md[k2].position == p);
            }
        }
        lemma_same_positions(md, nd);
        assert forall|k: int| 0 <= k < m.len() implies #[trigger] m[k].position == n[k].position by {
            if k < m.len() - 1 {
                assert(md[k].position == nd[k].position);
            }
        }
    }
}

/// A style is whatever it paints: two well placed marker sequences with the same positions,
/// the same classes at every position and the same ghost overlays at every position are the
/// same, and `apply_to_text` cuts every text into the same sections with them.
pub proof fn lemma_same_markers(m: Seq<MarkerView>, n: Seq<MarkerView>)
    requires
        well_placed(m),
        well_placed(n),
        positions(m) == positions(n),
        forall|p: usize| balise_at(m, p) == balise_at(n, p),
        forall|p: usize| overlays_at(m, p) == overlays_at(n, p),
    ensures
        m == n,
{
    lemma_same_positions(m, n);
    assert forall|i: int| 0 <= i < m.len() implies #[trigger] m[i] == n[i] by {
        let p = m[i].position;
        assert(governs(m, i, p));
        assert(governs(n, i, p));
        lemma_governs(m, i, p);
        lemma_governs(n, i, p);
        lemma_overlays_index(m, i);
        lemma_overlays_index(n, i);
    }
    assert(m =~= n);
}

/// What `Stylization::insert_balise` does to the markers `before`, giving `after`.
pub open spec fn balise_inserted(
    before: Seq<MarkerView>,
    new_balise: Balise,
    position: (usize, usize),
    after: Seq<MarkerView>,
) -> bool {
    &&& well_placed(after)
    &&& position.0 >= position.1 ==> after == before
    &&& position.0 < position.1 ==> positions(after) == positions(before).insert(position.0).insert(
        position.1,
    )
    &&& forall|p: usize|
        balise_at(after, p) == if position.0 <= p < position.1 {
            balise_at(before, p) | new_balise
        } else {
            balise_at(before, p)
        }
    &&& forall|p: usize| overlays_at(after, p) == overlays_at(before, p)
}

proof fn lemma_or_laws(x: usize, a: usize, b: usize)
    ensures
        (x | a) | b == (x | b) | a,
        (x | a) | a == x | a,
{
    assert((x | a) | b == (x | b) | a) by (bit_vector);
    assert((x | a) | a == x | a) by (bit_vector);
}

/// Adding classes to two ranges gives the same style in either order.
pub proof fn lemma_insert_balise_commutes(
    m: Seq<MarkerView>,
    b1: Balise,
    r1: (usize, usize),
    b2: Balise,
    r2: (usize, usize),
    m1: Seq<MarkerView>,
    m12: Seq<MarkerView>,
    m2: Seq<MarkerView>,
    m21: Seq<MarkerView>,
)
    requires
        well_placed(m),
        balise_inserted(m, b1, r1, m1),
        balise_inserted(m1, b2, r2, m12),
        balise_inserted(m, b2, r2, m2),
        balise_inserted(m2, b1, r1, m21),
    ensures
        m12 == m21,
{
    assert(positions(m12) =~= positions(m21));
    assert forall|p: usize| balise_at(m12, p) == balise_at(m21, p) by {
        lemma_or_laws(balise_at(m, p), b1, b2);
    }
    lemma_same_markers(m12, m21);
}

/// Adding the same classes to the same range twice gives the style of adding them once.
pub proof fn lemma_insert_balise_idempotent(
    m: Seq<MarkerView>,
    b: Balise,
    r: (usize, usize),
    m1: Seq<MarkerView>,
    m11: Seq<MarkerView>,
)
    requires
        well_placed(m),
        balise_inserted(m, b, r, m1),
        balise_inserted(m1, b, r, m11),
    ensures
        m11 == m1,
{
    assert(positions(m11) =~= positions(m1));
    assert forall|p: usize| balise_at(m11, p) == balise_at(m1, p) by {
        lemma_or_laws(balise_at(m, p), b, b);
    }
    lemma_same_markers(m11, m1);
}

/// The texts of the first `n` sections, put together.
pub open spec fn sections_text(m: Seq<MarkerView>, bytes: Seq<u8>, n: int) -> Seq<char>
    decreases n,
{
    if n <= 0 {
        Seq::empty()
    } else {
        sections_text(m, bytes, n - 1) + section_text(m, bytes, n - 1)
    }
}

/// Section `i` ends at a character boundary, where section `i + 1` starts, and no later than
/// that section ends.
proof fn lemma_section_end(m: Seq<MarkerView>, bytes: Seq<u8>, i: int)
    requires
        well_placed(m),
        vstd::utf8::valid_utf8(bytes),
        0 <= i < m.len(),
    ensures
        0 <= section_end(m, bytes, i) <= bytes.len(),
        is_char_boundary(bytes, section_end(m, bytes, i)),
        i + 1 < m.len() ==> section_start(m, bytes, i + 1) == section_end(m, bytes, i),
        i + 1 < m.len() ==> section_end(m, bytes, i) <= section_end(m, bytes, i + 1),
{
    let len = bytes.len() as int;
    vstd::utf8::is_char_boundary_start_end_of_seq(bytes);
    let next = if i + 1 < m.len() {
        m[i + 1].position as int
    } else {
        len
    };
    let e = if next <= len {
        next
    } else {
        len
    };
    lemma_next_boundary(bytes, e, e);
    if i + 1 < m.len() {
        let next2 = if i + 2 < m.len() {
            m[i + 2].position as int
        } else {
            len
        };
        let e2 = if next2 <= len {
            next2
        } else {
            len
        };
        if i + 2 < m.len() {
            assert(m[i + 1].position < m[i + 2].position);
        }
        lemma_next_boundary(bytes, e, e2);
    }
}

/// The first `n` sections give the text up to where section `n - 1` ends.
proof fn lemma_sections_prefix(m: Seq<MarkerView>, bytes: Seq<u8>, n: int)
    requires
        well_placed(m),
        vstd::utf8::valid_utf8(bytes),
        1 <= n <= m.len(),
    ensures
        sections_text(m, bytes, n) == decode_utf8(bytes.subrange(0, section_end(m, bytes, n - 1))),
    decreases n,
{
    vstd::utf8::is_char_boundary_start_end_of_seq(bytes);
    if n == 1 {
        lemma_next_boundary(bytes, 0, 0);
        assert(section_start(m, bytes, 0) == 0);
        assert(sections_text(m, bytes, 0) =~= Seq::<char>::empty());
        assert(sections_text(m, bytes, 1) =~= section_text(m, bytes, 0));
    } else {
        lemma_sections_prefix(m, bytes, n - 1);
        lemma_section_end(m, bytes, n - 2);
        lemma_section_end(m, bytes, n - 1);
        let a = section_end(m, bytes, n - 2);
        let c = section_end(m, bytes, n - 1);
        lemma_prefix_boundary(bytes, a, c);
        let p = bytes.subrange(0, c);
        vstd::utf8::decode_utf8_split(p, a);
        assert(p.subrange(0, a) =~= bytes.subrange(0, a));
        assert(p.subrange(a, p.len() as int) =~= bytes.subrange(a, c));
    }
}

/// Put together, the sections of a styled text give back the text: styling cuts the text
/// and adds classes and ghost overlays, and loses or repeats no character.
pub proof fn lemma_sections_give_text(m: Seq<MarkerView>, text: Seq<char>)
    requires
        well_placed(m),
    ensures
        sections_text(m, vstd::utf8::encode_utf8(text), m.len() as int) == text,
{
    let bytes = vstd::utf8::encode_utf8(text);
    let len = bytes.len() as int;
    vstd::utf8::encode_utf8_valid_utf8(text);
    vstd::utf8::encode_utf8_decode_utf8(text);
    vstd::utf8::is_char_boundary_start_end_of_seq(bytes);
    lemma_sections_prefix(m, bytes, m.len() as int);
    lemma_next_boundary(bytes, len, len);
    assert(section_end(m, bytes, m.len() - 1) == len);
    assert(bytes.subrange(0, len) =~= bytes);
}

fn copy_overlays(v: &Vec<GhostOverlayIndex>) -> (r: Vec<GhostOverlayIndex>)
    ensures
        r@ == v@,
{
    let mut r = Vec::new();
    let mut i: usize = 0;
    while i < v.len()
        invariant
            i <= v@.len(),
            r@ == v@.subrange(0, i as int),
        decreases v.len() - i,
    {
        r.push(v[i]);
        i += 1;
        assert(r@ =~= v@.subrange(0, i as int));
    }
    assert(v@.subrange(0, v@.len() as int) =~= v@);
    r
}

/// The style of a text, as markers at increasing positions.
pub struct Stylization {
    positions: Vec<usize>,
    balises: Vec<Balise>,
    overlays: Vec<Vec<GhostOverlayIndex>>,
}

impl View for Stylization {
    type V = Seq<MarkerView>;

    closed spec fn view(&self) -> Seq<MarkerView> {
        Seq::new(
            self.positions@.len(),
            |i: int|
                MarkerView {
                    position: self.positions@[i],
                    balise: self.balises@[i],
                    ghost_overlays: self.overlays@[i]@,
                },
        )
    }
}

impl Stylization {
    /// The markers are well placed and stored consistently.
    pub closed spec fn wf(&self) -> bool {
        &&& self.balises@.len() == self.positions@.len()
        &&& self.overlays@.len() == self.positions@.len()
        &&& well_placed(self@)
    }

    /// Markers of a well formed style are well placed.
    pub proof fn lemma_well_placed(&self)
        requires
            self.wf(),
        ensures
            well_placed(self@),
    {
    }

    pub fn new() -> (r: Stylization)
        ensures
            r.wf(),
            r@ == seq![MarkerView { position: 0, balise: EMPTY_BALISE, ghost_overlays: Seq::empty() }],
    {
        let mut positions = Vec::new();
        positions.push(0);
        let mut balises = Vec::new();
        balises.push(EMPTY_BALISE);
        let mut overlays = Vec::new();
        overlays.push(Vec::new());
        let r = Stylization { positions, balises, overlays };
        assert(r@ =~= seq![MarkerView { position: 0, balise: EMPTY_BALISE, ghost_overlays: Seq::empty() }]);
        r
    }

    /// Index of the marker at `position`, adding one there (with the classes in force and no
    /// overlay) when there is none.
    fn get_or_add_marker(&mut self, position: usize) -> (idx: usize)
        requires
            old(self).wf(),
        ensures
            final(self).wf(),
            idx < final(self)@.len(),
            final(self)@[idx as int].position == position,
            positions(final(self)@) == positions(old(self)@).insert(position),
            forall|p: usize| balise_at(final(self)@, p) == balise_at(old(self)@, p),
            forall|p: usize| overlays_at(final(self)@, p) == overlays_at(old(self)@, p),
            positions(old(self)@).contains(position) ==> final(self)@ == old(self)@,
    {
        let ghost m = self@;
        // last marker at or before `position`
        let n = self.positions.len();
        let mut j: usize = 0;
        while j + 1 < n && self.positions[j + 1] <= position
            invariant
                n == m.len(),
                n == self.positions@.len(),
                m == self@,
                self.wf(),
                j < n,
                m[j as int].position <= position,
            decreases n - j,
        {
            j = j + 1;
        }
        assert(governs(m, j as int, position));
        if self.positions[j] == position {
            proof {
                assert(positions(m).insert(position) =~= positions(m));
            }
            return j;
        }
        let balise = self.balises[j];
        self.positions.insert(j + 1, position);
        self.balises.insert(j + 1, balise);
        self.overlays.insert(j + 1, Vec::new());
        let ghost x = MarkerView { position, balise, ghost_overlays: Seq::empty() };
        proof {
            assert(self@ =~= m.insert(j + 1, x));
            lemma_balise_insert(m, j as int, x, 0);
            assert forall|p: usize| balise_at(self@, p) == balise_at(m, p) by {
                lemma_balise_insert(m, j as int, x, p);
            }
            assert forall|p: usize| overlays_at(self@, p) == overlays_at(m, p) by {
                if p == position {
                    lemma_overlays_index(self@, j + 1);
                    assert forall|i: int| 0 <= i < m.len() implies #[trigger] m[i].position != p by {
                        if i <= j {
                            assert(m[i].position <= m[j as int].position);
                        } else {
                            assert(m[i].position >= m[j + 1].position);
                        }
                    }
                    lemma_overlays_absent(m, p);
                } else {
                    lemma_overlays_insert(m, j + 1, x, p);
                }
            }
            assert(positions(self@) =~= positions(m).insert(position)) by {
                assert forall|p: usize| positions(self@).contains(p) implies positions(m).insert(position).contains(p) by {
                    let i = choose|i: int| 0 <= i < self@.len() && #[trigger] self@[i].position == p;
                    if i < j + 1 {
                        assert(m[i].position == p);
                    } else if i > j + 1 {
                        assert(m[i - 1].position == p);
                    }
                }
                assert forall|p: usize| positions(m).insert(position).contains(p) implies positions(self@).contains(p) by {
                    if p == position {
                        assert(self@[j + 1].position == p);
                    } else {
                        let i = choose|i: int| 0 <= i < m.len() && #[trigger] m[i].position == p;
                        if i <= j {
                            assert(self@[i].position == p);
                        } else {
                            assert(self@[i + 1].position == p);
                        }
                    }
                }
            }
        }
        j + 1
    }

    /// Places a ghost overlay at `position`, after those already there.
    pub fn insert_ghost_overlay(&mut self, position: usize, ghost_overlay: GhostOverlayIndex)
        requires
            old(self).wf(),
        ensures
            final(self).wf(),
            positions(final(self)@) == positions(old(self)@).insert(position),
            forall|p: usize| balise_at(final(self)@, p) == balise_at(old(self)@, p),
            forall|p: usize|
                overlays_at(final(self)@, p) == if p == position {
                    overlays_at(old(self)@, p).push(ghost_overlay)
                } else {
                    overlays_at(old(self)@, p)
                },
    {
        let idx = self.get_or_add_marker(position);
        let ghost m = self@;
        let mut v = self.overlays.remove(idx);
        v.push(ghost_overlay);
        self.overlays.insert(idx, v);
        proof {
            let n = self@;
            assert(n.len() == m.len());
            assert forall|i: int| 0 <= i < m.len() implies #[trigger] n[i].position == m[i].position
                && n[i].balise == m[i].balise by {}
            assert forall|i: int| 0 <= i < m.len() && i != idx implies #[trigger] n[i].ghost_overlays
                == m[i].ghost_overlays by {}
            assert(well_placed(n));
            assert forall|p: usize| balise_at(n, p) == balise_at(m, p) by {
                lemma_same_balises(m, n, p);
            }
            assert forall|p: usize|
                overlays_at(n, p) == if p == position {
                    overlays_at(m, p).push(ghost_overlay)
                } else {
                    overlays_at(m, p)
                } by {
                if p == position {
                    lemma_overlays_index(n, idx as int);
                    lemma_overlays_index(m, idx as int);
                } else {
                    lemma_overlays_update(m, n, idx as int, p);
                }
            }
            assert(positions(n) =~= positions(m)) by {
                assert forall|p: usize| positions(n).contains(p) implies positions(m).contains(p) by {
                    let i = choose|i: int| 0 <= i < n.len() && #[trigger] n[i].position == p;
                    assert(m[i].position == p);
                }
                assert forall|p: usize| positions(m).contains(p) implies positions(n).contains(p) by {
                    let i = choose|i: int| 0 <= i < m.len() && #[trigger] m[i].position == p;
                    assert(n[i].position == p);
                }
            }
        }
    }

    /// Adds the classes `new_balise` to the text from `position.0` (included) to `position.1`
    /// (excluded); an empty or reversed range changes nothing.
    pub fn insert_balise(&mut self, new_balise: Balise, position: (usize, usize))
        requires
            old(self).wf(),
        ensures
            final(self).wf(),
            position.0 >= position.1 ==> final(self)@ == old(self)@,
            position.0 < position.1 ==> positions(final(self)@) == positions(old(self)@).insert(
                position.0,
            ).insert(position.1),
            forall|p: usize|
                balise_at(final(self)@, p) == if position.0 <= p < position.1 {
                    balise_at(old(self)@, p) | new_balise
                } else {
                    balise_at(old(self)@, p)
                },
            forall|p: usize| overlays_at(final(self)@, p) == overlays_at(old(self)@, p),
            balise_inserted(old(self)@, new_balise, position, final(self)@),
    {
        if position.0 >= position.1 {
            return;
        }
        let i0 = self.get_or_add_marker(position.0);
        let i1 = self.get_or_add_marker(position.1);
        let ghost m = self@;
        let ghost k0 = i0;
        proof {
            // the marker at position.0 is still there
            assert(positions(m).contains(position.0));
        }
        let n = self.positions.len();
        let mut i: usize = 0;
        let ghost ps = self.positions@;
        let ghost os = self.overlays@;
        while i < n
            invariant
                n == self.positions@.len(),
                n == m.len(),
                self.positions@ == ps,
                self.overlays@ == os,
                self.balises@.len() == n,
                self.overlays@.len() == n,
                forall|k: int| 0 <= k < n ==> #[trigger] ps[k] == m[k].position,
                forall|k: int| 0 <= k < n ==> #[trigger] os[k]@ == m[k].ghost_overlays,
                self.wf(),
                well_placed(m),
                forall|k: int|
                    0 <= k < n ==> #[trigger] self.balises@[k] == if k < i && position.0
                        <= m[k].position < position.1 {
                        m[k].balise | new_balise
                    } else {
                        m[k].balise
                    },
            decreases n - i,
        {
            let pos = self.positions[i];
            if position.0 <= pos && pos < position.1 {
                let b = self.balises[i] | new_balise;
                self.balises.set(i, b);
            }
            i += 1;
            proof {
                assert forall|a: int, b: int| 0 <= a < b < self@.len() implies self@[a].position
                    < self@[b].position by {
                    assert(self@[a].position == ps[a]);
                    assert(self@[b].position == ps[b]);
                }
            }
        }
        proof {
            let f = self@;
            assert forall|k: int| 0 <= k < n implies #[trigger] f[k].position == m[k].position
                && f[k].ghost_overlays == m[k].ghost_overlays by {}
            assert(positions(f) =~= positions(m)) by {
                assert forall|p: usize| positions(f).contains(p) implies positions(m).contains(p) by {
                    let k = choose|k: int| 0 <= k < f.len() && #[trigger] f[k].position == p;
                    assert(m[k].position == p);
                }
                assert forall|p: usize| positions(m).contains(p) implies positions(f).contains(p) by {
                    let k = choose|k: int| 0 <= k < m.len() && #[trigger] m[k].position == p;
                    assert(f[k].position == p);
                }
            }
            assert forall|p: usize| overlays_at(f, p) == overlays_at(m, p) by {
                lemma_same_overlays(m, f, p);
            }
            assert forall|p: usize|
                balise_at(f, p) == if position.0 <= p < position.1 {
                    balise_at(m, p) | new_balise
                } else {
                    balise_at(m, p)
                } by {
                let g = lemma_some_governs(m, p);
                lemma_governs(m, g, p);
                assert(governs(f, g, p));
                lemma_governs(f, g, p);
                if position.0 <= p {
                    let k = choose|k: int| 0 <= k < m.len() && #[trigger] m[k].position == position.0;
                    lemma_governs_after(m, g, k, p);
                }
                if position.1 <= p {
                    let k = choose|k: int| 0 <= k < m.len() && #[trigger] m[k].position == position.1;
                    lemma_governs_after(m, g, k, p);
                }
            }
        }
    }

    /// Cuts `text` at the markers: one section per marker, from its position to the next
    /// marker (both brought within the text and forward to a character boundary).
    pub fn apply_to_text(&self, text: &str) -> (r: Vec<Section>)
        requires
            self.wf(),
        ensures
            r@.len() == self@.len(),
            forall|i: int|
                0 <= i < r@.len() ==> {
                    &&& (#[trigger] r@[i]).ghost_overlays@ == self@[i].ghost_overlays
                    &&& r@[i].class@ == class_text(self@[i].balise)
                    &&& r@[i].text@ == section_text(self@, text.spec_bytes(), i)
                },
    {
        let ghost bytes = text.spec_bytes();
        let ghost m = self@;
        let len = text.as_bytes().len();
        let n = self.positions.len();
        let mut sections: Vec<Section> = Vec::new();
        let mut i: usize = 0;
        while i < n
            invariant
                n == m.len(),
                m == self@,
                self.wf(),
                len == bytes.len(),
                bytes == text.spec_bytes(),
                i <= n,
                sections@.len() == i,
                forall|k: int|
                    0 <= k < i ==> {
                        &&& (#[trigger] sections@[k]).ghost_overlays@ == m[k].ghost_overlays
                        &&& sections@[k].class@ == class_text(m[k].balise)
                        &&& sections@[k].text@ == section_text(m, bytes, k)
                    },
            decreases n - i,
        {
            let pos = self.positions[i];
            let next_pos = if i + 1 < n {
                self.positions[i + 1]
            } else {
                len
            };
            let pos = if pos <= len {
                pos
            } else {
                len
            };
            let next_pos = if next_pos <= len {
                next_pos
            } else {
                len
            };
            let mut start_byte = pos;
            while start_byte < len && !text.is_char_boundary(start_byte)
                invariant
                    pos <= start_byte <= len,
                    len == bytes.len(),
                    bytes == text.spec_bytes(),
                    next_boundary(bytes, start_byte as int) == next_boundary(bytes, pos as int),
                decreases len - start_byte,
            {
                start_byte += 1;
            }
            let mut end_byte = next_pos;
            while end_byte < len && !text.is_char_boundary(end_byte)
                invariant
                    next_pos <= end_byte <= len,
                    len == bytes.len(),
                    bytes == text.spec_bytes(),
                    next_boundary(bytes, end_byte as int) == next_boundary(bytes, next_pos as int),
                decreases len - end_byte,
            {
                end_byte += 1;
            }
            proof {
                if i + 1 < n {
                    assert(m[i as int].position < m[i + 1].position);
                }
                lemma_next_boundary(bytes, pos as int, next_pos as int);
                vstd::utf8::encode_utf8_valid_utf8(text@);
                vstd::utf8::is_char_boundary_start_end_of_seq(bytes);
            }
            let piece = str_slice(text, start_byte, end_byte);
            let piece_text = String::from_str(piece);
            proof {
                vstd::utf8::encode_utf8_decode_utf8(piece@);
            }
            let section = Section {
                ghost_overlays: copy_overlays(&self.overlays[i]),
                class: get_balise_class(self.balises[i]),
                text: piece_text,
            };
            sections.push(section);
            i += 1;
        }
        sections
    }
}

/// The classes with which a token is shown.
pub fn get_balise(token: &Token) -> (r: usize)
    ensures
        r == token_balise(token@),
{
    token.get_balise()
}

impl Stylization {
    /// The style that the tokens of `text` give it, with no ghost overlay.
    pub fn from_lexer(text: &str) -> (r: Stylization)
        requires
            fits(text@),
            lexable(text@, 0),
        ensures
            r.wf(),
            forall|p: usize| balise_at(r@, p) == token_cover(text@, 0, p),
            forall|p: usize| overlays_at(r@, p) == Seq::<GhostOverlayIndex>::empty(),
            positions(r@) == set![0usize].union(token_bounds(text@, 0)),
    {
        let mut marking = Stylization::new();
        let ghost m0 = marking@;
        proof {
            assert forall|p: usize| balise_at(m0, p) == EMPTY_BALISE by {
                assert(m0.drop_last() =~= Seq::<MarkerView>::empty());
            }
            assert forall|p: usize| overlays_at(m0, p) == Seq::<GhostOverlayIndex>::empty() by {
                assert(m0.drop_last() =~= Seq::<MarkerView>::empty());
                assert(m0.last() == m0[0]);
                assert(m0[0].ghost_overlays == Seq::<GhostOverlayIndex>::empty());
                assert(overlays_at(Seq::<MarkerView>::empty(), p) == Seq::<GhostOverlayIndex>::empty());
            }
        }
        assert(positions(m0) =~= set![0usize]) by {
            assert(m0[0].position == 0);
        }
        let lexer = Lexer::new(text);
        lexer.stylize(&mut marking);
        proof {
            assert forall|p: usize| balise_at(marking@, p) == token_cover(text@, 0, p) by {
                let c = token_cover(text@, 0, p);
                assert(0usize | c == c) by (bit_vector);
            }
        }
        marking
    }
}

} // verus!
