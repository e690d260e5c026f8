use vstd::prelude::*;
use vstd::string::StringSliceAdditionalSpecFns;

use crate::editor::cursor::{cursor_marks, cursor_positions, cursor_read, lemma_cursor_spans_bound, selection_begins_at, selection_ends_at, strip_cursor, CursorState};
use crate::editor::overlays_location::{
    lemma_overlay_scan_bytes, overlay_numbers_valid, overlay_positions, overlay_scan, overlays_of,
    overlays_placed,
    overlays_read, OverlaysLocation,
};
use crate::editor::stylization::{
    balise_at, class_text, overlays_at, positions, section_text, GhostOverlayIndex, Section,
    Stylization, CURSOR_BEGIN, CURSOR_END,
};
use crate::interpreter::execute::ProgramResult;
use crate::lexer::{fits, lexable, token_bounds, token_cover};
use crate::text::{byte_len, same_text};

verus! {

/// What the editor shows after its text or the result of a run changed.
pub struct Restyled {
    /// The text the editor holds.
    pub text: String,
    /// The selections kept from what the editor showed.
    pub cursor_state: CursorState,
    /// Where the ghost overlays go.
    pub overlays_location: OverlaysLocation,
    /// The style of the text.
    pub marking: Stylization,
    /// The text cut into styled sections.
    pub sections: Vec<Section>,
}

/// The text the editor showed, without its overlay and cursor markers.
pub open spec fn shown_text(plain_text: Seq<char>) -> Seq<char> {
    strip_cursor(overlay_scan(plain_text, 0).0, false)
}

/// Restyles the editor. `plain_text` is what the editor showed, read back with its overlay
/// and cursor markers; `new_text` is the text it must hold. Where the two agree, the
/// selections and (before any run) the ghost overlays read from `plain_text` are kept;
/// otherwise both are dropped. After a run, the overlays are those of its outputs; after a
/// text that could not be parsed, there are none. The text is then styled by its tokens, the
/// overlays and the selections, and cut into sections.
pub fn restyle(plain_text: &str, new_text: &str, execute_result: &ProgramResult) -> (r: Restyled)
    requires
        overlay_numbers_valid(plain_text@),
        byte_len(plain_text@) < usize::MAX,
        fits(new_text@),
        lexable(new_text@, 0),
    ensures
        r.text@ == new_text@,
        shown_text(plain_text@) == new_text@ ==> cursor_read(
            r.cursor_state.cursor@,
            overlay_scan(plain_text@, 0).0,
        ),
        shown_text(plain_text@) != new_text@ ==> r.cursor_state.cursor@.len() == 0,
        match execute_result {
            ProgramResult::Executed(output) => overlays_of(
                r.overlays_location.location@,
                output.spec_outputs(),
            ),
            ProgramResult::InvalidTokens(_) => r.overlays_location.location@.len() == 0,
            ProgramResult::Unexecuted => if shown_text(plain_text@) == new_text@ {
                overlays_read(r.overlays_location.location@, plain_text@)
            } else {
                r.overlays_location.location@.len() == 0
            },
        },
        r.marking.wf(),
        forall|p: usize|
            balise_at(r.marking@, p) == token_cover(new_text@, 0, p) | cursor_marks(
                r.cursor_state.cursor@,
                r.cursor_state.cursor@.len() as int,
                p,
            ),
        forall|p: usize|
            overlays_at(r.marking@, p) == overlays_placed(
                r.overlays_location.location@,
                r.overlays_location.location@.len() as int,
                p,
            ),
        positions(r.marking@) == set![0usize].union(token_bounds(new_text@, 0)).union(
            overlay_positions(
                r.overlays_location.location@,
                r.overlays_location.location@.len() as int,
            ),
        ).union(cursor_positions(r.cursor_state.cursor@, r.cursor_state.cursor@.len() as int)),
        forall|i: int|
            0 <= i < r.cursor_state.cursor@.len() ==> balise_at(
                r.marking@,
                (#[trigger] r.cursor_state.cursor@[i])[0],
            ) & CURSOR_BEGIN != 0 && balise_at(r.marking@, r.cursor_state.cursor@[i][1]) & CURSOR_END
                != 0,
        r.sections@.len() == r.marking@.len(),
        forall|i: int|
            0 <= i < r.sections@.len() ==> {
                &&& (#[trigger] r.sections@[i]).ghost_overlays@ == r.marking@[i].ghost_overlays
                &&& r.sections@[i].class@ == class_text(r.marking@[i].balise)
                &&& r.sections@[i].text@ == section_text(r.marking@, new_text.spec_bytes(), i)
            },
{
    let (read_overlays, plain) = OverlaysLocation::retrieve_overlays_location(plain_text);
    let (read_cursor, cleaned) = CursorState::retrieve_cursor(plain.as_str());
    proof {
        lemma_overlay_scan_bytes(plain_text@, 0);
        lemma_cursor_spans_bound(plain@, false, 0, 0);
    }
    let same = same_text(cleaned.as_str(), new_text);
    let (cursor_state, kept_overlays) = if same {
        (read_cursor, read_overlays)
    } else {
        (CursorState::void(), OverlaysLocation::void())
    };
    let text = String::from_str(new_text);
    let mut marking = Stylization::from_lexer(new_text);
    let overlays_location = match execute_result {
        ProgramResult::Executed(output) => OverlaysLocation::from_output(output),
        ProgramResult::InvalidTokens(_) => OverlaysLocation::void(),
        ProgramResult::Unexecuted => kept_overlays,
    };
    let ghost m1 = marking@;
    overlays_location.restore_overlays_location(&mut marking);
    proof {
        assert forall|p: usize|
            overlays_at(marking@, p) == overlays_placed(
                overlays_location.location@,
                overlays_location.location@.len() as int,
                p,
            ) by {
            assert(Seq::<GhostOverlayIndex>::empty() + overlays_placed(
                overlays_location.location@,
                overlays_location.location@.len() as int,
                p,
            ) =~= overlays_placed(
                overlays_location.location@,
                overlays_location.location@.len() as int,
                p,
            ));
        }
        assert forall|i: int| 0 <= i < cursor_state.cursor@.len() implies (#[trigger] cursor_state.cursor@[i])[0]
            < usize::MAX && cursor_state.cursor@[i][1] < usize::MAX by {
            assert(cursor_state.cursor@[i][0] as nat == crate::editor::cursor::cursor_spans(plain@, false, 0, 0)[i].0);
        }
    }
    let ghost m2 = marking@;
    cursor_state.place_cursor_balise(&mut marking);
    proof {
        let cs = cursor_state.cursor@;
        assert forall|i: int| 0 <= i < cs.len() implies balise_at(marking@, (#[trigger] cs[i])[0])
            & CURSOR_BEGIN != 0 && balise_at(marking@, cs[i][1]) & CURSOR_END != 0 by {
            assert(selection_begins_at(cs, cs.len() as int, cs[i][0]));
            assert(selection_ends_at(cs, cs.len() as int, cs[i][1]));
            let o = balise_at(m2, cs[i][0]);
            let e = if selection_ends_at(cs, cs.len() as int, cs[i][0]) { CURSOR_END } else { 0usize };
            assert(((o | 1usize) | e) & 1usize != 0) by (bit_vector);
            let o2 = balise_at(m2, cs[i][1]);
            let b2 = if selection_begins_at(cs, cs.len() as int, cs[i][1]) { CURSOR_BEGIN } else { 0usize };
            assert(((o2 | b2) | 2usize) & 2usize != 0) by (bit_vector);
        }
    }
    let sections = marking.apply_to_text(new_text);
    Restyled { text, cursor_state, overlays_location, marking, sections }
}

} // verus!
