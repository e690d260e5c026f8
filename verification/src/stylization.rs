use vstd::prelude::*;
use vstd::string::StringSliceAdditionalSpecFns;

use crate::editor::stylization::{
    balise_at, class_text, overlays_at, positions, section_text, Balise, MarkerView,
    Stylization as Marking,
};

verus! {

/// `<span class="...">...</span>` for each section, in order.
pub open spec fn spans(m: Seq<MarkerView>, bytes: Seq<u8>, n: int) -> Seq<char>
    decreases n,
{
    if n <= 0 {
        Seq::empty()
    } else {
        spans(m, bytes, n - 1) + "<span class=\""@ + class_text(m[n - 1].balise) + "\">"@
            + section_text(m, bytes, n - 1) + "</span>"@
    }
}

/// The style of a text, rendered as HTML spans.
pub struct Stylization {
    marking: Marking,
}

impl View for Stylization {
    type V = Seq<MarkerView>;

    closed spec fn view(&self) -> Seq<MarkerView> {
        self.marking@
    }
}

impl Stylization {
    /// The markers are well placed.
    pub closed spec fn wf(&self) -> bool {
        self.marking.wf()
    }

    pub fn new() -> (r: Stylization)
        ensures
            r.wf(),
            r@ == seq![MarkerView { position: 0, balise: 0, ghost_overlays: Seq::empty() }],
    {
        Stylization { marking: Marking::new() }
    }

    /// Adds the classes `new_balise` to the text from `position.0` (included) to `position.1`
    /// (excluded); an empty or reversed range changes nothing.
    pub fn insert_balise(&mut self, new_balise: Balise, position: (usize, usize))
        requires
            old(self).wf(),
        ensures
            final(self).wf(),
            position.0 >= position.1 ==> final(self)@ == old(self)@,
            position.0 < position.1 ==> positions(final(self)@) == positions(old(self)@).insert(
                position.0,
            ).insert(position.1),
            forall|p: usize|
                balise_at(final(self)@, p) == if position.0 <= p < position.1 {
                    balise_at(old(self)@, p) | new_balise
                } else {
                    balise_at(old(self)@, p)
                },
            forall|p: usize| overlays_at(final(self)@, p) == overlays_at(old(self)@, p),
    {
        self.marking.insert_balise(new_balise, position);
    }

    /// The text cut at the markers, each section in a `span` whose class lists its classes.
    pub fn apply_to_text(&self, text: &str) -> (r: String)
        requires
            self.wf(),
        ensures
            r@ == spans(self@, text.spec_bytes(), self@.len() as int),
    {
        let sections = self.marking.apply_to_text(text);
        let mut html = String::new();
        let mut i: usize = 0;
        while i < sections.len()
            invariant
                sections@.len() == self@.len(),
                forall|k: int|
                    0 <= k < sections@.len() ==> {
                        &&& (#[trigger] sections@[k]).class@ == class_text(self@[k].balise)
                        &&& sections@[k].text@ == section_text(self@, text.spec_bytes(), k)
                    },
                i <= sections@.len(),
                html@ == spans(self@, text.spec_bytes(), i as int),
            decreases sections.len() - i,
        {
            html.append("<span class=\"");
            html.append(sections[i].class.as_str());
            html.append("\">");
            html.append(sections[i].text.as_str());
            html.append("</span>");
            i += 1;
        }
        html
    }
}

} // verus!
