use vstd::prelude::*;

use crate::interpreter::ast::location::LocationIndex;

verus! {

/// What an output shows: a result, or an error.
#[derive(Clone)]
pub enum OutputMessage {
    Result(String),
    Error(String),
}

/// One output of a program, shown next to the text that produced it.
#[derive(Clone)]
pub struct Output {
    /// Location in the text when the interpreter ran it.
    pub initial_location: LocationIndex,
    /// Index used to place the ghost overlay even if the text changes.
    pub index: usize,
    pub message: OutputMessage,
}

impl Output {
    pub fn new(location: LocationIndex, message: OutputMessage, index: usize) -> (r: Self)
        ensures
            r == (Output { initial_location: location, index, message }),
    {
        Self { initial_location: location, index, message }
    }
}

/// Gathers the outputs of a program, numbering them in the order they come.
#[derive(Clone)]
pub struct OutputCollector {
    pub outputs: Vec<Output>,
    nb_ghost_overlay: usize,
}

impl OutputCollector {
    /// The outputs gathered so far.
    pub closed spec fn spec_outputs(&self) -> Seq<Output> {
        self.outputs@
    }

    /// Number of outputs added so far.
    pub closed spec fn added(&self) -> nat {
        self.nb_ghost_overlay as nat
    }

    /// The outputs are numbered 0, 1, 2, ... in order, and their count is the number added.
    pub closed spec fn numbered(&self) -> bool {
        &&& self.outputs@.len() == self.added()
        &&& forall|i: int| 0 <= i < self.outputs@.len() ==> #[trigger] self.outputs@[i].index == i
    }

    /// What `numbered` means: output `i` carries the number `i`, and every added output is kept.
    pub proof fn lemma_numbered(&self)
        requires
            self.numbered(),
        ensures
            self.spec_outputs().len() == self.added(),
            forall|i: int|
                0 <= i < self.spec_outputs().len() ==> #[trigger] self.spec_outputs()[i].index == i,
    {
    }

    /// The outputs gathered so far.
    pub fn outputs(&self) -> (r: &Vec<Output>)
        ensures
            r@ == self.spec_outputs(),
    {
        &self.outputs
    }

    pub fn new() -> (r: Self)
        ensures
            r.spec_outputs() == Seq::<Output>::empty(),
            r.added() == 0,
            r.numbered(),
    {
        Self { outputs: Vec::new(), nb_ghost_overlay: 0 }
    }

    /// Number of outputs added so far.
    pub fn nb_ghost_overlay(&self) -> (r: usize)
        ensures
            r == self.added(),
    {
        self.nb_ghost_overlay
    }

    /// Adds an output, numbered after the ones added before.
    pub fn add(&mut self, location: LocationIndex, message: OutputMessage)
        requires
            old(self).added() < usize::MAX,
        ensures
            final(self).spec_outputs() == old(self).spec_outputs().push(
                Output { initial_location: location, index: old(self).added() as usize, message },
            ),
            final(self).added() == old(self).added() + 1,
            old(self).numbered() ==> final(self).numbered(),
            output_added(*old(self), location, message, *final(self)),
    {
        let o = Output::new(location, message, self.nb_ghost_overlay);
        self.outputs.push(o);
        self.nb_ghost_overlay = self.nb_ghost_overlay + 1;
    }
}

/// What `OutputCollector::add` does to `before` with `location` and `message`, giving `after`.
pub open spec fn output_added(
    before: OutputCollector,
    location: LocationIndex,
    message: OutputMessage,
    after: OutputCollector,
) -> bool {
    &&& after.spec_outputs() == before.spec_outputs().push(
        Output { initial_location: location, index: before.added() as usize, message },
    )
    &&& after.added() == before.added() + 1
}

/// The outputs that adding `locations` and `messages` in turn to a new collector gives:
/// output `i` is the `i`-th added, numbered `i`.
pub open spec fn outputs_in_order(locations: Seq<LocationIndex>, messages: Seq<OutputMessage>) -> Seq<
    Output,
> {
    Seq::new(
        locations.len(),
        |i: int| Output { initial_location: locations[i], index: i as usize, message: messages[i] },
    )
}

/// A collector made by `OutputCollector::new` and then only given outputs by
/// `OutputCollector::add` holds, after every call, the outputs added so far in the order they
/// came, output `i` carrying the number `i`: the numbers are distinct and run from 0 up.
/// `collectors[k]` is the collector after `k` calls, the `k`-th of which added `locations[k]`
/// and `messages[k]`.
pub proof fn lemma_outputs_numbered(
    collectors: Seq<OutputCollector>,
    locations: Seq<LocationIndex>,
    messages: Seq<OutputMessage>,
)
    requires
        collectors.len() == locations.len() + 1,
        messages.len() == locations.len(),
        collectors[0].spec_outputs() == Seq::<Output>::empty(),
        collectors[0].added() == 0,
        forall|k: int|
            0 <= k < locations.len() ==> output_added(
                #[trigger] collectors[k],
                locations[k],
                messages[k],
                collectors[k + 1],
            ),
    ensures
        forall|k: int|
            0 <= k < collectors.len() ==> {
                &&& #[trigger] collectors[k].added() == k
                &&& collectors[k].spec_outputs() == outputs_in_order(
                    locations.take(k),
                    messages.take(k),
                )
                &&& forall|i: int|
                    0 <= i < k ==> #[trigger] collectors[k].spec_outputs()[i].index == i
            },
    decreases locations.len(),
{
    let n: int = locations.len() as int;
    if n > 0 {
        let cs = collectors.drop_last();
        let ls = locations.drop_last();
        let ms = messages.drop_last();
        assert forall|k: int| 0 <= k < ls.len() implies output_added(
            #[trigger] cs[k],
            ls[k],
            ms[k],
            cs[k + 1],
        ) by {
            assert(output_added(collectors[k], locations[k], messages[k], collectors[k + 1]));
        }
        lemma_outputs_numbered(cs, ls, ms);
        let before = collectors[n - 1];
        let after = collectors[n];
        assert(cs[n - 1] == before);
        assert(output_added(before, locations[n - 1], messages[n - 1], after));
        assert(before.added() == n - 1);
        assert(before.nb_ghost_overlay as nat == before.added());
        assert forall|k: int| 0 <= k < collectors.len() implies {
            &&& #[trigger] collectors[k].added() == k
            &&& collectors[k].spec_outputs() == outputs_in_order(
                locations.take(k),
                messages.take(k),
            )
            &&& forall|i: int|
                0 <= i < k ==> #[trigger] collectors[k].spec_outputs()[i].index == i
        } by {
            if k < n {
                assert(cs[k] == collectors[k]);
                assert(ls.take(k) =~= locations.take(k));
                assert(ms.take(k) =~= messages.take(k));
            } else {
                assert(ls.take(n - 1) =~= locations.take(n - 1));
                assert(ms.take(n - 1) =~= messages.take(n - 1));
                assert(after.spec_outputs() =~= outputs_in_order(
                    locations.take(k),
                    messages.take(k),
                ));
            }
        }
    }
}

} // verus!
