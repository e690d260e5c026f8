use vstd::prelude::*;

use crate::interpreter::ast::location::RangeReverseLocation;
use crate::interpreter::error::{message_text, Error, ErrorMessage, ErrorView};

verus! {

/// Messages of `errors`, one per line.
pub open spec fn joined_messages(errors: Seq<ErrorView>) -> Seq<char>
    decreases errors.len(),
{
    if errors.len() == 0 {
        Seq::empty()
    } else if errors.len() == 1 {
        message_text(errors[0].name, errors[0].description, errors[0].loc_range)
    } else {
        joined_messages(errors.drop_last()) + seq!['\n'] + message_text(
            errors.last().name,
            errors.last().description,
            errors.last().loc_range,
        )
    }
}

/// The location that `set_loc_range` leaves on an error.
pub open spec fn with_location(e: ErrorView, loc: RangeReverseLocation) -> ErrorView {
    ErrorView { loc_range: if e.loc_range is None { Some(loc) } else { e.loc_range }, ..e }
}

/// Gathers the errors raised while a program runs.
#[derive(Clone)]
pub struct ErrorCollector {
    errors: Vec<Error>,
}

impl View for ErrorCollector {
    type V = Seq<ErrorView>;

    closed spec fn view(&self) -> Seq<ErrorView> {
        self.errors@.map_values(|e: Error| e@)
    }
}

impl ErrorCollector {
    pub fn new() -> (r: Self)
        ensures
            r@ == Seq::<ErrorView>::empty(),
    {
        let r = Self { errors: Vec::new() };
        assert(r@ =~= Seq::<ErrorView>::empty());
        r
    }

    pub fn get_errors(&self) -> (r: &Vec<Error>)
        ensures
            r@.map_values(|e: Error| e@) == self@,
    {
        &self.errors
    }

    pub fn clear_errors(&mut self)
        ensures
            final(self)@ == Seq::<ErrorView>::empty(),
    {
        self.errors.clear();
        assert(self@ =~= Seq::<ErrorView>::empty());
    }

    pub fn raise<M: ErrorMessage>(&mut self, error: M)
        ensures
            final(self)@ == old(self)@.push(
                ErrorView {
                    loc_range: None,
                    name: error.spec_name(),
                    description: error.spec_description(),
                },
            ),
    {
        let e = Error::new(error);
        self.errors.push(e);
        assert(self@ =~= old(self)@.push(e@));
    }

    pub fn add_error(&mut self, error: Error)
        ensures
            final(self)@ == old(self)@.push(error@),
    {
        self.errors.push(error);
        assert(self@ =~= old(self)@.push(error@));
    }

    /// Gives `loc_range` to every error that has no location yet.
    pub fn set_loc_range(&mut self, loc_range: &RangeReverseLocation)
        ensures
            final(self)@.len() == old(self)@.len(),
            forall|i: int|
                0 <= i < old(self)@.len() ==> #[trigger] final(self)@[i] == with_location(
                    old(self)@[i],
                    *loc_range,
                ),
    {
        let mut taken: Vec<Error> = Vec::new();
        std::mem::swap(&mut taken, &mut self.errors);
        let ghost before = taken@;
        let mut result: Vec<Error> = Vec::new();
        for e in it: taken.into_iter()
            invariant
                before == old(self).errors@,
                it.seq() == before,
                result@.len() == it.index(),
                forall|k: int|
                    0 <= k < it.index() ==> #[trigger] result@[k]@ == with_location(
                        before[k]@,
                        *loc_range,
                    ),
        {
            let mut e = e;
            e.set_loc_range(loc_range);
            result.push(e);
        }
        self.errors = result;
    }

    /// Messages of all errors, one per line.
    pub fn into_string(&self) -> (r: String)
        ensures
            r@ == joined_messages(self@),
    {
        let mut s = String::new();
        let n = self.errors.len();
        let mut i: usize = 0;
        while i < n
            invariant
                n == self.errors@.len(),
                0 <= i <= n,
                s@ == joined_messages(self@.subrange(0, i as int)),
            decreases n - i,
        {
            if i > 0 {
                crate::text::push_char(&mut s, '\n');
            }
            let m = self.errors[i].get_message();
            s.append(m.as_str());
            proof {
                let sub = self@.subrange(0, i + 1);
                assert(sub.drop_last() =~= self@.subrange(0, i as int));
                assert(sub.last() == self.errors@[i as int]@);
            }
            i += 1;
        }
        assert(self@.subrange(0, n as int) =~= self@);
        s
    }
}

} // verus!
