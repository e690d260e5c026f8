use vstd::prelude::*;

use crate::interpreter::error::collector::ErrorCollector;
use crate::interpreter::error::{ErrorView, UnsupportedError};
use crate::interpreter::operator::implementation::{lemma_signature_matches, signature_matches, OperatorImplementation};
use crate::interpreter::operator::Operator;
use crate::interpreter::value::TypeId;

verus! {

/// What an operator applied to inputs comes to: the implementation to run, or a failure.
pub enum Computation<'a, F> {
    Apply(&'a F),
    Failed,
}

/// Index of the first implementation in `impls` that fits `inputs`.
pub open spec fn first_match<F>(impls: Seq<OperatorImplementation<F>>, inputs: Seq<TypeId>) -> Option<int>
    decreases impls.len(),
{
    if impls.len() == 0 {
        None
    } else if signature_matches(impls[0].spec_inputs_type(), impls[0].spec_symmetric(), inputs) {
        Some(0)
    } else {
        match first_match(impls.drop_first(), inputs) {
            Some(i) => Some(i + 1),
            None => None,
        }
    }
}

/// An implementation declared for exactly the input types `inputs` is found: the first fitting
/// one stands no later than it, whether or not its signature is symmetric.
pub proof fn lemma_first_match_declared<F>(impls: Seq<OperatorImplementation<F>>, inputs: Seq<TypeId>, k: int)
    requires
        0 <= k < impls.len(),
        impls[k].spec_inputs_type() == inputs,
    ensures
        first_match(impls, inputs) is Some,
        0 <= first_match(impls, inputs).unwrap() <= k,
    decreases k,
{
    lemma_signature_matches(impls[k].spec_inputs_type(), impls[k].spec_symmetric(), inputs);
    if !signature_matches(impls[0].spec_inputs_type(), impls[0].spec_symmetric(), inputs) {
        assert(k > 0);
        assert(impls.drop_first()[k - 1] == impls[k]);
        lemma_first_match_declared(impls.drop_first(), inputs, k - 1);
    }
}

/// The error raised when no implementation fits.
pub open spec fn unsupported_operator_error() -> ErrorView {
    ErrorView {
        loc_range: None,
        name: "UnsupportedError"@,
        description: "The functionality '"@ + "operator for given inputs"@ + "' is not supported"@,
    }
}

/// Implementations of each operator, in the order they were added.
pub open spec fn table_map<F>(s: Seq<(Operator, Vec<OperatorImplementation<F>>)>) -> Map<Operator, Seq<OperatorImplementation<F>>>
    decreases s.len(),
{
    if s.len() == 0 {
        Map::empty()
    } else {
        table_map(s.drop_last()).insert(s.last().0, s.last().1@)
    }
}

proof fn lemma_table_last<F>(s: Seq<(Operator, Vec<OperatorImplementation<F>>)>, op: Operator, i: int)
    requires
        0 <= i < s.len(),
        s[i].0 == op,
        forall|j: int| i < j < s.len() ==> #[trigger] s[j].0 != op,
    ensures
        table_map(s).contains_key(op),
        table_map(s)[op] == s[i].1@,
    decreases s.len(),
{
    if i < s.len() - 1 {
        assert(s[s.len() - 1].0 != op);
        lemma_table_last(s.drop_last(), op, i);
    }
}

proof fn lemma_table_none<F>(s: Seq<(Operator, Vec<OperatorImplementation<F>>)>, op: Operator)
    requires
        forall|j: int| 0 <= j < s.len() ==> #[trigger] s[j].0 != op,
    ensures
        !table_map(s).contains_key(op),
    decreases s.len(),
{
    if s.len() > 0 {
        assert(s[s.len() - 1].0 != op);
        lemma_table_none(s.drop_last(), op);
    }
}

proof fn lemma_table_update<F>(
    s: Seq<(Operator, Vec<OperatorImplementation<F>>)>,
    op: Operator,
    i: int,
    e: (Operator, Vec<OperatorImplementation<F>>),
)
    requires
        0 <= i < s.len(),
        s[i].0 == op,
        forall|j: int| i < j < s.len() ==> #[trigger] s[j].0 != op,
        e.0 == op,
    ensures
        table_map(s.update(i, e)) == table_map(s).insert(op, e.1@),
    decreases s.len(),
{
    let t = s.update(i, e);
    if i == s.len() - 1 {
        assert(t.drop_last() =~= s.drop_last());
        assert(table_map(t) =~= table_map(s).insert(op, e.1@));
    } else {
        assert(s[s.len() - 1].0 != op);
        assert(t.drop_last() =~= s.drop_last().update(i, e));
        lemma_table_update(s.drop_last(), op, i, e);
        assert(table_map(t) =~= table_map(s).insert(op, e.1@));
    }
}

/// The implementations of every operator.
pub struct OperatorTable<F> {
    implementations: Vec<(Operator, Vec<OperatorImplementation<F>>)>,
}

impl<F> View for OperatorTable<F> {
    type V = Map<Operator, Seq<OperatorImplementation<F>>>;

    closed spec fn view(&self) -> Map<Operator, Seq<OperatorImplementation<F>>> {
        table_map(self.implementations@)
    }
}

impl<F> OperatorTable<F> {
    pub fn new() -> (r: Self)
        ensures
            r@ == Map::<Operator, Seq<OperatorImplementation<F>>>::empty(),
    {
        Self { implementations: Vec::new() }
    }

    fn find(&self, operator: Operator) -> (r: Option<usize>)
        ensures
            r matches Some(i) ==> {
                &&& i < self.implementations@.len()
                &&& self.implementations@[i as int].0 == operator
                &&& forall|j: int|
                    i < j < self.implementations@.len() ==> #[trigger] self.implementations@[j].0
                        != operator
            },
            r is None ==> forall|j: int|
                0 <= j < self.implementations@.len() ==> #[trigger] self.implementations@[j].0
                    != operator,
    {
        let mut i = self.implementations.len();
        while i > 0
            invariant
                i <= self.implementations@.len(),
                forall|j: int|
                    i <= j < self.implementations@.len() ==> #[trigger] self.implementations@[j].0
                        != operator,
            decreases i,
        {
            i = i - 1;
            if self.implementations[i].0 == operator {
                return Some(i);
            }
        }
        None
    }

    /// Adds `implementation` after the implementations already known for `operator`.
    pub fn add_implementation(&mut self, operator: Operator, implementation: OperatorImplementation<F>)
        ensures
            final(self)@ == old(self)@.insert(
                operator,
                if old(self)@.contains_key(operator) {
                    old(self)@[operator].push(implementation)
                } else {
                    seq![implementation]
                },
            ),
    {
        match self.find(operator) {
            Some(i) => {
                proof {
                    lemma_table_last(self.implementations@, operator, i as int);
                }
                let mut taken: Vec<(Operator, Vec<OperatorImplementation<F>>)> = Vec::new();
                std::mem::swap(&mut taken, &mut self.implementations);
                let ghost before = taken@;
                let (op, mut impls) = taken.remove(i);
                let ghost removed = taken@;
                impls.push(implementation);
                taken.insert(i, (op, impls));
                proof {
                    assert(taken@ =~= before.update(i as int, (op, impls)));
                    lemma_table_update(before, operator, i as int, (op, impls));
                }
                self.implementations = taken;
            },
            None => {
                proof {
                    lemma_table_none(self.implementations@, operator);
                }
                let mut impls = Vec::new();
                impls.push(implementation);
                self.implementations.push((operator, impls));
                proof {
                    assert(self.implementations@.drop_last() =~= old(self).implementations@);
                    assert(impls@ =~= seq![implementation]);
                }
            },
        }
    }

    fn any_failed(inputs: &[TypeId]) -> (r: bool)
        ensures
            r == inputs@.contains(TypeId::Failed),
    {
        let mut i: usize = 0;
        while i < inputs.len()
            invariant
                i <= inputs@.len(),
                forall|j: int| 0 <= j < i ==> inputs@[j] != TypeId::Failed,
            decreases inputs.len() - i,
        {
            if inputs[i] == TypeId::Failed {
                return true;
            }
            i += 1;
        }
        false
    }

    fn first_matching<'a>(impls: &'a Vec<OperatorImplementation<F>>, inputs: &[TypeId]) -> (r: Option<&'a F>)
        ensures
            first_match(impls@, inputs@) matches Some(j) ==> 0 <= j < impls@.len() && (r matches Some(
                f) && *f == impls@[j].spec_implementation()),
            first_match(impls@, inputs@) is None ==> r is None,
    {
        let mut i: usize = 0;
        assert(impls@.skip(0) =~= impls@);
        while i < impls.len()
            invariant
                i <= impls@.len(),
                first_match(impls@, inputs@) == (match first_match(impls@.skip(i as int), inputs@) {
                    Some(k) => Some(k + i),
                    None => None,
                }),
            decreases impls.len() - i,
        {
            if impls[i].matches(inputs) {
                assert(impls@.skip(i as int)[0] == impls@[i as int]);
                return Some(impls[i].implementation());
            }
            assert(impls@.skip(i as int).drop_first() =~= impls@.skip(i + 1));
            i += 1;
        }
        assert(impls@.skip(i as int).len() == 0);
        None
    }

    /// Selects the implementation of `operator` for inputs of types `inputs`: a failed input
    /// fails the whole computation; otherwise the first implementation that fits is chosen; when
    /// none fits, an `UnsupportedError` is raised and the computation fails.
    pub fn compute<'a>(&'a self, operator: &Operator, inputs: &[TypeId], errors: &mut ErrorCollector) -> (r: Computation<'a, F>)
        ensures
            inputs@.contains(TypeId::Failed) ==> r is Failed && final(errors)@ == old(errors)@,
            !inputs@.contains(TypeId::Failed) ==> {
                match (if self@.contains_key(*operator) { first_match(self@[*operator], inputs@) } else { None }) {
                    Some(j) => (r matches Computation::Apply(f) && *f == self@[*operator][j].spec_implementation())
                        && final(errors)@ == old(errors)@,
                    None => r is Failed && final(errors)@ == old(errors)@.push(
                        unsupported_operator_error(),
                    ),
                }
            },
    {
        if Self::any_failed(inputs) {
            return Computation::Failed;
        }
        match self.find(*operator) {
            Some(i) => {
                proof {
                    lemma_table_last(self.implementations@, *operator, i as int);
                }
                match Self::first_matching(&self.implementations[i].1, inputs) {
                    Some(f) => {
                        return Computation::Apply(f);
                    },
                    None => {},
                }
            },
            None => {
                proof {
                    lemma_table_none(self.implementations@, *operator);
                }
            },
        }
        errors.raise(UnsupportedError { functionality: "operator for given inputs" });
        Computation::Failed
    }
}

} // verus!
