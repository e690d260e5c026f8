use vstd::prelude::*;

use crate::interpreter::value::TypeId;

verus! {

/// Input types `inputs` fit the signature `sig`, in order or, when `symmetric`, reversed.
pub open spec fn signature_matches(sig: Seq<TypeId>, symmetric: bool, inputs: Seq<TypeId>) -> bool {
    ||| inputs == sig
    ||| symmetric && inputs == sig.reverse()
}

/// Which input types fit a signature: the declared types in their order always do, whatever
/// the signature's symmetry; a symmetric signature also takes them reversed, and with it the
/// reverse of any fitting inputs fits; a signature that is not symmetric takes nothing else.
/// Fitting inputs are as many as the declared types.
pub proof fn lemma_signature_matches(sig: Seq<TypeId>, symmetric: bool, inputs: Seq<TypeId>)
    ensures
        signature_matches(sig, symmetric, sig),
        signature_matches(sig, true, sig.reverse()),
        !symmetric ==> (signature_matches(sig, symmetric, inputs) <==> inputs == sig),
        symmetric ==> (signature_matches(sig, symmetric, inputs) <==> signature_matches(
            sig,
            symmetric,
            inputs.reverse(),
        )),
        signature_matches(sig, symmetric, inputs) ==> inputs.len() == sig.len(),
        signature_matches(sig, symmetric, inputs) ==> inputs == sig || inputs == sig.reverse(),
{
    assert(inputs.reverse().reverse() =~= inputs);
    assert(sig.reverse().reverse() =~= sig);
    if inputs == sig.reverse() {
        assert(inputs.reverse() =~= sig);
    }
    if inputs.reverse() == sig.reverse() {
        assert(inputs =~= inputs.reverse().reverse());
    }
    if inputs.reverse() == sig {
        assert(inputs =~= sig.reverse());
    }
}

/// An implementation of an operator for given input types; `F` is the computation.
pub struct OperatorImplementation<F> {
    inputs_type: Vec<TypeId>,
    symmetric: bool,
    pub implementation: F,
}

impl<F> OperatorImplementation<F> {
    /// The input types of this implementation.
    pub closed spec fn spec_inputs_type(&self) -> Seq<TypeId> {
        self.inputs_type@
    }

    /// The computation of this implementation.
    pub closed spec fn spec_implementation(&self) -> F {
        self.implementation
    }

    /// Whether the inputs may also come in reverse order.
    pub closed spec fn spec_symmetric(&self) -> bool {
        self.symmetric
    }

    pub fn new(inputs_type: Vec<TypeId>, symmetric: bool, implementation: F) -> (r: Self)
        ensures
            r.spec_inputs_type() == inputs_type@,
            r.spec_symmetric() == symmetric,
            r.spec_implementation() == implementation,
    {
        Self { inputs_type, symmetric, implementation }
    }

    /// The computation of this implementation.
    pub fn implementation(&self) -> (r: &F)
        ensures
            *r == self.spec_implementation(),
    {
        &self.implementation
    }

    fn equal_in_order(a: &[TypeId], b: &[TypeId]) -> (r: bool)
        ensures
            r == (a@ == b@),
    {
        if a.len() != b.len() {
            return false;
        }
        let mut i: usize = 0;
        while i < a.len()
            invariant
                a@.len() == b@.len(),
                i <= a@.len(),
                forall|j: int| 0 <= j < i ==> a@[j] == b@[j],
            decreases a.len() - i,
        {
            if a[i] != b[i] {
                return false;
            }
            i += 1;
        }
        assert(a@ =~= b@);
        true
    }

    fn equal_reversed(a: &[TypeId], b: &[TypeId]) -> (r: bool)
        ensures
            r == (b@ == a@.reverse()),
    {
        if a.len() != b.len() {
            return false;
        }
        let n = a.len();
        let mut i: usize = 0;
        while i < n
            invariant
                a@.len() == n,
                b@.len() == n,
                i <= n,
                forall|j: int| 0 <= j < i ==> b@[j] == a@[n - 1 - j],
            decreases n - i,
        {
            if b[i] != a[n - 1 - i] {
                assert(b@[i as int] != a@.reverse()[i as int]);
                return false;
            }
            i += 1;
        }
        assert(b@ =~= a@.reverse());
        true
    }

    /// The types of `inputs` fit this implementation.
    pub fn matches(&self, inputs: &[TypeId]) -> (r: bool)
        ensures
            r == signature_matches(self.spec_inputs_type(), self.spec_symmetric(), inputs@),
            inputs@ == self.spec_inputs_type() ==> r,
            self.spec_symmetric() && inputs@ == self.spec_inputs_type().reverse() ==> r,
            r ==> inputs@ == self.spec_inputs_type() || (self.spec_symmetric() && inputs@
                == self.spec_inputs_type().reverse()),
    {
        if self.symmetric {
            return Self::equal_in_order(self.inputs_type.as_slice(), inputs)
                || Self::equal_reversed(self.inputs_type.as_slice(), inputs);
        }
        Self::equal_in_order(self.inputs_type.as_slice(), inputs)
    }
}

} // verus!
