pub mod function;
pub mod output;

use vstd::prelude::*;

use crate::interpreter::error::collector::ErrorCollector;
use crate::interpreter::error::{assignment_description, AssignmentError, ErrorView, UndefinedError};

verus! {

/// How an assignment treats the variable it names.
#[derive(Debug, Clone, Copy, PartialEq, Eq, Structural)]
pub enum AssignmentOperator {
    Define,
    Reassign,
    Push,
}

/// A possibly dotted name; its last part names the variable.
#[derive(Debug, Clone, PartialEq)]
pub struct Identifier {
    pub text: Vec<String>,
}

impl Identifier {
    /// The variable name: the last part of the identifier.
    pub open spec fn last_name(&self) -> Seq<char> {
        self.text@.last()@
    }
}

/// The variables of a scope, by name; a later entry for a name hides an earlier one.
pub open spec fn entries_map<V>(s: Seq<(String, V)>) -> Map<Seq<char>, V>
    decreases s.len(),
{
    if s.len() == 0 {
        Map::empty()
    } else {
        entries_map(s.drop_last()).insert(s.last().0@, s.last().1)
    }
}

/// Entry `i` is the last one in `s` whose name is `k`.
pub open spec fn last_entry<V>(s: Seq<(String, V)>, k: Seq<char>, i: int) -> bool {
    &&& 0 <= i < s.len()
    &&& s[i].0@ == k
    &&& forall|j: int| i < j < s.len() ==> #[trigger] s[j].0@ != k
}

proof fn lemma_last_entry<V>(s: Seq<(String, V)>, k: Seq<char>, i: int)
    requires
        last_entry(s, k, i),
    ensures
        entries_map(s).contains_key(k),
        entries_map(s)[k] == s[i].1,
    decreases s.len(),
{
    if i < s.len() - 1 {
        assert(s.last().0@ != k) by {
            assert(s[s.len() - 1].0@ != k);
        }
        lemma_last_entry(s.drop_last(), k, i);
    }
}

proof fn lemma_no_entry<V>(s: Seq<(String, V)>, k: Seq<char>)
    requires
        forall|j: int| 0 <= j < s.len() ==> #[trigger] s[j].0@ != k,
    ensures
        !entries_map(s).contains_key(k),
    decreases s.len(),
{
    if s.len() > 0 {
        assert(s.last().0@ != k) by {
            assert(s[s.len() - 1].0@ != k);
        }
        lemma_no_entry(s.drop_last(), k);
    }
}

proof fn lemma_replace_last_entry<V>(s: Seq<(String, V)>, k: Seq<char>, i: int, e: (String, V))
    requires
        last_entry(s, k, i),
        e.0@ == k,
    ensures
        entries_map(s.update(i, e)) == entries_map(s).insert(k, e.1),
    decreases s.len(),
{
    let t = s.update(i, e);
    if i == s.len() - 1 {
        assert(t.drop_last() =~= s.drop_last());
        assert(entries_map(t) =~= entries_map(s).insert(k, e.1));
    } else {
        assert(s.last().0@ != k) by {
            assert(s[s.len() - 1].0@ != k);
        }
        assert(t.drop_last() =~= s.drop_last().update(i, e));
        lemma_replace_last_entry(s.drop_last(), k, i, e);
        assert(entries_map(t) =~= entries_map(s).insert(k, e.1));
    }
}

/// The variables that a program has defined.
pub struct Scope<V> {
    variables: Vec<(String, V)>,
}

impl<V> View for Scope<V> {
    type V = Map<Seq<char>, V>;

    closed spec fn view(&self) -> Map<Seq<char>, V> {
        entries_map(self.variables@)
    }
}

/// The error view of an undefined variable named `k`.
pub open spec fn undefined_error(k: Seq<char>) -> ErrorView {
    ErrorView {
        loc_range: None,
        name: "UndefinedError"@,
        description: "The variable '"@ + k + "' is not defined"@,
    }
}

/// The error view of an assignment refused for the variable named `k`.
pub open spec fn assignment_error(k: Seq<char>, op: AssignmentOperator) -> ErrorView {
    ErrorView { loc_range: None, name: "AssignmentError"@, description: assignment_description(op, k) }
}

/// Whether an assignment is refused: `Define` of a variable that exists, `Reassign` or `Push`
/// of one that does not.
pub open spec fn assignment_refused(op: AssignmentOperator, present: bool) -> bool {
    let must_exist = match op {
        AssignmentOperator::Define => false,
        AssignmentOperator::Reassign => true,
        AssignmentOperator::Push => true,
    };
    must_exist != present
}

/// What an accepted assignment writes is what reading the variable gives back, and every
/// other variable keeps its value. Which assignments are accepted: a `Define` of a new
/// variable, a `Reassign` or `Push` of an existing one.
pub proof fn lemma_read_after_assignment<V>(
    before: Map<Seq<char>, V>,
    k: Seq<char>,
    v: V,
    op: AssignmentOperator,
    other: Seq<char>,
)
    requires
        !assignment_refused(op, before.contains_key(k)),
    ensures
        before.insert(k, v).contains_key(k),
        before.insert(k, v)[k] == v,
        other != k ==> before.insert(k, v).contains_key(other) == before.contains_key(other),
        other != k && before.contains_key(other) ==> before.insert(k, v)[other] == before[other],
        op is Define ==> !before.contains_key(k),
        !(op is Define) ==> before.contains_key(k),
{
}

impl<V> Scope<V> {
    pub fn new() -> (r: Self)
        ensures
            r@ == Map::<Seq<char>, V>::empty(),
    {
        Self { variables: Vec::new() }
    }

    /// Index of the last entry named `name`, if any.
    fn find(&self, name: &String) -> (r: Option<usize>)
        ensures
            r matches Some(i) ==> last_entry(self.variables@, name@, i as int),
            r is None ==> forall|j: int|
                0 <= j < self.variables@.len() ==> #[trigger] self.variables@[j].0@ != name@,
    {
        let mut i = self.variables.len();
        while i > 0
            invariant
                i <= self.variables@.len(),
                forall|j: int|
                    i <= j < self.variables@.len() ==> #[trigger] self.variables@[j].0@ != name@,
            decreases i,
        {
            i = i - 1;
            if self.variables[i].0 == *name {
                return Some(i);
            }
        }
        None
    }

    /// The value of the variable named by `key`; raises `UndefinedError` when it is not defined.
    pub fn get_value(&self, key: &Identifier, errors: &mut ErrorCollector) -> (r: Option<&V>)
        requires
            key.text@.len() > 0,
        ensures
            self@.contains_key(key.last_name()) ==> r == Some(&self@[key.last_name()])
                && final(errors)@ == old(errors)@,
            !self@.contains_key(key.last_name()) ==> r is None
                && final(errors)@ == old(errors)@.push(undefined_error(key.last_name())),
    {
        let name = &key.text[key.text.len() - 1];
        match self.find(name) {
            Some(i) => {
                proof {
                    lemma_last_entry(self.variables@, name@, i as int);
                }
                Some(&self.variables[i].1)
            },
            None => {
                proof {
                    lemma_no_entry(self.variables@, name@);
                }
                errors.raise(UndefinedError { variable_name: name.clone() });
                None
            },
        }
    }

    /// Assigns `value` to the variable named by `key`, or raises `AssignmentError` when
    /// `assignment_operator` does not allow it.
    pub fn assign_value(
        &mut self,
        key: &Identifier,
        value: V,
        assignment_operator: &AssignmentOperator,
        errors: &mut ErrorCollector,
    )
        requires
            key.text@.len() > 0,
        ensures
            assignment_refused(*assignment_operator, old(self)@.contains_key(key.last_name()))
                ==> final(self)@ == old(self)@ && final(errors)@ == old(errors)@.push(
                assignment_error(key.last_name(), *assignment_operator),
            ),
            !assignment_refused(*assignment_operator, old(self)@.contains_key(key.last_name()))
                ==> final(self)@ == old(self)@.insert(key.last_name(), value) && final(errors)@
                == old(errors)@,
    {
        let last_key = key.text[key.text.len() - 1].clone();
        let must_exist = match assignment_operator {
            AssignmentOperator::Define => false,
            AssignmentOperator::Reassign => true,
            AssignmentOperator::Push => true,
        };
        let found = self.find(&last_key);
        proof {
            match found {
                Some(i) => lemma_last_entry(self.variables@, last_key@, i as int),
                None => lemma_no_entry(self.variables@, last_key@),
            }
        }
        if must_exist != found.is_some() {
            let e = AssignmentError {
                variable_name: last_key,
                assignment_operator: *assignment_operator,
            };
            errors.raise(e);
        } else {
            match found {
                Some(i) => {
                    proof {
                        lemma_replace_last_entry(self.variables@, last_key@, i as int, (last_key, value));
                    }
                    self.variables.set(i, (last_key, value));
                },
                None => {
                    self.variables.push((last_key, value));
                    proof {
                        assert(self.variables@.drop_last() =~= old(self).variables@);
                    }
                },
            }
        }
    }
}

/// `t` has the names of `s`, and values cloned from those of `s`.
pub open spec fn cloned_entries<V: Clone>(s: Seq<(String, V)>, t: Seq<(String, V)>) -> bool {
    &&& s.len() == t.len()
    &&& forall|i: int|
        0 <= i < s.len() ==> #[trigger] t[i].0@ == s[i].0@ && cloned::<V>(s[i].1, t[i].1)
}

proof fn lemma_cloned_entries<V: Clone>(s: Seq<(String, V)>, t: Seq<(String, V)>)
    requires
        cloned_entries(s, t),
    ensures
        entries_map(t).dom() == entries_map(s).dom(),
        forall|k: Seq<char>|
            #![trigger entries_map(t)[k]]
            entries_map(s).contains_key(k) ==> cloned::<V>(entries_map(s)[k], entries_map(t)[k]),
    decreases s.len(),
{
    if s.len() > 0 {
        lemma_cloned_entries(s.drop_last(), t.drop_last());
        assert(t[t.len() - 1].0@ == s[s.len() - 1].0@);
        assert(cloned::<V>(s[s.len() - 1].1, t[t.len() - 1].1));
        assert(entries_map(t).dom() =~= entries_map(s).dom());
    }
}

proof fn lemma_entries_concat<V>(a: Seq<(String, V)>, b: Seq<(String, V)>)
    ensures
        entries_map(a + b) == entries_map(a).union_prefer_right(entries_map(b)),
    decreases b.len(),
{
    if b.len() == 0 {
        assert(a + b =~= a);
        assert(entries_map(a).union_prefer_right(entries_map(b)) =~= entries_map(a));
    } else {
        lemma_entries_concat(a, b.drop_last());
        assert((a + b).drop_last() =~= a + b.drop_last());
        assert(entries_map(a + b) =~= entries_map(a).union_prefer_right(entries_map(b)));
    }
}

impl<V: Clone> Scope<V> {
    /// Appends clones of the entries of `from` to `into`.
    fn clone_entries_into(into: &mut Vec<(String, V)>, from: &Vec<(String, V)>)
        ensures
            final(into)@.len() == old(into)@.len() + from@.len(),
            final(into)@.subrange(0, old(into)@.len() as int) == old(into)@,
            cloned_entries(from@, final(into)@.subrange(old(into)@.len() as int, final(into)@.len() as int)),
    {
        let ghost start = into@.len();
        let mut i: usize = 0;
        while i < from.len()
            invariant
                i <= from@.len(),
                into@.len() == start + i,
                start == old(into)@.len(),
                into@.subrange(0, start as int) == old(into)@,
                cloned_entries(from@.subrange(0, i as int), into@.subrange(start as int, into@.len() as int)),
            decreases from.len() - i,
        {
            let name = from[i].0.clone();
            let value = from[i].1.clone();
            let ghost prev = into@;
            into.push((name, value));
            proof {
                assert(into@.subrange(0, start as int) =~= old(into)@);
                let a = from@.subrange(0, i + 1);
                let b = into@.subrange(start as int, into@.len() as int);
                assert(a.drop_last() =~= from@.subrange(0, i as int));
                assert forall|j: int| 0 <= j < a.len() implies #[trigger] b[j].0@ == a[j].0@ && cloned::<V>(a[j].1, b[j].1) by {
                    if j < i {
                        assert(b[j] == prev.subrange(start as int, prev.len() as int)[j]);
                        assert(a[j] == from@.subrange(0, i as int)[j]);
                    }
                }
            }
            i += 1;
        }
        assert(from@.subrange(0, from@.len() as int) =~= from@);
    }

    /// The variables of `self` and `other`; where both define a name, `other`'s value is kept.
    pub fn merge(&self, other: &Self) -> (r: Self)
        ensures
            r@.dom() == self@.dom().union(other@.dom()),
            forall|k: Seq<char>|
                #![trigger r@[k]]
                other@.contains_key(k) ==> cloned::<V>(other@[k], r@[k]),
            forall|k: Seq<char>|
                #![trigger r@[k]]
                self@.contains_key(k) && !other@.contains_key(k) ==> cloned::<V>(self@[k], r@[k]),
    {
        let mut variables: Vec<(String, V)> = Vec::new();
        Self::clone_entries_into(&mut variables, &self.variables);
        let ghost mid = variables@;
        Self::clone_entries_into(&mut variables, &other.variables);
        proof {
            let n1 = self.variables@.len() as int;
            let t1 = variables@.subrange(0, n1);
            let t2 = variables@.subrange(n1, variables@.len() as int);
            assert(mid.subrange(0, 0) =~= Seq::<(String, V)>::empty());
            assert(t1 == mid);
            assert(mid =~= mid.subrange(0, n1));
            assert(variables@ =~= t1 + t2);
            lemma_cloned_entries(self.variables@, t1);
            lemma_cloned_entries(other.variables@, t2);
            lemma_entries_concat(t1, t2);
            assert(entries_map(variables@).dom() =~= self@.dom().union(other@.dom()));
        }
        Self { variables }
    }
}

} // verus!
