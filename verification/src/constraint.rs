//! A backtracking constraint solver over variables with finite domains.
//!
//! A [`Variable`] carries an identifier, a tentative value and the values it
//! may take. A [`Constraint`] judges a partial assignment; a
//! [`SelectionStrategy`] picks the variable to assign next; the
//! [`ConstraintSolver`] searches for an assignment of every variable that all
//! constraints accept.

use crate::random::random_below;
use crate::random::seeded_generator;
use rand::rngs::StdRng;
use vstd::prelude::*;
use vstd::std_specs::cmp::PartialEqSpec;

verus! {

/// Executable `==` on `K` is defined and agrees with equality of values.
pub open spec fn eq_decides_identity<K: PartialEq>() -> bool {
    &&& K::obeys_eq_spec()
    &&& forall|a: K, b: K| #[trigger] a.eq_spec(&b) <==> a == b
}

/// One unknown of the problem: `value` is `None` until the search commits to a
/// tentative assignment, and `possible` lists the values that may be tried, in
/// the order in which they are tried.
#[derive(Debug)]
pub struct Variable<S, T> {
    pub id: S,
    pub value: Option<T>,
    pub possible: Vec<T>,
}

/// The identifiers of `vars`, in order.
pub open spec fn ids_of<S, T>(vars: Seq<Variable<S, T>>) -> Seq<S> {
    Seq::new(vars.len(), |i: int| vars[i].id)
}

/// The tentative values of `vars`, in order.
pub open spec fn values_of<S, T>(vars: Seq<Variable<S, T>>) -> Seq<Option<T>> {
    Seq::new(vars.len(), |i: int| vars[i].value)
}

/// No identifier occurs twice.
pub open spec fn distinct_ids<S, T>(vars: Seq<Variable<S, T>>) -> bool {
    forall|i: int, j: int|
        0 <= i < vars.len() && 0 <= j < vars.len() && i != j ==> (#[trigger] vars[i]).id != (
        #[trigger] vars[j]).id
}

/// Some variable of `vars` is called `id`.
pub open spec fn has_id<S, T>(vars: Seq<Variable<S, T>>, id: S) -> bool {
    exists|i: int| 0 <= i < vars.len() && (#[trigger] vars[i]).id == id
}

/// The position of a variable called `id`.
pub open spec fn position_of<S, T>(vars: Seq<Variable<S, T>>, id: S) -> int {
    choose|i: int| 0 <= i < vars.len() && (#[trigger] vars[i]).id == id
}

/// The tentative value of the variable called `id`; `None` when there is no
/// such variable.
pub open spec fn value_of<S, T>(vars: Seq<Variable<S, T>>, id: S) -> Option<T> {
    if has_id(vars, id) {
        vars[position_of(vars, id)].value
    } else {
        None
    }
}

/// Every variable is unassigned.
pub open spec fn all_unassigned<S, T>(vars: Seq<Variable<S, T>>) -> bool {
    forall|i: int| 0 <= i < vars.len() ==> (#[trigger] vars[i]).value is None
}

/// Every variable is assigned.
pub open spec fn all_assigned<S, T>(vars: Seq<Variable<S, T>>) -> bool {
    forall|i: int| 0 <= i < vars.len() ==> (#[trigger] vars[i]).value is Some
}

/// Every assigned value belongs to the domain of its variable.
pub open spec fn values_in_domain<S, T>(vars: Seq<Variable<S, T>>) -> bool {
    forall|i: int|
        0 <= i < vars.len() ==> ((#[trigger] vars[i]).value matches Some(v)
            ==> vars[i].possible@.contains(v))
}

/// `a` and `b` hold the same variables: identifiers and domains agree
/// position by position. Only the tentative values may differ.
pub open spec fn same_shape<S, T>(a: Seq<Variable<S, T>>, b: Seq<Variable<S, T>>) -> bool {
    &&& a.len() == b.len()
    &&& forall|i: int|
        0 <= i < a.len() ==> (#[trigger] a[i]).id == b[i].id && a[i].possible@ == b[i].possible@
}

/// `later` is `earlier` with more variables assigned: whatever `earlier` has
/// assigned, `later` assigns in the same way.
pub open spec fn extends<S, T>(later: Seq<Variable<S, T>>, earlier: Seq<Variable<S, T>>) -> bool {
    &&& same_shape(later, earlier)
    &&& forall|i: int|
        0 <= i < earlier.len() && (#[trigger] earlier[i]).value is Some ==> later[i].value
            == earlier[i].value
}

/// `vars` with the variable at `index` set to `state`.
pub open spec fn with_value<S, T>(vars: Seq<Variable<S, T>>, index: int, state: Option<T>) -> Seq<
    Variable<S, T>,
> {
    vars.update(index, Variable { id: vars[index].id, value: state, possible: vars[index].possible })
}

/// How many entries of `vals` hold `t`.
pub open spec fn count_value<T>(vals: Seq<Option<T>>, t: T) -> nat
    decreases vals.len(),
{
    if vals.len() == 0 {
        0
    } else {
        count_value(vals.drop_last(), t) + if vals.last() == Some(t) {
            1nat
        } else {
            0nat
        }
    }
}

/// How many variables of `vars` are assigned `t`.
pub open spec fn occurrences<S, T>(vars: Seq<Variable<S, T>>, t: T) -> nat {
    count_value(values_of(vars), t)
}

/// `later` keeps every entry that `earlier` has set.
pub open spec fn refines<T>(later: Seq<Option<T>>, earlier: Seq<Option<T>>) -> bool {
    &&& later.len() == earlier.len()
    &&& forall|i: int|
        0 <= i < earlier.len() && (#[trigger] earlier[i]) is Some ==> later[i] == earlier[i]
}

/// A value is counted at most once per entry.
pub proof fn lemma_count_value_bound<T>(vals: Seq<Option<T>>, t: T)
    ensures
        count_value(vals, t) <= vals.len(),
    decreases vals.len(),
{
    if vals.len() > 0 {
        lemma_count_value_bound(vals.drop_last(), t);
    }
}

/// Nothing is counted where nothing is set.
pub proof fn lemma_count_value_none<T>(vals: Seq<Option<T>>, t: T)
    requires
        forall|i: int| 0 <= i < vals.len() ==> (#[trigger] vals[i]) is None,
    ensures
        count_value(vals, t) == 0,
    decreases vals.len(),
{
    if vals.len() > 0 {
        lemma_count_value_none(vals.drop_last(), t);
    }
}

/// Replacing one entry moves the count of `t` by what left and what came.
pub proof fn lemma_count_value_update<T>(vals: Seq<Option<T>>, index: int, state: Option<T>, t: T)
    requires
        0 <= index < vals.len(),
    ensures
        count_value(vals.update(index, state), t) + (if vals[index] == Some(t) {
            1nat
        } else {
            0nat
        }) == count_value(vals, t) + (if state == Some(t) {
            1nat
        } else {
            0nat
        }),
    decreases vals.len(),
{
    let after = vals.update(index, state);
    if index == vals.len() - 1 {
        assert(after.drop_last() =~= vals.drop_last());
    } else {
        lemma_count_value_update(vals.drop_last(), index, state, t);
        assert(after.drop_last() =~= vals.drop_last().update(index, state));
    }
}

/// Setting more entries never lowers a count.
pub proof fn lemma_count_value_refines<T>(later: Seq<Option<T>>, earlier: Seq<Option<T>>, t: T)
    requires
        refines(later, earlier),
    ensures
        count_value(earlier, t) <= count_value(later, t),
    decreases earlier.len(),
{
    if earlier.len() > 0 {
        assert(earlier.last() == earlier[earlier.len() - 1]);
        assert(refines(later.drop_last(), earlier.drop_last())) by {
            assert forall|i: int|
                0 <= i < earlier.drop_last().len() && (#[trigger] earlier.drop_last()[i])
                    is Some implies later.drop_last()[i] == earlier.drop_last()[i] by {
                assert(earlier[i] is Some);
            }
        }
        lemma_count_value_refines(later.drop_last(), earlier.drop_last(), t);
    }
}

/// What extends an assignment refines its values.
pub proof fn lemma_extends_refines<S, T>(later: Seq<Variable<S, T>>, earlier: Seq<Variable<S, T>>)
    requires
        extends(later, earlier),
    ensures
        refines(values_of(later), values_of(earlier)),
{
    assert forall|i: int|
        0 <= i < values_of(earlier).len() && (#[trigger] values_of(earlier)[i])
            is Some implies values_of(later)[i] == values_of(earlier)[i] by {
        assert(earlier[i].value is Some);
    }
}

/// With distinct identifiers, a variable is found where it stands.
pub proof fn lemma_position_of<S, T>(vars: Seq<Variable<S, T>>, index: int)
    requires
        distinct_ids(vars),
        0 <= index < vars.len(),
    ensures
        has_id(vars, vars[index].id),
        position_of(vars, vars[index].id) == index,
        value_of(vars, vars[index].id) == vars[index].value,
{
    let id = vars[index].id;
    assert(vars[index].id == id);
    let p = position_of(vars, id);
    assert(0 <= p < vars.len() && vars[p].id == id);
    if p != index {
        assert(vars[p].id != vars[index].id);
    }
}

/// Sequences of the same shape know the same identifiers, at the same places.
pub proof fn lemma_same_shape_ids<S, T>(a: Seq<Variable<S, T>>, b: Seq<Variable<S, T>>)
    requires
        same_shape(a, b),
    ensures
        ids_of(a) == ids_of(b),
        distinct_ids(a) <==> distinct_ids(b),
        forall|id: S| has_id(a, id) <==> has_id(b, id),
{
    assert(ids_of(a) =~= ids_of(b));
    assert forall|id: S| has_id(a, id) <==> has_id(b, id) by {
        if has_id(a, id) {
            let i = position_of(a, id);
            assert(b[i].id == id);
        }
        if has_id(b, id) {
            let i = position_of(b, id);
            assert(a[i].id == id);
        }
    }
    if distinct_ids(a) {
        assert forall|i: int, j: int|
            0 <= i < b.len() && 0 <= j < b.len() && i != j implies (#[trigger] b[i]).id != (
        #[trigger] b[j]).id by {
            assert(a[i].id != a[j].id);
        }
    }
    if distinct_ids(b) {
        assert forall|i: int, j: int|
            0 <= i < a.len() && 0 <= j < a.len() && i != j implies (#[trigger] a[i]).id != (
        #[trigger] a[j]).id by {
            assert(b[i].id != b[j].id);
        }
    }
}

/// The position of the variable called `id`, if there is one.
pub fn find_variable<S: Copy + PartialEq, T>(variable_lookup: &Vec<Variable<S, T>>, id: &S) -> (found:
    Option<usize>)
    requires
        eq_decides_identity::<S>(),
    ensures
        found is Some <==> has_id(variable_lookup@, *id),
        found matches Some(i) ==> i < variable_lookup.len() && variable_lookup[i as int].id == *id
            && forall|j: int| 0 <= j < i ==> (#[trigger] variable_lookup[j]).id != *id,
{
    let mut i: usize = 0;
    while i < variable_lookup.len()
        invariant
            eq_decides_identity::<S>(),
            i <= variable_lookup.len(),
            forall|j: int| 0 <= j < i ==> (#[trigger] variable_lookup[j]).id != *id,
        decreases variable_lookup.len() - i,
    {
        if variable_lookup[i].id == *id {
            return Some(i);
        }
        i = i + 1;
    }
    None
}

/// A count for each value of `T`; zero for the values that were never counted.
/// The solver keeps in one how many variables are assigned each value.
pub struct Counts<T> {
    entries: Vec<(T, usize)>,
}

impl<T> Counts<T> {
    /// No value has two entries.
    pub closed spec fn wf(&self) -> bool {
        forall|i: int, j: int|
            0 <= i < self.entries.len() && 0 <= j < self.entries.len() && i != j ==> (
            #[trigger] self.entries[i]).0 != (#[trigger] self.entries[j]).0
    }

    /// The count recorded for `t`; zero where none is recorded.
    pub closed spec fn count(&self, t: T) -> nat {
        if exists|i: int| 0 <= i < self.entries.len() && (#[trigger] self.entries[i]).0 == t {
            let i = choose|i: int| 0 <= i < self.entries.len() && (#[trigger] self.entries[i]).0 == t;
            self.entries[i].1 as nat
        } else {
            0
        }
    }

    /// The counts as a total map from values to numbers.
    pub open spec fn view(&self) -> Map<T, nat> {
        Map::new(|t: T| true, |t: T| self.count(t))
    }

    /// The counts are those of the values assigned in `vars`.
    pub open spec fn matches<S>(&self, vars: Seq<Variable<S, T>>) -> bool {
        forall|t: T| #[trigger] self.count(t) == occurrences(vars, t)
    }

    proof fn lemma_count_at(&self, i: int)
        requires
            self.wf(),
            0 <= i < self.entries.len(),
        ensures
            self.count(self.entries[i].0) == self.entries[i].1,
    {
        let t = self.entries[i].0;
        assert(self.entries[i].0 == t);
        let c = choose|c: int| 0 <= c < self.entries.len() && (#[trigger] self.entries[c]).0 == t;
        if c != i {
            assert(self.entries[c].0 != self.entries[i].0);
        }
    }

}

impl<T: Copy + PartialEq> Counts<T> {
    /// Counts that are all zero.
    pub fn new() -> (counts: Self)
        ensures
            counts.wf(),
            forall|t: T| counts.count(t) == 0,
    {
        Counts { entries: Vec::new() }
    }

    fn find(&self, t: &T) -> (found: Option<usize>)
        requires
            eq_decides_identity::<T>(),
        ensures
            found matches Some(i) ==> i < self.entries.len() && self.entries[i as int].0 == *t,
            found is None ==> forall|j: int|
                0 <= j < self.entries.len() ==> (#[trigger] self.entries[j]).0 != *t,
    {
        let mut i: usize = 0;
        while i < self.entries.len()
            invariant
                eq_decides_identity::<T>(),
                i <= self.entries.len(),
                forall|j: int| 0 <= j < i ==> (#[trigger] self.entries[j]).0 != *t,
            decreases self.entries.len() - i,
        {
            if self.entries[i].0 == *t {
                return Some(i);
            }
            i = i + 1;
        }
        None
    }

    /// The count of `t`.
    pub fn get(&self, t: &T) -> (n: usize)
        requires
            self.wf(),
            eq_decides_identity::<T>(),
        ensures
            n == self.count(*t),
    {
        match self.find(t) {
            Some(i) => {
                proof {
                    self.lemma_count_at(i as int);
                }
                self.entries[i].1
            },
            None => 0,
        }
    }

    /// Counts `t` once more.
    pub fn increment(&mut self, t: T)
        requires
            old(self).wf(),
            eq_decides_identity::<T>(),
            old(self).count(t) < usize::MAX,
        ensures
            final(self).wf(),
            final(self).count(t) == old(self).count(t) + 1,
            forall|u: T| u != t ==> final(self).count(u) == old(self).count(u),
    {
        match self.find(&t) {
            Some(i) => {
                proof {
                    self.lemma_count_at(i as int);
                }
                let n = self.entries[i].1;
                self.entries[i].1 = n + 1;
                proof {
                    assert(self.wf()) by {
                        assert forall|a: int, b: int|
                            0 <= a < self.entries.len() && 0 <= b < self.entries.len() && a
                                != b implies (#[trigger] self.entries[a]).0 != (
                        #[trigger] self.entries[b]).0 by {
                            assert(old(self).entries[a].0 != old(self).entries[b].0);
                        }
                    }
                    self.lemma_count_at(i as int);
                    assert forall|u: T| u != t implies self.count(u) == old(self).count(u) by {
                        self.lemma_other_count(*old(self), i as int, u);
                    }
                }
            },
            None => {
                self.entries.push((t, 1));
                proof {
                    let last = self.entries.len() - 1;
                    assert(self.wf()) by {
                        assert forall|a: int, b: int|
                            0 <= a < self.entries.len() && 0 <= b < self.entries.len() && a
                                != b implies (#[trigger] self.entries[a]).0 != (
                        #[trigger] self.entries[b]).0 by {
                            if a < last && b < last {
                                assert(old(self).entries[a].0 != old(self).entries[b].0);
                            } else if a < last {
                                assert(old(self).entries[a].0 != t);
                            } else {
                                assert(old(self).entries[b].0 != t);
                            }
                        }
                    }
                    self.lemma_count_at(last);
                    assert forall|u: T| u != t implies self.count(u) == old(self).count(u) by {
                        self.lemma_pushed_count(*old(self), u);
                    }
                }
            },
        }
    }

    /// Counts `t` once less.
    pub fn decrement(&mut self, t: T)
        requires
            old(self).wf(),
            eq_decides_identity::<T>(),
            old(self).count(t) > 0,
        ensures
            final(self).wf(),
            final(self).count(t) == old(self).count(t) - 1,
            forall|u: T| u != t ==> final(self).count(u) == old(self).count(u),
    {
        match self.find(&t) {
            Some(i) => {
                proof {
                    self.lemma_count_at(i as int);
                }
                let n = self.entries[i].1;
                self.entries[i].1 = n - 1;
                proof {
                    assert(self.wf()) by {
                        assert forall|a: int, b: int|
                            0 <= a < self.entries.len() && 0 <= b < self.entries.len() && a
                                != b implies (#[trigger] self.entries[a]).0 != (
                        #[trigger] self.entries[b]).0 by {
                            assert(old(self).entries[a].0 != old(self).entries[b].0);
                        }
                    }
                    self.lemma_count_at(i as int);
                    assert forall|u: T| u != t implies self.count(u) == old(self).count(u) by {
                        self.lemma_other_count(*old(self), i as int, u);
                    }
                }
            },
            None => {
                assert(false);
            },
        }
    }

    /// An entry for another value leaves the count of `u` alone.
    proof fn lemma_other_count(&self, before: Self, i: int, u: T)
        requires
            before.wf(),
            self.wf(),
            0 <= i < before.entries.len(),
            self.entries.len() == before.entries.len(),
            before.entries[i].0 != u,
            forall|j: int|
                0 <= j < before.entries.len() ==> (#[trigger] self.entries[j]).0
                    == before.entries[j].0,
            forall|j: int|
                0 <= j < before.entries.len() && j != i ==> (#[trigger] self.entries[j]).1
                    == before.entries[j].1,
        ensures
            self.count(u) == before.count(u),
    {
        if exists|j: int| 0 <= j < before.entries.len() && (#[trigger] before.entries[j]).0 == u {
            let j = choose|j: int| 0 <= j < before.entries.len() && (#[trigger] before.entries[j]).0 == u;
            assert(self.entries[j].0 == u);
            before.lemma_count_at(j);
            self.lemma_count_at(j);
        } else {
            if exists|j: int| 0 <= j < self.entries.len() && (#[trigger] self.entries[j]).0 == u {
                let j = choose|j: int| 0 <= j < self.entries.len() && (#[trigger] self.entries[j]).0 == u;
                assert(before.entries[j].0 == u);
            }
        }
    }

    /// A new last entry for another value leaves the count of `u` alone.
    proof fn lemma_pushed_count(&self, before: Self, u: T)
        requires
            before.wf(),
            self.wf(),
            self.entries.len() == before.entries.len() + 1,
            self.entries[self.entries.len() - 1].0 != u,
            forall|j: int|
                0 <= j < before.entries.len() ==> (#[trigger] self.entries[j])
                    == before.entries[j],
        ensures
            self.count(u) == before.count(u),
    {
        if exists|j: int| 0 <= j < before.entries.len() && (#[trigger] before.entries[j]).0 == u {
            let j = choose|j: int| 0 <= j < before.entries.len() && (#[trigger] before.entries[j]).0 == u;
            assert(self.entries[j].0 == u);
            before.lemma_count_at(j);
            self.lemma_count_at(j);
        } else {
            if exists|j: int| 0 <= j < self.entries.len() && (#[trigger] self.entries[j]).0 == u {
                let j = choose|j: int| 0 <= j < self.entries.len() && (#[trigger] self.entries[j]).0 == u;
                assert(before.entries[j].0 == u);
            }
        }
    }
}


/// Every variable named in `ids` is assigned in `vars`.
pub open spec fn all_ids_assigned<S, T>(ids: Seq<S>, vars: Seq<Variable<S, T>>) -> bool {
    forall|m: int| 0 <= m < ids.len() ==> value_of(vars, #[trigger] ids[m]) is Some
}

/// A condition on the variables, judged on partial assignments.
///
/// What the three operations return depends on the constraint and on the
/// variables handed to them, and on nothing else. The lemmas are what the
/// search relies on; an implementation proves them of itself.
pub trait Constraint<S: Copy + PartialEq, T: Copy + PartialEq>: Sized {
    /// The identifiers of the variables that the constraint speaks of.
    spec fn constrained_ids(&self) -> Seq<S>;

    /// The constraint can be judged against variables with these identifiers.
    spec fn fits(&self, ids: Seq<S>) -> bool;

    /// The assignment in `vars`, partial or full, does not contradict the
    /// constraint.
    spec fn satisfiable(&self, vars: Seq<Variable<S, T>>) -> bool;

    /// The values that the constraint still admits for the variable `id`.
    spec fn consistent_states(&self, vars: Seq<Variable<S, T>>, id: S) -> Seq<T>;

    /// The identifiers of the variables that the constraint speaks of.
    fn get_constrained_variable_ids(&self) -> (ids: Vec<S>)
        ensures
            ids@ == self.constrained_ids(),
    ;

    /// Whether the current assignment can still be completed as far as this
    /// constraint is concerned.
    fn check_constraint(
        &self,
        global_counts: &Counts<T>,
        variable_lookup: &Vec<Variable<S, T>>,
    ) -> (ok: bool)
        requires
            eq_decides_identity::<S>(),
            eq_decides_identity::<T>(),
            distinct_ids(variable_lookup@),
            self.fits(ids_of(variable_lookup@)),
            global_counts.wf(),
            global_counts.matches(variable_lookup@),
        ensures
            ok == self.satisfiable(variable_lookup@),
    ;

    /// The values that the variable `v_id` may still take; none left means
    /// that the current assignment is a dead end.
    fn consistent_states_for_variable(
        &self,
        variable_lookup: &Vec<Variable<S, T>>,
        v_id: &S,
    ) -> (states: Vec<T>)
        requires
            eq_decides_identity::<S>(),
            eq_decides_identity::<T>(),
            distinct_ids(variable_lookup@),
            self.fits(ids_of(variable_lookup@)),
            has_id(variable_lookup@, *v_id),
        ensures
            states@ == self.consistent_states(variable_lookup@, *v_id),
    ;

    /// A constraint that fits speaks only of variables that exist.
    proof fn lemma_fits_known_ids(&self, ids: Seq<S>)
        requires
            self.fits(ids),
        ensures
            forall|m: int|
                0 <= m < self.constrained_ids().len() ==> ids.contains(
                    #[trigger] self.constrained_ids()[m],
                ),
    ;

    /// What contradicts the constraint keeps contradicting it when more
    /// variables are assigned.
    proof fn lemma_contradiction_persists(
        &self,
        earlier: Seq<Variable<S, T>>,
        later: Seq<Variable<S, T>>,
    )
        requires
            distinct_ids(earlier),
            self.fits(ids_of(earlier)),
            extends(later, earlier),
            !self.satisfiable(earlier),
        ensures
            !self.satisfiable(later),
    ;

    /// Where an unassigned variable of the constraint has no value left, no
    /// assignment of all variables that extends the current one satisfies the
    /// constraint.
    proof fn lemma_no_state_is_dead_end(
        &self,
        vars: Seq<Variable<S, T>>,
        id: S,
        full: Seq<Variable<S, T>>,
    )
        requires
            distinct_ids(vars),
            self.fits(ids_of(vars)),
            self.constrained_ids().contains(id),
            value_of(vars, id) is None,
            self.consistent_states(vars, id).len() == 0,
            extends(full, vars),
            all_assigned(full),
        ensures
            !self.satisfiable(full),
    ;

    /// Once all variables of the constraint are assigned, assigning others does
    /// not change its verdict.
    proof fn lemma_decided_verdict_stays(
        &self,
        earlier: Seq<Variable<S, T>>,
        later: Seq<Variable<S, T>>,
    )
        requires
            distinct_ids(earlier),
            self.fits(ids_of(earlier)),
            extends(later, earlier),
            all_ids_assigned(self.constrained_ids(), earlier),
            self.satisfiable(earlier),
        ensures
            self.satisfiable(later),
    ;
}

/// How many entries of `mask` are set.
pub open spec fn count_true(mask: Seq<bool>) -> nat
    decreases mask.len(),
{
    if mask.len() == 0 {
        0
    } else {
        count_true(mask.drop_last()) + if mask.last() {
            1nat
        } else {
            0nat
        }
    }
}

/// Clearing a set entry leaves one set entry fewer.
pub proof fn lemma_count_true_clear(mask: Seq<bool>, index: int)
    requires
        0 <= index < mask.len(),
        mask[index],
    ensures
        count_true(mask.update(index, false)) + 1 == count_true(mask),
    decreases mask.len(),
{
    let after = mask.update(index, false);
    if index == mask.len() - 1 {
        assert(after.drop_last() =~= mask.drop_last());
    } else {
        lemma_count_true_clear(mask.drop_last(), index);
        assert(after.drop_last() =~= mask.drop_last().update(index, false));
    }
}

/// No entry of `mask` is set.
pub open spec fn none_available(mask: Seq<bool>) -> bool {
    forall|i: int| 0 <= i < mask.len() ==> !mask[i]
}

/// The rule by which the search picks the variable that it assigns next.
pub trait SelectionStrategy<S, T>: Sized {
    /// The pick is a function of what the strategy is shown.
    spec fn is_deterministic(&self) -> bool;

    /// The pick of a deterministic strategy.
    spec fn choice(
        &self,
        variable_lookup: Seq<Variable<S, T>>,
        variable_to_constraints: Seq<Seq<usize>>,
        available_indices: Seq<bool>,
    ) -> Option<usize>;

    /// Picks one of the positions that `available_indices` marks, or `None`
    /// when it marks none. `variable_to_constraints` lists, for each variable,
    /// the constraints that speak of it.
    fn get_next_index(
        &mut self,
        variable_lookup: &Vec<Variable<S, T>>,
        variable_to_constraints: &Vec<Vec<usize>>,
        available_indices: &Vec<bool>,
    ) -> (next: Option<usize>)
        requires
            variable_to_constraints.len() == variable_lookup.len(),
            available_indices.len() == variable_lookup.len(),
        ensures
            next is None <==> none_available(available_indices@),
            next matches Some(i) ==> i < available_indices.len() && available_indices[i as int],
            old(self).is_deterministic() ==> *final(self) == *old(self) && next == old(self).choice(
                variable_lookup@,
                lists_of(variable_to_constraints@),
                available_indices@,
            ),
    ;
}

/// Picks the first variable that is still unassigned.
pub struct FirstSelectionStrategy {}

/// `i` is the first marked position of `mask`.
pub open spec fn is_first_available(mask: Seq<bool>, i: int) -> bool {
    &&& 0 <= i < mask.len()
    &&& mask[i]
    &&& forall|j: int| 0 <= j < i ==> !mask[j]
}

impl<S, T> SelectionStrategy<S, T> for FirstSelectionStrategy {
    open spec fn is_deterministic(&self) -> bool {
        true
    }

    open spec fn choice(
        &self,
        variable_lookup: Seq<Variable<S, T>>,
        variable_to_constraints: Seq<Seq<usize>>,
        available_indices: Seq<bool>,
    ) -> Option<usize> {
        if exists|i: int| is_first_available(available_indices, i) {
            Some((choose|i: int| is_first_available(available_indices, i)) as usize)
        } else {
            None
        }
    }

    fn get_next_index(
        &mut self,
        variable_lookup: &Vec<Variable<S, T>>,
        variable_to_constraints: &Vec<Vec<usize>>,
        available_indices: &Vec<bool>,
    ) -> (next: Option<usize>)
        ensures
            next matches Some(i) ==> is_first_available(available_indices@, i as int),
    {
        let mut i: usize = 0;
        while i < available_indices.len()
            invariant
                i <= available_indices.len(),
                forall|j: int| 0 <= j < i ==> !available_indices[j],
            decreases available_indices.len() - i,
        {
            if available_indices[i] {
                proof {
                    let mask = available_indices@;
                    assert(is_first_available(mask, i as int));
                    let c = choose|c: int| is_first_available(mask, c);
                    assert(c == i) by {
                        if c < i {
                            assert(!mask[c]);
                        }
                        if i < c {
                            assert(!mask[i as int]);
                        }
                    }
                }
                return Some(i);
            }
            i = i + 1;
        }
        proof {
            let mask = available_indices@;
            if exists|c: int| is_first_available(mask, c) {
                let c = choose|c: int| is_first_available(mask, c);
                assert(!mask[c]);
            }
        }
        None
    }
}

/// Picks, among the unassigned variables, one that most constraints speak
/// of; among several of these, the one that stands last.
pub struct DegreeSelectionStrategy {}

/// `i` is marked, and no marked position has more constraints, nor as many and
/// a later place.
pub open spec fn is_highest_degree(degrees: Seq<Seq<usize>>, mask: Seq<bool>, i: int) -> bool {
    &&& 0 <= i < mask.len()
    &&& mask[i]
    &&& forall|j: int|
        0 <= j < mask.len() && mask[j] ==> degrees[j].len() < degrees[i].len() || (degrees[j].len()
            == degrees[i].len() && j <= i)
}

impl<S, T> SelectionStrategy<S, T> for DegreeSelectionStrategy {
    open spec fn is_deterministic(&self) -> bool {
        true
    }

    open spec fn choice(
        &self,
        variable_lookup: Seq<Variable<S, T>>,
        variable_to_constraints: Seq<Seq<usize>>,
        available_indices: Seq<bool>,
    ) -> Option<usize> {
        if exists|i: int| is_highest_degree(variable_to_constraints, available_indices, i) {
            Some(
                (choose|i: int| is_highest_degree(variable_to_constraints, available_indices, i))
                    as usize,
            )
        } else {
            None
        }
    }

    fn get_next_index(
        &mut self,
        variable_lookup: &Vec<Variable<S, T>>,
        variable_to_constraints: &Vec<Vec<usize>>,
        available_indices: &Vec<bool>,
    ) -> (next: Option<usize>)
        ensures
            next matches Some(i) ==> is_highest_degree(
                lists_of(variable_to_constraints@),
                available_indices@,
                i as int,
            ),
    {
        let ghost degrees = lists_of(variable_to_constraints@);
        let ghost mask = available_indices@;
        let mut best: Option<usize> = None;
        let mut i: usize = 0;
        while i < available_indices.len()
            invariant
                i <= available_indices.len(),
                variable_to_constraints.len() == available_indices.len(),
                degrees == lists_of(variable_to_constraints@),
                mask == available_indices@,
                best is None ==> forall|j: int| 0 <= j < i ==> !mask[j],
                best matches Some(b) ==> b < i && mask[b as int] && forall|j: int|
                    0 <= j < i && mask[j] ==> degrees[j].len() < degrees[b as int].len() || (
                    degrees[j].len() == degrees[b as int].len() && j <= b),
            decreases available_indices.len() - i,
        {
            if available_indices[i] {
                match best {
                    None => {
                        best = Some(i);
                    },
                    Some(b) => {
                        if variable_to_constraints[i].len() >= variable_to_constraints[b].len() {
                            best = Some(i);
                        }
                    },
                }
            }
            i = i + 1;
        }
        proof {
            match best {
                Some(b) => {
                    assert(is_highest_degree(degrees, mask, b as int));
                    let c = choose|c: int| is_highest_degree(degrees, mask, c);
                    assert(c == b);
                },
                None => {
                    if exists|c: int| is_highest_degree(degrees, mask, c) {
                        let c = choose|c: int| is_highest_degree(degrees, mask, c);
                        assert(!mask[c]);
                    }
                },
            }
        }
        best
    }
}


/// Picks one of the unassigned variables at random, each with the same
/// chance, from a generator of its own that is started from a seed.
pub struct RandomSelectionStrategy {
    rng: StdRng,
}

impl RandomSelectionStrategy {
    /// A strategy whose picks are drawn from a generator started from `seed`.
    pub fn new(seed: u64) -> (strategy: Self) {
        RandomSelectionStrategy { rng: seeded_generator(seed) }
    }
}

/// Taking one entry more counts it where it is set.
pub proof fn lemma_count_true_take(mask: Seq<bool>, i: int)
    requires
        0 <= i < mask.len(),
    ensures
        count_true(mask.take(i + 1)) == count_true(mask.take(i)) + if mask[i] {
            1nat
        } else {
            0nat
        },
{
    assert(mask.take(i + 1).drop_last() =~= mask.take(i));
}

/// Where nothing is counted, nothing is set.
pub proof fn lemma_count_true_zero(mask: Seq<bool>)
    requires
        count_true(mask) == 0,
    ensures
        none_available(mask),
    decreases mask.len(),
{
    if mask.len() > 0 {
        lemma_count_true_zero(mask.drop_last());
        assert forall|i: int| 0 <= i < mask.len() implies !mask[i] by {
            if i < mask.len() - 1 {
                assert(mask.drop_last()[i] == mask[i]);
            }
        }
    }
}

impl<S, T> SelectionStrategy<S, T> for RandomSelectionStrategy {
    open spec fn is_deterministic(&self) -> bool {
        false
    }

    open spec fn choice(
        &self,
        variable_lookup: Seq<Variable<S, T>>,
        variable_to_constraints: Seq<Seq<usize>>,
        available_indices: Seq<bool>,
    ) -> Option<usize> {
        None
    }

    fn get_next_index(
        &mut self,
        variable_lookup: &Vec<Variable<S, T>>,
        variable_to_constraints: &Vec<Vec<usize>>,
        available_indices: &Vec<bool>,
    ) -> (next: Option<usize>) {
        let ghost mask = available_indices@;
        let mut total: usize = 0;
        let mut i: usize = 0;
        while i < available_indices.len()
            invariant
                mask == available_indices@,
                i <= available_indices.len(),
                total == count_true(mask.take(i as int)),
                total <= i,
            decreases available_indices.len() - i,
        {
            proof {
                lemma_count_true_take(mask, i as int);
            }
            if available_indices[i] {
                total = total + 1;
            }
            i = i + 1;
        }
        proof {
            assert(mask.take(mask.len() as int) =~= mask);
        }
        if total == 0 {
            proof {
                lemma_count_true_zero(mask);
            }
            return None;
        }
        let pick = random_below(&mut self.rng, total);
        let mut seen: usize = 0;
        let mut i: usize = 0;
        while i < available_indices.len()
            invariant
                mask == available_indices@,
                i <= available_indices.len(),
                seen == count_true(mask.take(i as int)),
                seen <= pick,
                pick < total,
                total == count_true(mask),
            decreases available_indices.len() - i,
        {
            proof {
                lemma_count_true_take(mask, i as int);
            }
            if available_indices[i] {
                if seen == pick {
                    return Some(i);
                }
                seen = seen + 1;
            }
            i = i + 1;
        }
        proof {
            assert(mask.take(mask.len() as int) =~= mask);
            assert(false);
        }
        None
    }
}

/// Every constraint of `attached` accepts the assignment in `vars`.
pub open spec fn attached_hold<S: Copy + PartialEq, T: Copy + PartialEq, C: Constraint<S, T>>(
    constraints: Seq<C>,
    attached: Seq<usize>,
    vars: Seq<Variable<S, T>>,
) -> bool {
    forall|j: int|
        0 <= j < attached.len() ==> constraints[(#[trigger] attached[j]) as int].satisfiable(vars)
}

/// `c` still admits a value for each of its unassigned variables.
pub open spec fn leaves_room<S: Copy + PartialEq, T: Copy + PartialEq, C: Constraint<S, T>>(
    c: C,
    vars: Seq<Variable<S, T>>,
) -> bool {
    forall|m: int|
        0 <= m < c.constrained_ids().len() && value_of(vars, #[trigger] c.constrained_ids()[m])
            is None ==> c.consistent_states(vars, c.constrained_ids()[m]).len() > 0
}

/// Every constraint of `attached` leaves room.
pub open spec fn attached_leave_room<
    S: Copy + PartialEq,
    T: Copy + PartialEq,
    C: Constraint<S, T>,
>(constraints: Seq<C>, attached: Seq<usize>, vars: Seq<Variable<S, T>>) -> bool {
    forall|j: int|
        0 <= j < attached.len() ==> leaves_room(constraints[(#[trigger] attached[j]) as int], vars)
}

/// `full` completes `start`: it assigns every variable a value of its domain,
/// keeps what `start` has assigned, and is accepted by every constraint.
pub open spec fn is_solution<S: Copy + PartialEq, T: Copy + PartialEq, C: Constraint<S, T>>(
    constraints: Seq<C>,
    start: Seq<Variable<S, T>>,
    full: Seq<Variable<S, T>>,
) -> bool {
    &&& extends(full, start)
    &&& all_assigned(full)
    &&& values_in_domain(full)
    &&& forall|k: int| 0 <= k < constraints.len() ==> (#[trigger] constraints[k]).satisfiable(full)
}

/// Every constraint whose variables are all assigned accepts the assignment;
/// among them every constraint that speaks of no variable.
pub open spec fn decided_hold<S: Copy + PartialEq, T: Copy + PartialEq, C: Constraint<S, T>>(
    constraints: Seq<C>,
    vars: Seq<Variable<S, T>>,
) -> bool {
    forall|k: int|
        0 <= k < constraints.len() && all_ids_assigned(
            (#[trigger] constraints[k]).constrained_ids(),
            vars,
        ) ==> constraints[k].satisfiable(vars)
}

/// Every constraint that speaks of no variable accepts the assignment.
pub open spec fn unnamed_hold<S: Copy + PartialEq, T: Copy + PartialEq, C: Constraint<S, T>>(
    constraints: Seq<C>,
    vars: Seq<Variable<S, T>>,
) -> bool {
    forall|k: int|
        0 <= k < constraints.len() && (#[trigger] constraints[k]).constrained_ids().len() == 0
            ==> constraints[k].satisfiable(vars)
}

/// No assignment of all variables completes `start`.
pub open spec fn no_solution<S: Copy + PartialEq, T: Copy + PartialEq, C: Constraint<S, T>>(
    constraints: Seq<C>,
    start: Seq<Variable<S, T>>,
) -> bool {
    forall|full: Seq<Variable<S, T>>| !#[trigger] is_solution(constraints, start, full)
}

/// For each variable the list of its constraints, as a sequence of
/// sequences.
pub open spec fn lists_of(index: Seq<Vec<usize>>) -> Seq<Seq<usize>> {
    Seq::new(index.len(), |i: int| index[i]@)
}

/// The number `k` occurs in `list`.
pub open spec fn lists(list: Seq<usize>, k: int) -> bool {
    exists|j: int| 0 <= j < list.len() && (#[trigger] list[j]) == k
}

/// The numbers of `list` grow from each to the next.
pub open spec fn ascending(list: Seq<usize>) -> bool {
    forall|a: int, b: int| 0 <= a < b < list.len() ==> list[a] < list[b]
}

/// `index` lists, for each identifier, exactly the constraints that speak of
/// it, by their positions and in their order.
pub open spec fn is_reverse_index<S: Copy + PartialEq, T: Copy + PartialEq, C: Constraint<S, T>>(
    constraints: Seq<C>,
    index: Seq<Seq<usize>>,
    ids: Seq<S>,
) -> bool {
    &&& index.len() == ids.len()
    &&& forall|i: int, j: int|
        0 <= i < index.len() && 0 <= j < index[i].len() ==> (#[trigger] index[i][j])
            < constraints.len() && constraints[index[i][j] as int].constrained_ids().contains(
            ids[i],
        )
    &&& forall|i: int, k: int|
        0 <= i < index.len() && 0 <= k < constraints.len()
            && #[trigger] constraints[k].constrained_ids().contains(ids[i]) ==> lists(index[i], k)
    &&& forall|i: int| 0 <= i < index.len() ==> ascending(#[trigger] index[i])
}

/// The assignment as pairs of identifier and value, in the order of the
/// variables.
pub open spec fn pairs_of<S, T>(full: Seq<Variable<S, T>>) -> Seq<(S, T)> {
    Seq::new(full.len(), |i: int| (full[i].id, full[i].value->0))
}

/// What the search finds from the assignment `vars` with the positions
/// `available` left to assign, when `strat` picks as its `choice` says: the
/// first full assignment in the order in which the search walks them.
pub open spec fn search<
    S: Copy + PartialEq,
    T: Copy + PartialEq,
    C: Constraint<S, T>,
    Strat: SelectionStrategy<S, T>,
>(
    strat: Strat,
    constraints: Seq<C>,
    index: Seq<Seq<usize>>,
    vars: Seq<Variable<S, T>>,
    available: Seq<bool>,
) -> Option<Seq<Variable<S, T>>>
    decreases count_true(available), 0nat,
{
    match strat.choice(vars, index, available) {
        None => Some(vars),
        Some(i) => {
            if i < available.len() && i < vars.len() && i < index.len() && available[i as int] {
                proof {
                    lemma_count_true_clear(available, i as int);
                }
                try_values(
                    strat,
                    constraints,
                    index,
                    vars,
                    available.update(i as int, false),
                    i as int,
                    0,
                )
            } else {
                None
            }
        },
    }
}

/// What the search finds when it tries, for the variable at `i`, the values
/// of its domain from the `k`-th on.
pub open spec fn try_values<
    S: Copy + PartialEq,
    T: Copy + PartialEq,
    C: Constraint<S, T>,
    Strat: SelectionStrategy<S, T>,
>(
    strat: Strat,
    constraints: Seq<C>,
    index: Seq<Seq<usize>>,
    vars: Seq<Variable<S, T>>,
    available: Seq<bool>,
    i: int,
    k: nat,
) -> Option<Seq<Variable<S, T>>>
    decreases count_true(available), (1 + vars[i].possible.len() - k) as nat,
{
    if k >= vars[i].possible.len() {
        None
    } else {
        let next = with_value(vars, i, Some(vars[i].possible[k as int]));
        if attached_hold(constraints, index[i], next) && attached_leave_room(
            constraints,
            index[i],
            next,
        ) {
            match search(strat, constraints, index, next, available) {
                Some(full) => Some(full),
                None => try_values(strat, constraints, index, vars, available, i, k + 1),
            }
        } else {
            try_values(strat, constraints, index, vars, available, i, k + 1)
        }
    }
}

/// Setting a variable changes the value that is found under its identifier,
/// and no other.
pub proof fn lemma_value_of_with_value<S, T>(
    vars: Seq<Variable<S, T>>,
    index: int,
    state: Option<T>,
    id: S,
)
    requires
        distinct_ids(vars),
        0 <= index < vars.len(),
    ensures
        same_shape(with_value(vars, index, state), vars),
        distinct_ids(with_value(vars, index, state)),
        value_of(with_value(vars, index, state), id) == if id == vars[index].id {
            state
        } else {
            value_of(vars, id)
        },
{
    let after = with_value(vars, index, state);
    assert(same_shape(after, vars));
    lemma_same_shape_ids(after, vars);
    if has_id(vars, id) {
        let p = position_of(vars, id);
        assert(after[p].id == id);
        lemma_position_of(after, p);
        lemma_position_of(vars, p);
        if p == index {
        } else {
            assert(vars[p].id != vars[index].id);
        }
    }
}

/// An identifier that occurs in the list of identifiers names a variable.
pub proof fn lemma_known_id<S, T>(vars: Seq<Variable<S, T>>, id: S)
    requires
        ids_of(vars).contains(id),
    ensures
        has_id(vars, id),
{
    let i = choose|i: int| 0 <= i < ids_of(vars).len() && ids_of(vars)[i] == id;
    assert(vars[i].id == id);
}

/// Whether `id` occurs in `ids`.
pub fn contains_id<S: Copy + PartialEq>(ids: &Vec<S>, id: &S) -> (found: bool)
    requires
        eq_decides_identity::<S>(),
    ensures
        found == ids@.contains(*id),
{
    let mut i: usize = 0;
    while i < ids.len()
        invariant
            eq_decides_identity::<S>(),
            i <= ids.len(),
            forall|j: int| 0 <= j < i ==> ids[j] != *id,
        decreases ids.len() - i,
    {
        if ids[i] == *id {
            return true;
        }
        i = i + 1;
    }
    false
}

/// After a value has passed the constraints of its variable, every
/// constraint whose variables are all assigned accepts the assignment.
proof fn lemma_decided_hold_after<S: Copy + PartialEq, T: Copy + PartialEq, C: Constraint<S, T>>(
    cs: Seq<C>,
    idx: Seq<Seq<usize>>,
    v0: Seq<Variable<S, T>>,
    index: int,
    state: T,
)
    requires
        distinct_ids(v0),
        0 <= index < v0.len(),
        v0[index].value is None,
        is_reverse_index(cs, idx, ids_of(v0)),
        forall|k: int| 0 <= k < cs.len() ==> (#[trigger] cs[k]).fits(ids_of(v0)),
        decided_hold(cs, v0),
        attached_hold(cs, idx[index], with_value(v0, index, Some(state))),
    ensures
        decided_hold(cs, with_value(v0, index, Some(state))),
{
    let v1 = with_value(v0, index, Some(state));
    let id = v0[index].id;
    lemma_value_of_with_value(v0, index, Some(state), id);
    assert(extends(v1, v0));
    assert forall|k: int|
        0 <= k < cs.len() && all_ids_assigned(
            (#[trigger] cs[k]).constrained_ids(),
            v1,
        ) implies cs[k].satisfiable(v1) by {
        let c = cs[k];
        assert(ids_of(v0)[index] == id);
        if c.constrained_ids().contains(id) {
            assert(lists(idx[index], k));
            let j = choose|j: int| 0 <= j < idx[index].len() && (#[trigger] idx[index][j]) == k;
            assert(cs[idx[index][j] as int].satisfiable(v1));
        } else {
            assert forall|m: int| 0 <= m < c.constrained_ids().len() implies value_of(
                v0,
                #[trigger] c.constrained_ids()[m],
            ) is Some by {
                let other = c.constrained_ids()[m];
                lemma_value_of_with_value(v0, index, Some(state), other);
                assert(value_of(v1, other) is Some);
            }
            c.lemma_decided_verdict_stays(v0, v1);
        }
    }
}

/// A value that the constraints of its variable reject, or after which
/// one of them leaves an unassigned variable without a value, leads to no
/// full assignment.
pub proof fn lemma_rejected_has_no_solution<S: Copy + PartialEq, T: Copy + PartialEq, C: Constraint<S, T>>(
    cs: Seq<C>,
    idx: Seq<Seq<usize>>,
    v0: Seq<Variable<S, T>>,
    index: int,
    state: T,
)
    requires
        distinct_ids(v0),
        0 <= index < v0.len(),
        is_reverse_index(cs, idx, ids_of(v0)),
        forall|k: int| 0 <= k < cs.len() ==> (#[trigger] cs[k]).fits(ids_of(v0)),
        !(attached_hold(cs, idx[index], with_value(v0, index, Some(state)))
            && attached_leave_room(cs, idx[index], with_value(v0, index, Some(state)))),
    ensures
        no_solution(cs, with_value(v0, index, Some(state))),
{
    let v1 = with_value(v0, index, Some(state));
    let attached = idx[index];
    lemma_value_of_with_value(v0, index, Some(state), v0[index].id);
    lemma_same_shape_ids(v1, v0);
    assert forall|full: Seq<Variable<S, T>>| !#[trigger] is_solution(cs, v1, full) by {
        if is_solution(cs, v1, full) {
            if !attached_hold(cs, attached, v1) {
                let j = choose|j: int|
                    0 <= j < attached.len() && !cs[(#[trigger] attached[j]) as int].satisfiable(v1);
                let c = cs[attached[j] as int];
                assert(c.constrained_ids().contains(ids_of(v0)[index]));
                c.lemma_contradiction_persists(v1, full);
            } else {
                let j = choose|j: int|
                    0 <= j < attached.len() && !leaves_room(
                        cs[(#[trigger] attached[j]) as int],
                        v1,
                    );
                let c = cs[attached[j] as int];
                let m = choose|m: int|
                    0 <= m < c.constrained_ids().len() && value_of(
                        v1,
                        #[trigger] c.constrained_ids()[m],
                    ) is None && !(c.consistent_states(v1, c.constrained_ids()[m]).len() > 0);
                c.lemma_no_state_is_dead_end(v1, c.constrained_ids()[m], full);
            }
        }
    }
}

/// One level of the search: the position of the variable that was picked
/// there, and the number of its values that have been tried.
#[derive(Clone, Copy)]
struct Frame {
    index: usize,
    next: usize,
}

/// The assignment `v` with the variable of `frame` set to the value that was
/// tried last.
spec fn child<S, T>(v: Seq<Variable<S, T>>, frame: Frame) -> Seq<Variable<S, T>> {
    with_value(v, frame.index as int, Some(v[frame.index as int].possible[frame.next - 1]))
}

/// The frame of the same variable with one value more tried.
spec fn advanced(frame: Frame) -> Frame {
    Frame { index: frame.index, next: (frame.next + 1) as usize }
}

/// `a` marks the variables that `v` leaves unassigned.
spec fn marks_unassigned<S, T>(a: Seq<bool>, v: Seq<Variable<S, T>>) -> bool {
    &&& a.len() == v.len()
    &&& forall|x: int| 0 <= x < a.len() ==> (a[x] <==> (#[trigger] v[x]).value is None)
}

/// The problem is consistent: distinct identifiers, constraints that fit,
/// and the index that belongs to them.
spec fn problem_ok<S: Copy + PartialEq, T: Copy + PartialEq, C: Constraint<S, T>>(
    cs: Seq<C>,
    idx: Seq<Seq<usize>>,
    entry: Seq<Variable<S, T>>,
) -> bool {
    &&& distinct_ids(entry)
    &&& is_reverse_index(cs, idx, ids_of(entry))
    &&& forall|k: int| 0 <= k < cs.len() ==> (#[trigger] cs[k]).fits(ids_of(entry))
}

/// The level `m` of the stack follows from the level below it: its
/// assignment is that of the level below with the value tried there, and its
/// positions are those of the level below without the variable picked there.
spec fn linked<S, T>(
    stack: Seq<Frame>,
    vs: Seq<Seq<Variable<S, T>>>,
    ms: Seq<Seq<bool>>,
    m: int,
) -> bool {
    vs[m] == child(vs[m - 1], stack[m - 1]) && ms[m] == ms[m - 1].update(
        stack[m - 1].index as int,
        false,
    )
}

/// What the search knows of one level of its stack. The variable of `frame`
/// was picked in the assignment `v` with the positions `a` left; `explored`
/// says that the value tried last has passed the constraints and is being
/// followed up. The values tried before lead to no full assignment.
#[verifier::opaque]
spec fn frame_ok<
    S: Copy + PartialEq,
    T: Copy + PartialEq,
    C: Constraint<S, T>,
    Strat: SelectionStrategy<S, T>,
>(
    strat: Strat,
    cs: Seq<C>,
    idx: Seq<Seq<usize>>,
    entry: Seq<Variable<S, T>>,
    frame: Frame,
    v: Seq<Variable<S, T>>,
    a: Seq<bool>,
    explored: bool,
) -> bool {
    let i = frame.index as int;
    let dom = v[i].possible@;
    let tried = if explored {
        frame.next - 1
    } else {
        frame.next as int
    };
    &&& 0 <= i < v.len()
    &&& a[i]
    &&& v[i].value is None
    &&& frame.next <= dom.len()
    &&& explored ==> frame.next >= 1
    &&& extends(v, entry)
    &&& marks_unassigned(a, v)
    &&& decided_hold(cs, v)
    &&& forall|q: int| 0 <= q < tried ==> no_solution(cs, with_value(v, i, Some(#[trigger] dom[q])))
    &&& explored ==> attached_hold(cs, idx[i], child(v, frame)) && attached_leave_room(
        cs,
        idx[i],
        child(v, frame),
    )
    &&& strat.is_deterministic() ==> search(strat, cs, idx, v, a) == try_values(
        strat,
        cs,
        idx,
        v,
        a.update(i, false),
        i,
        tried as nat,
    )
}

/// The plain facts of a level of the stack.
proof fn lemma_frame_basics<
    S: Copy + PartialEq,
    T: Copy + PartialEq,
    C: Constraint<S, T>,
    Strat: SelectionStrategy<S, T>,
>(
    strat: Strat,
    cs: Seq<C>,
    idx: Seq<Seq<usize>>,
    entry: Seq<Variable<S, T>>,
    frame: Frame,
    v: Seq<Variable<S, T>>,
    a: Seq<bool>,
    explored: bool,
)
    requires
        frame_ok(strat, cs, idx, entry, frame, v, a, explored),
    ensures
        0 <= frame.index < v.len(),
        a[frame.index as int],
        v[frame.index as int].value is None,
        frame.next <= v[frame.index as int].possible.len(),
        explored ==> frame.next >= 1,
        extends(v, entry),
        marks_unassigned(a, v),
        decided_hold(cs, v),
{
    reveal(frame_ok);
}

/// A variable that was just picked makes a level of the stack.
proof fn lemma_frame_new<
    S: Copy + PartialEq,
    T: Copy + PartialEq,
    C: Constraint<S, T>,
    Strat: SelectionStrategy<S, T>,
>(
    strat: Strat,
    cs: Seq<C>,
    idx: Seq<Seq<usize>>,
    entry: Seq<Variable<S, T>>,
    v: Seq<Variable<S, T>>,
    a: Seq<bool>,
    index: usize,
)
    requires
        index < v.len(),
        idx.len() == v.len(),
        a[index as int],
        extends(v, entry),
        marks_unassigned(a, v),
        decided_hold(cs, v),
        strat.is_deterministic() ==> strat.choice(v, idx, a) == Some(index),
    ensures
        frame_ok(strat, cs, idx, entry, Frame { index, next: 0 }, v, a, false),
{
    reveal(frame_ok);
    assert(v[index as int].value is None);
}

/// A value that passes the constraints is followed up.
proof fn lemma_frame_pass<
    S: Copy + PartialEq,
    T: Copy + PartialEq,
    C: Constraint<S, T>,
    Strat: SelectionStrategy<S, T>,
>(
    strat: Strat,
    cs: Seq<C>,
    idx: Seq<Seq<usize>>,
    entry: Seq<Variable<S, T>>,
    frame: Frame,
    v: Seq<Variable<S, T>>,
    a: Seq<bool>,
)
    requires
        problem_ok(cs, idx, entry),
        frame_ok(strat, cs, idx, entry, frame, v, a, false),
        frame.next < v[frame.index as int].possible.len(),
        attached_hold(cs, idx[frame.index as int], child(v, advanced(frame))),
        attached_leave_room(cs, idx[frame.index as int], child(v, advanced(frame))),
    ensures
        frame_ok(strat, cs, idx, entry, advanced(frame), v, a, true),
        decided_hold(cs, child(v, advanced(frame))),
        extends(child(v, advanced(frame)), entry),
        marks_unassigned(a.update(frame.index as int, false), child(v, advanced(frame))),
{
    reveal(frame_ok);
    let i = frame.index as int;
    let state = v[i].possible[frame.next as int];
    let w = child(v, advanced(frame));
    lemma_same_shape_ids(v, entry);
    lemma_value_of_with_value(v, i, Some(state), v[i].id);
    lemma_decided_hold_after(cs, idx, v, i, state);
    assert(extends(w, entry)) by {
        assert forall|x: int| 0 <= x < entry.len() && (#[trigger] entry[x]).value is Some implies w[x].value
            == entry[x].value by {
            assert(v[x].value == entry[x].value);
        }
    }
    assert(marks_unassigned(a.update(i, false), w)) by {
        assert forall|x: int| 0 <= x < a.len() implies (a.update(i, false)[x] <==> (#[trigger] w[x]).value
            is None) by {
            if x != i {
                assert(w[x] == v[x]);
            }
        }
    }
}

/// A value that fails the constraints leads to no full assignment.
proof fn lemma_frame_fail<
    S: Copy + PartialEq,
    T: Copy + PartialEq,
    C: Constraint<S, T>,
    Strat: SelectionStrategy<S, T>,
>(
    strat: Strat,
    cs: Seq<C>,
    idx: Seq<Seq<usize>>,
    entry: Seq<Variable<S, T>>,
    frame: Frame,
    v: Seq<Variable<S, T>>,
    a: Seq<bool>,
)
    requires
        problem_ok(cs, idx, entry),
        frame_ok(strat, cs, idx, entry, frame, v, a, false),
        frame.next < v[frame.index as int].possible.len(),
        !(attached_hold(cs, idx[frame.index as int], child(v, advanced(frame)))
            && attached_leave_room(cs, idx[frame.index as int], child(v, advanced(frame)))),
    ensures
        frame_ok(strat, cs, idx, entry, advanced(frame), v, a, false),
{
    reveal(frame_ok);
    let i = frame.index as int;
    let dom = v[i].possible@;
    let state = dom[frame.next as int];
    lemma_same_shape_ids(v, entry);
    lemma_rejected_has_no_solution(cs, idx, v, i, state);
    assert forall|q: int| 0 <= q < frame.next + 1 implies no_solution(
        cs,
        with_value(v, i, Some(#[trigger] dom[q])),
    ) by {
        if q == frame.next {
            assert(dom[q] == state);
        }
    }
}

/// A variable without a value left leads to no full assignment.
proof fn lemma_frame_exhausted<
    S: Copy + PartialEq,
    T: Copy + PartialEq,
    C: Constraint<S, T>,
    Strat: SelectionStrategy<S, T>,
>(
    strat: Strat,
    cs: Seq<C>,
    idx: Seq<Seq<usize>>,
    entry: Seq<Variable<S, T>>,
    frame: Frame,
    v: Seq<Variable<S, T>>,
    a: Seq<bool>,
)
    requires
        frame_ok(strat, cs, idx, entry, frame, v, a, false),
        frame.next >= v[frame.index as int].possible.len(),
    ensures
        no_solution(cs, v),
        strat.is_deterministic() ==> search(strat, cs, idx, v, a) is None,
{
    reveal(frame_ok);
    lemma_all_values_refuted(cs, v, frame.index as int);
}

/// Where following up a value has led to nothing, the value is done with.
proof fn lemma_frame_resume<
    S: Copy + PartialEq,
    T: Copy + PartialEq,
    C: Constraint<S, T>,
    Strat: SelectionStrategy<S, T>,
>(
    strat: Strat,
    cs: Seq<C>,
    idx: Seq<Seq<usize>>,
    entry: Seq<Variable<S, T>>,
    frame: Frame,
    v: Seq<Variable<S, T>>,
    a: Seq<bool>,
)
    requires
        frame_ok(strat, cs, idx, entry, frame, v, a, true),
        no_solution(cs, child(v, frame)),
        strat.is_deterministic() ==> search(
            strat,
            cs,
            idx,
            child(v, frame),
            a.update(frame.index as int, false),
        ) is None,
    ensures
        frame_ok(strat, cs, idx, entry, frame, v, a, false),
{
    reveal(frame_ok);
    let i = frame.index as int;
    let dom = v[i].possible@;
    assert forall|q: int| 0 <= q < frame.next implies no_solution(
        cs,
        with_value(v, i, Some(#[trigger] dom[q])),
    ) by {
        if q == frame.next - 1 {
            assert(with_value(v, i, Some(dom[q])) == child(v, frame));
        }
    }
    if strat.is_deterministic() {
        let k = (frame.next - 1) as nat;
        assert(with_value(v, i, Some(v[i].possible[k as int])) == child(v, frame));
        assert(try_values(strat, cs, idx, v, a.update(i, false), i, k) == try_values(
            strat,
            cs,
            idx,
            v,
            a.update(i, false),
            i,
            k + 1,
        ));
    }
}

/// What following up a value finds is what the search from the level finds.
proof fn lemma_frame_found<
    S: Copy + PartialEq,
    T: Copy + PartialEq,
    C: Constraint<S, T>,
    Strat: SelectionStrategy<S, T>,
>(
    strat: Strat,
    cs: Seq<C>,
    idx: Seq<Seq<usize>>,
    entry: Seq<Variable<S, T>>,
    frame: Frame,
    v: Seq<Variable<S, T>>,
    a: Seq<bool>,
    found: Seq<Variable<S, T>>,
)
    requires
        frame_ok(strat, cs, idx, entry, frame, v, a, true),
        strat.is_deterministic(),
        search(strat, cs, idx, child(v, frame), a.update(frame.index as int, false)) == Some(found),
    ensures
        search(strat, cs, idx, v, a) == Some(found),
{
    reveal(frame_ok);
    let i = frame.index as int;
    let k = (frame.next - 1) as nat;
    assert(with_value(v, i, Some(v[i].possible[k as int])) == child(v, frame));
    assert(try_values(strat, cs, idx, v, a.update(i, false), i, k) == Some(found));
}

/// Where every value of the variable at `index` leads to no full
/// assignment, there is none.
proof fn lemma_all_values_refuted<S: Copy + PartialEq, T: Copy + PartialEq, C: Constraint<S, T>>(
    cs: Seq<C>,
    v: Seq<Variable<S, T>>,
    index: int,
)
    requires
        0 <= index < v.len(),
        v[index].value is None,
        forall|q: int|
            0 <= q < v[index].possible.len() ==> no_solution(
                cs,
                with_value(v, index, Some(#[trigger] v[index].possible@[q])),
            ),
    ensures
        no_solution(cs, v),
{
    let dom = v[index].possible@;
    assert forall|full: Seq<Variable<S, T>>| !#[trigger] is_solution(cs, v, full) by {
        if is_solution(cs, v, full) {
            let d = full[index].value->0;
            assert(full[index].possible@.contains(d));
            let q = choose|q: int| 0 <= q < dom.len() && dom[q] == d;
            let v1 = with_value(v, index, Some(dom[q]));
            assert(extends(full, v1)) by {
                assert forall|i: int|
                    0 <= i < v1.len() && (#[trigger] v1[i]).value is Some implies full[i].value
                    == v1[i].value by {
                    if i != index {
                        assert(v1[i] == v[i]);
                    }
                }
            }
            assert(is_solution(cs, v1, full));
        }
    }
}

/// The largest number of values that a variable may take.
spec fn widest<S, T>(vars: Seq<Variable<S, T>>) -> nat
    decreases vars.len(),
{
    if vars.len() == 0 {
        0
    } else {
        let rest = widest(vars.drop_last());
        if vars.last().possible.len() > rest {
            vars.last().possible.len() as nat
        } else {
            rest
        }
    }
}

/// No variable may take more values than the widest.
proof fn lemma_widest<S, T>(vars: Seq<Variable<S, T>>, i: int)
    requires
        0 <= i < vars.len(),
    ensures
        vars[i].possible.len() <= widest(vars),
    decreases vars.len(),
{
    if i < vars.len() - 1 {
        lemma_widest(vars.drop_last(), i);
    }
}

/// How far the search has come, level by level: for a level of the stack,
/// twice the number of values still to try, plus one while a value is
/// followed up; for the levels that the stack has not reached, more than
/// that.
spec fn digits<S, T>(stack: Seq<Frame>, entry: Seq<Variable<S, T>>, descending: bool) -> Seq<nat> {
    Seq::new(
        entry.len(),
        |j: int|
            if j < stack.len() {
                (2 * (entry[stack[j].index as int].possible.len() - stack[j].next) + if j
                    < stack.len() - 1 || descending {
                    1int
                } else {
                    0int
                }) as nat
            } else {
                2 * widest(entry) + 1
            },
    )
}

/// The number that the digits write, the first being the most significant.
spec fn rank(e: Seq<nat>, base: nat) -> nat
    decreases e.len(),
{
    if e.len() == 0 {
        0
    } else {
        rank(e.drop_last(), base) * base + e.last()
    }
}

/// What is left of the search, as a number that every step lowers.
spec fn progress<S, T>(stack: Seq<Frame>, entry: Seq<Variable<S, T>>, descending: bool) -> nat {
    rank(digits(stack, entry, descending), 2 * widest(entry) + 2)
}

/// A number whose first differing digit is smaller is smaller.
proof fn lemma_rank_decreases(before: Seq<nat>, after: Seq<nat>, base: nat, j: int)
    requires
        before.len() == after.len(),
        0 <= j < before.len(),
        forall|x: int| 0 <= x < j ==> after[x] == before[x],
        after[j] < before[j],
        forall|x: int| 0 <= x < after.len() ==> after[x] < base,
    ensures
        rank(after, base) < rank(before, base),
    decreases before.len(),
{
    let n = before.len() as int;
    if j == n - 1 {
        assert(after.drop_last() =~= before.drop_last());
    } else {
        lemma_rank_decreases(before.drop_last(), after.drop_last(), base, j);
        let low = rank(after.drop_last(), base);
        let high = rank(before.drop_last(), base);
        assert(low * base + after.last() < high * base + before.last()) by (nonlinear_arith)
            requires
                low < high,
                after.last() < base,
                before.last() >= 0,
        ;
    }
}

/// No more entries are set than there are.
pub proof fn lemma_count_true_bound(mask: Seq<bool>)
    ensures
        count_true(mask) <= mask.len(),
    decreases mask.len(),
{
    if mask.len() > 0 {
        lemma_count_true_bound(mask.drop_last());
    }
}

/// What the search knows of its stack. Level by level, `vs` and `ms` hold
/// the assignment and the positions left when the variable of the level was
/// picked; `cur` and `mask` are the assignment and the positions left now.
/// While `descending`, the value of the top level is being followed up and
/// the next variable is to be picked; otherwise the top level is to try its
/// next value.
#[verifier::opaque]
spec fn stack_ok<
    S: Copy + PartialEq,
    T: Copy + PartialEq,
    C: Constraint<S, T>,
    Strat: SelectionStrategy<S, T>,
>(
    strat: Strat,
    cs: Seq<C>,
    idx: Seq<Seq<usize>>,
    entry: Seq<Variable<S, T>>,
    a_entry: Seq<bool>,
    stack: Seq<Frame>,
    vs: Seq<Seq<Variable<S, T>>>,
    ms: Seq<Seq<bool>>,
    cur: Seq<Variable<S, T>>,
    mask: Seq<bool>,
    descending: bool,
) -> bool {
    let d = stack.len() as int;
    &&& vs.len() == d
    &&& ms.len() == d
    &&& problem_ok(cs, idx, entry)
    &&& a_entry.len() == entry.len()
    &&& mask.len() == entry.len()
    &&& extends(cur, entry)
    &&& values_in_domain(cur)
    &&& d + count_true(mask) == count_true(a_entry)
    &&& forall|j: int|
        0 <= j < d ==> frame_ok(
            strat,
            cs,
            idx,
            entry,
            #[trigger] stack[j],
            vs[j],
            ms[j],
            j < d - 1 || descending,
        )
    &&& forall|j: int| 1 <= j < d ==> #[trigger] linked(stack, vs, ms, j)
    &&& d > 0 ==> vs[0] == entry && ms[0] == a_entry
    &&& d == 0 ==> descending && cur == entry && mask == a_entry
    &&& d > 0 ==> mask == ms[d - 1].update(stack[d - 1].index as int, false)
    &&& d > 0 && descending ==> cur == child(vs[d - 1], stack[d - 1])
    &&& d > 0 && !descending ==> cur == vs[d - 1]
    &&& descending ==> decided_hold(cs, cur) && marks_unassigned(mask, cur)
}

/// The search starts with an empty stack.
proof fn lemma_stack_start<
    S: Copy + PartialEq,
    T: Copy + PartialEq,
    C: Constraint<S, T>,
    Strat: SelectionStrategy<S, T>,
>(strat: Strat, cs: Seq<C>, idx: Seq<Seq<usize>>, entry: Seq<Variable<S, T>>, a_entry: Seq<bool>)
    requires
        problem_ok(cs, idx, entry),
        marks_unassigned(a_entry, entry),
        decided_hold(cs, entry),
        values_in_domain(entry),
    ensures
        stack_ok(
            strat,
            cs,
            idx,
            entry,
            a_entry,
            Seq::<Frame>::empty(),
            Seq::<Seq<Variable<S, T>>>::empty(),
            Seq::<Seq<bool>>::empty(),
            entry,
            a_entry,
            true,
        ),
{
    reveal(stack_ok);
}

/// The plain facts of the stack: what the steps of the search need to go
/// ahead.
proof fn lemma_stack_shape<
    S: Copy + PartialEq,
    T: Copy + PartialEq,
    C: Constraint<S, T>,
    Strat: SelectionStrategy<S, T>,
>(
    strat: Strat,
    cs: Seq<C>,
    idx: Seq<Seq<usize>>,
    entry: Seq<Variable<S, T>>,
    a_entry: Seq<bool>,
    stack: Seq<Frame>,
    vs: Seq<Seq<Variable<S, T>>>,
    ms: Seq<Seq<bool>>,
    cur: Seq<Variable<S, T>>,
    mask: Seq<bool>,
    descending: bool,
)
    requires
        stack_ok(strat, cs, idx, entry, a_entry, stack, vs, ms, cur, mask, descending),
    ensures
        problem_ok(cs, idx, entry),
        vs.len() == stack.len(),
        ms.len() == stack.len(),
        mask.len() == entry.len(),
        a_entry.len() == entry.len(),
        cur.len() == entry.len(),
        idx.len() == entry.len(),
        extends(cur, entry),
        !descending ==> stack.len() > 0,
        stack.len() > 0 ==> stack.last().index < cur.len() && stack.last().next
            <= cur[stack.last().index as int].possible.len() && !mask[stack.last().index as int],
        stack.len() > 0 && !descending ==> cur[stack.last().index as int].value is None,
        stack.len() > 1 ==> stack[stack.len() - 2].index < cur.len(),
{
    reveal(stack_ok);
    let d = stack.len() as int;
    if d > 0 {
        lemma_frame_basics(
            strat,
            cs,
            idx,
            entry,
            stack[d - 1],
            vs[d - 1],
            ms[d - 1],
            d - 1 < d - 1 || descending,
        );
    }
    if d > 1 {
        lemma_frame_basics(strat, cs, idx, entry, stack[d - 2], vs[d - 2], ms[d - 2], true);
    }
}

/// With every variable assigned, the search has found a full assignment:
/// the one that the search from the bottom of the stack finds.
proof fn lemma_stack_found<
    S: Copy + PartialEq,
    T: Copy + PartialEq,
    C: Constraint<S, T>,
    Strat: SelectionStrategy<S, T>,
>(
    strat: Strat,
    cs: Seq<C>,
    idx: Seq<Seq<usize>>,
    entry: Seq<Variable<S, T>>,
    a_entry: Seq<bool>,
    stack: Seq<Frame>,
    vs: Seq<Seq<Variable<S, T>>>,
    ms: Seq<Seq<bool>>,
    cur: Seq<Variable<S, T>>,
    mask: Seq<bool>,
)
    requires
        stack_ok(strat, cs, idx, entry, a_entry, stack, vs, ms, cur, mask, true),
        none_available(mask),
        strat.is_deterministic() ==> strat.choice(cur, idx, mask) is None,
    ensures
        is_solution(cs, entry, cur),
        strat.is_deterministic() ==> search(strat, cs, idx, entry, a_entry) == Some(cur),
{
    reveal(stack_ok);
    lemma_same_shape_ids(cur, entry);
    assert(all_assigned(cur)) by {
        assert forall|i: int| 0 <= i < cur.len() implies (#[trigger] cur[i]).value is Some by {
            assert(!mask[i]);
        }
    }
    assert forall|k: int| 0 <= k < cs.len() implies (#[trigger] cs[k]).satisfiable(cur) by {
        let c = cs[k];
        c.lemma_fits_known_ids(ids_of(cur));
        assert forall|m: int| 0 <= m < c.constrained_ids().len() implies value_of(
            cur,
            #[trigger] c.constrained_ids()[m],
        ) is Some by {
            let id = c.constrained_ids()[m];
            lemma_known_id(cur, id);
            let p = position_of(cur, id);
            assert(cur[p].value is Some);
        }
    }
    if strat.is_deterministic() {
        assert(search(strat, cs, idx, cur, mask) == Some(cur));
        let d = stack.len() as int;
        if d > 0 {
            lemma_unwind(strat, cs, idx, entry, stack, vs, ms, d - 1, cur);
        }
    }
}

/// What is found below the level `j` of the stack is what the search from the
/// bottom of the stack finds.
proof fn lemma_unwind<
    S: Copy + PartialEq,
    T: Copy + PartialEq,
    C: Constraint<S, T>,
    Strat: SelectionStrategy<S, T>,
>(
    strat: Strat,
    cs: Seq<C>,
    idx: Seq<Seq<usize>>,
    entry: Seq<Variable<S, T>>,
    frames: Seq<Frame>,
    vs: Seq<Seq<Variable<S, T>>>,
    ms: Seq<Seq<bool>>,
    j: int,
    found: Seq<Variable<S, T>>,
)
    requires
        strat.is_deterministic(),
        0 <= j < frames.len(),
        frames.len() == vs.len(),
        frames.len() == ms.len(),
        forall|m: int|
            0 <= m <= j ==> frame_ok(strat, cs, idx, entry, #[trigger] frames[m], vs[m], ms[m], true),
        forall|m: int| 1 <= m <= j ==> #[trigger] linked(frames, vs, ms, m),
        search(
            strat,
            cs,
            idx,
            child(vs[j], frames[j]),
            ms[j].update(frames[j].index as int, false),
        ) == Some(found),
    ensures
        search(strat, cs, idx, vs[0], ms[0]) == Some(found),
    decreases j,
{
    assert(frame_ok(strat, cs, idx, entry, frames[j], vs[j], ms[j], true));
    lemma_frame_found(strat, cs, idx, entry, frames[j], vs[j], ms[j], found);
    if j > 0 {
        assert(linked(frames, vs, ms, j));
        lemma_unwind(strat, cs, idx, entry, frames, vs, ms, j - 1, found);
    }
}

/// Picking a variable puts a level on the stack.
proof fn lemma_stack_push<
    S: Copy + PartialEq,
    T: Copy + PartialEq,
    C: Constraint<S, T>,
    Strat: SelectionStrategy<S, T>,
>(
    strat: Strat,
    cs: Seq<C>,
    idx: Seq<Seq<usize>>,
    entry: Seq<Variable<S, T>>,
    a_entry: Seq<bool>,
    stack: Seq<Frame>,
    vs: Seq<Seq<Variable<S, T>>>,
    ms: Seq<Seq<bool>>,
    cur: Seq<Variable<S, T>>,
    mask: Seq<bool>,
    index: usize,
)
    requires
        stack_ok(strat, cs, idx, entry, a_entry, stack, vs, ms, cur, mask, true),
        index < mask.len(),
        mask[index as int],
        strat.is_deterministic() ==> strat.choice(cur, idx, mask) == Some(index),
    ensures
        stack_ok(
            strat,
            cs,
            idx,
            entry,
            a_entry,
            stack.push(Frame { index, next: 0 }),
            vs.push(cur),
            ms.push(mask),
            cur,
            mask.update(index as int, false),
            false,
        ),
        progress(stack.push(Frame { index, next: 0 }), entry, false) < progress(stack, entry, true),
{
    reveal(stack_ok);
    let d = stack.len() as int;
    let frame = Frame { index, next: 0 };
    let stack2 = stack.push(frame);
    let vs2 = vs.push(cur);
    let ms2 = ms.push(mask);
    lemma_stack_shape(strat, cs, idx, entry, a_entry, stack, vs, ms, cur, mask, true);
    lemma_frame_new(strat, cs, idx, entry, cur, mask, index);
    lemma_count_true_clear(mask, index as int);
    lemma_count_true_bound(a_entry);
    assert forall|j: int| 0 <= j < d + 1 implies frame_ok(
        strat,
        cs,
        idx,
        entry,
        #[trigger] stack2[j],
        vs2[j],
        ms2[j],
        j < d + 1 - 1 || false,
    ) by {
        if j < d {
            assert(frame_ok(strat, cs, idx, entry, stack[j], vs[j], ms[j], j < d - 1 || true));
        }
    }
    assert forall|j: int| 1 <= j < d + 1 implies #[trigger] linked(stack2, vs2, ms2, j) by {
        if j < d {
            assert(linked(stack, vs, ms, j));
        }
    }
    lemma_stack_frames(strat, cs, idx, entry, a_entry, stack, vs, ms, cur, mask, true);
    assert forall|x: int| 0 <= x < stack2.len() implies (#[trigger] stack2[x]).index < entry.len()
        && stack2[x].next <= entry[stack2[x].index as int].possible.len() by {
        if x < d {
            assert(stack2[x] == stack[x]);
        }
    }
    lemma_widest(entry, index as int);
    lemma_progress_step(stack, true, stack2, false, entry, d);
}

/// The progress of the search goes down where the level `j` goes down and the
/// levels below it stay.
proof fn lemma_progress_step<S, T>(
    before: Seq<Frame>,
    before_descending: bool,
    after: Seq<Frame>,
    after_descending: bool,
    entry: Seq<Variable<S, T>>,
    j: int,
)
    requires
        0 <= j < entry.len(),
        forall|x: int|
            0 <= x < after.len() ==> (#[trigger] after[x]).index < entry.len() && after[x].next
                <= entry[after[x].index as int].possible.len(),
        forall|x: int| 0 <= x < j ==> digits(after, entry, after_descending)[x] == digits(
            before,
            entry,
            before_descending,
        )[x],
        digits(after, entry, after_descending)[j] < digits(before, entry, before_descending)[j],
    ensures
        progress(after, entry, after_descending) < progress(before, entry, before_descending),
{
    let e = digits(after, entry, after_descending);
    assert forall|x: int| 0 <= x < e.len() implies e[x] < 2 * widest(entry) + 2 by {
        if x < after.len() {
            lemma_widest(entry, after[x].index as int);
        }
    }
    lemma_rank_decreases(digits(before, entry, before_descending), e, 2 * widest(entry) + 2, j);
}

/// Every level of the stack names a variable and has tried no more values
/// than the variable has.
proof fn lemma_stack_frames<
    S: Copy + PartialEq,
    T: Copy + PartialEq,
    C: Constraint<S, T>,
    Strat: SelectionStrategy<S, T>,
>(
    strat: Strat,
    cs: Seq<C>,
    idx: Seq<Seq<usize>>,
    entry: Seq<Variable<S, T>>,
    a_entry: Seq<bool>,
    stack: Seq<Frame>,
    vs: Seq<Seq<Variable<S, T>>>,
    ms: Seq<Seq<bool>>,
    cur: Seq<Variable<S, T>>,
    mask: Seq<bool>,
    descending: bool,
)
    requires
        stack_ok(strat, cs, idx, entry, a_entry, stack, vs, ms, cur, mask, descending),
    ensures
        stack.len() <= entry.len(),
        forall|x: int|
            0 <= x < stack.len() ==> (#[trigger] stack[x]).index < entry.len() && stack[x].next
                <= entry[stack[x].index as int].possible.len() && (x < stack.len() - 1
                || descending ==> stack[x].next >= 1),
{
    reveal(stack_ok);
    lemma_count_true_bound(a_entry);
    let d = stack.len() as int;
    assert forall|x: int| 0 <= x < d implies (#[trigger] stack[x]).index < entry.len() && stack[x].next
        <= entry[stack[x].index as int].possible.len() && (x < d - 1 || descending ==> stack[x].next
        >= 1) by {
        lemma_frame_basics(strat, cs, idx, entry, stack[x], vs[x], ms[x], x < d - 1 || descending);
    }
}

/// A value of the top level that passes the constraints is followed up.
proof fn lemma_stack_pass<
    S: Copy + PartialEq,
    T: Copy + PartialEq,
    C: Constraint<S, T>,
    Strat: SelectionStrategy<S, T>,
>(
    strat: Strat,
    cs: Seq<C>,
    idx: Seq<Seq<usize>>,
    entry: Seq<Variable<S, T>>,
    a_entry: Seq<bool>,
    stack: Seq<Frame>,
    vs: Seq<Seq<Variable<S, T>>>,
    ms: Seq<Seq<bool>>,
    cur: Seq<Variable<S, T>>,
    mask: Seq<bool>,
)
    requires
        stack_ok(strat, cs, idx, entry, a_entry, stack, vs, ms, cur, mask, false),
        stack.len() > 0,
        stack.last().next < cur[stack.last().index as int].possible.len(),
        attached_hold(cs, idx[stack.last().index as int], child(cur, advanced(stack.last()))),
        attached_leave_room(cs, idx[stack.last().index as int], child(cur, advanced(stack.last()))),
    ensures
        stack_ok(
            strat,
            cs,
            idx,
            entry,
            a_entry,
            stack.update(stack.len() - 1, advanced(stack.last())),
            vs,
            ms,
            child(cur, advanced(stack.last())),
            mask,
            true,
        ),
        progress(stack.update(stack.len() - 1, advanced(stack.last())), entry, true) < progress(
            stack,
            entry,
            false,
        ),
{
    reveal(stack_ok);
    let d = stack.len() as int;
    let top = stack[d - 1];
    let stack2 = stack.update(d - 1, advanced(top));
    lemma_stack_frames(strat, cs, idx, entry, a_entry, stack, vs, ms, cur, mask, false);
    assert(frame_ok(strat, cs, idx, entry, stack[d - 1], vs[d - 1], ms[d - 1], false));
    lemma_frame_basics(strat, cs, idx, entry, top, cur, ms[d - 1], false);
    lemma_frame_pass(strat, cs, idx, entry, top, cur, ms[d - 1]);
    assert forall|j: int| 0 <= j < d implies frame_ok(
        strat,
        cs,
        idx,
        entry,
        #[trigger] stack2[j],
        vs[j],
        ms[j],
        j < d - 1 || true,
    ) by {
        if j < d - 1 {
            assert(frame_ok(strat, cs, idx, entry, stack[j], vs[j], ms[j], j < d - 1 || false));
        }
    }
    assert forall|j: int| 1 <= j < d implies #[trigger] linked(stack2, vs, ms, j) by {
        assert(linked(stack, vs, ms, j));
    }
    lemma_same_shape_ids(cur, entry);
    lemma_progress_step(stack, false, stack2, true, entry, d - 1);
}

/// A value of the top level that fails the constraints is done with.
proof fn lemma_stack_fail<
    S: Copy + PartialEq,
    T: Copy + PartialEq,
    C: Constraint<S, T>,
    Strat: SelectionStrategy<S, T>,
>(
    strat: Strat,
    cs: Seq<C>,
    idx: Seq<Seq<usize>>,
    entry: Seq<Variable<S, T>>,
    a_entry: Seq<bool>,
    stack: Seq<Frame>,
    vs: Seq<Seq<Variable<S, T>>>,
    ms: Seq<Seq<bool>>,
    cur: Seq<Variable<S, T>>,
    mask: Seq<bool>,
)
    requires
        stack_ok(strat, cs, idx, entry, a_entry, stack, vs, ms, cur, mask, false),
        stack.len() > 0,
        stack.last().next < cur[stack.last().index as int].possible.len(),
        !(attached_hold(cs, idx[stack.last().index as int], child(cur, advanced(stack.last())))
            && attached_leave_room(
            cs,
            idx[stack.last().index as int],
            child(cur, advanced(stack.last())),
        )),
    ensures
        stack_ok(
            strat,
            cs,
            idx,
            entry,
            a_entry,
            stack.update(stack.len() - 1, advanced(stack.last())),
            vs,
            ms,
            cur,
            mask,
            false,
        ),
        progress(stack.update(stack.len() - 1, advanced(stack.last())), entry, false) < progress(
            stack,
            entry,
            false,
        ),
{
    reveal(stack_ok);
    let d = stack.len() as int;
    let top = stack[d - 1];
    let stack2 = stack.update(d - 1, advanced(top));
    lemma_stack_frames(strat, cs, idx, entry, a_entry, stack, vs, ms, cur, mask, false);
    assert(frame_ok(strat, cs, idx, entry, stack[d - 1], vs[d - 1], ms[d - 1], false));
    lemma_frame_basics(strat, cs, idx, entry, top, cur, ms[d - 1], false);
    lemma_frame_fail(strat, cs, idx, entry, top, cur, ms[d - 1]);
    assert forall|j: int| 0 <= j < d implies frame_ok(
        strat,
        cs,
        idx,
        entry,
        #[trigger] stack2[j],
        vs[j],
        ms[j],
        j < d - 1 || false,
    ) by {
        if j < d - 1 {
            assert(frame_ok(strat, cs, idx, entry, stack[j], vs[j], ms[j], j < d - 1 || false));
        }
    }
    assert forall|j: int| 1 <= j < d implies #[trigger] linked(stack2, vs, ms, j) by {
        assert(linked(stack, vs, ms, j));
    }
    lemma_same_shape_ids(cur, entry);
    lemma_progress_step(stack, false, stack2, false, entry, d - 1);
}

/// A top level without a value left is taken off the stack: nothing
/// completes the assignment in which its variable was picked. Where the
/// stack runs empty, that is the assignment that the search started from;
/// otherwise the value of the level below is done with.
proof fn lemma_stack_pop<
    S: Copy + PartialEq,
    T: Copy + PartialEq,
    C: Constraint<S, T>,
    Strat: SelectionStrategy<S, T>,
>(
    strat: Strat,
    cs: Seq<C>,
    idx: Seq<Seq<usize>>,
    entry: Seq<Variable<S, T>>,
    a_entry: Seq<bool>,
    stack: Seq<Frame>,
    vs: Seq<Seq<Variable<S, T>>>,
    ms: Seq<Seq<bool>>,
    cur: Seq<Variable<S, T>>,
    mask: Seq<bool>,
)
    requires
        stack_ok(strat, cs, idx, entry, a_entry, stack, vs, ms, cur, mask, false),
        stack.len() > 0,
        stack.last().next >= cur[stack.last().index as int].possible.len(),
    ensures
        stack.len() == 1 ==> {
            &&& cur == entry
            &&& mask.update(stack.last().index as int, true) == a_entry
            &&& no_solution(cs, entry)
            &&& strat.is_deterministic() ==> search(strat, cs, idx, entry, a_entry) is None
        },
        stack.len() > 1 ==> {
            &&& stack[stack.len() - 2].index < cur.len()
            &&& stack_ok(
                strat,
                cs,
                idx,
                entry,
                a_entry,
                stack.drop_last(),
                vs.drop_last(),
                ms.drop_last(),
                with_value(cur, stack[stack.len() - 2].index as int, None),
                mask.update(stack.last().index as int, true),
                false,
            )
            &&& progress(stack.drop_last(), entry, false) < progress(stack, entry, false)
        },
{
    reveal(stack_ok);
    let d = stack.len() as int;
    let top = stack[d - 1];
    let v = vs[d - 1];
    let a = ms[d - 1];
    lemma_stack_frames(strat, cs, idx, entry, a_entry, stack, vs, ms, cur, mask, false);
    assert(frame_ok(strat, cs, idx, entry, stack[d - 1], vs[d - 1], ms[d - 1], false));
    lemma_frame_basics(strat, cs, idx, entry, top, v, a, false);
    lemma_frame_exhausted(strat, cs, idx, entry, top, v, a);
    assert(mask.update(top.index as int, true) =~= a);
    lemma_count_true_clear(a, top.index as int);
    if d > 1 {
        let below = stack[d - 2];
        let vp = vs[d - 2];
        let ap = ms[d - 2];
        let stack2 = stack.drop_last();
        let vs2 = vs.drop_last();
        let ms2 = ms.drop_last();
        assert(frame_ok(strat, cs, idx, entry, stack[d - 2], vs[d - 2], ms[d - 2], true));
        lemma_frame_basics(strat, cs, idx, entry, below, vp, ap, true);
        assert(linked(stack, vs, ms, d - 1));
        assert(v == child(vp, below));
        assert(a == ap.update(below.index as int, false));
        lemma_frame_resume(strat, cs, idx, entry, below, vp, ap);
        assert(with_value(cur, below.index as int, None) =~= vp);
        assert forall|j: int| 0 <= j < d - 1 implies frame_ok(
            strat,
            cs,
            idx,
            entry,
            #[trigger] stack2[j],
            vs2[j],
            ms2[j],
            j < d - 1 - 1 || false,
        ) by {
            if j < d - 2 {
                assert(frame_ok(strat, cs, idx, entry, stack[j], vs[j], ms[j], j < d - 1 || false));
            }
        }
        assert forall|j: int| 1 <= j < d - 1 implies #[trigger] linked(stack2, vs2, ms2, j) by {
            assert(linked(stack, vs, ms, j));
        }
        lemma_progress_step(stack, false, stack2, false, entry, d - 2);
    }
}

/// The reverse index of a problem is one: two of them list the same
/// constraints for every variable, in the same order.
pub proof fn lemma_reverse_index_unique<S: Copy + PartialEq, T: Copy + PartialEq, C: Constraint<S, T>>(
    constraints: Seq<C>,
    one: Seq<Seq<usize>>,
    other: Seq<Seq<usize>>,
    ids: Seq<S>,
    i: int,
)
    requires
        is_reverse_index(constraints, one, ids),
        is_reverse_index(constraints, other, ids),
        0 <= i < ids.len(),
    ensures
        one[i] == other[i],
{
    let a = one[i];
    let b = other[i];
    assert(ascending(a));
    assert(ascending(b));
    assert forall|k: int| lists(a, k) <==> lists(b, k) by {
        if lists(a, k) {
            let j = choose|j: int| 0 <= j < a.len() && (#[trigger] a[j]) == k;
            assert(one[i][j] < constraints.len());
            assert(constraints[k].constrained_ids().contains(ids[i]));
            assert(lists(other[i], k));
        }
        if lists(b, k) {
            let j = choose|j: int| 0 <= j < b.len() && (#[trigger] b[j]) == k;
            assert(other[i][j] < constraints.len());
            assert(constraints[k].constrained_ids().contains(ids[i]));
            assert(lists(one[i], k));
        }
    }
    lemma_ascending_equal(a, b);
}

/// Two ascending lists of the same numbers are the same list.
pub proof fn lemma_ascending_equal(a: Seq<usize>, b: Seq<usize>)
    requires
        ascending(a),
        ascending(b),
        forall|k: int| lists(a, k) <==> lists(b, k),
    ensures
        a == b,
    decreases a.len() + b.len(),
{
    if a.len() == 0 {
        if b.len() > 0 {
            assert(lists(b, b[0] as int));
            assert(lists(a, b[0] as int));
        }
        assert(a =~= b);
    } else if b.len() == 0 {
        assert(lists(a, a[0] as int));
        assert(lists(b, a[0] as int));
    } else {
        let x = a.last();
        let y = b.last();
        assert(lists(a, x as int)) by {
            assert(a[a.len() - 1] == x);
        }
        assert(lists(b, y as int)) by {
            assert(b[b.len() - 1] == y);
        }
        assert(x == y) by {
            let j = choose|j: int| 0 <= j < b.len() && (#[trigger] b[j]) == x;
            let k = choose|k: int| 0 <= k < a.len() && (#[trigger] a[k]) == y;
            if j < b.len() - 1 {
                assert(b[j] < b[b.len() - 1]);
            }
            if k < a.len() - 1 {
                assert(a[k] < a[a.len() - 1]);
            }
        }
        let a2 = a.drop_last();
        let b2 = b.drop_last();
        assert forall|k: int| lists(a2, k) <==> lists(b2, k) by {
            if lists(a2, k) {
                let j = choose|j: int| 0 <= j < a2.len() && (#[trigger] a2[j]) == k;
                assert(a[j] == k);
                assert(a[j] < a[a.len() - 1]);
                assert(lists(a, k));
                let m = choose|m: int| 0 <= m < b.len() && (#[trigger] b[m]) == k;
                assert(m < b.len() - 1);
                assert(b2[m] == k);
            }
            if lists(b2, k) {
                let j = choose|j: int| 0 <= j < b2.len() && (#[trigger] b2[j]) == k;
                assert(b[j] == k);
                assert(b[j] < b[b.len() - 1]);
                assert(lists(b, k));
                let m = choose|m: int| 0 <= m < a.len() && (#[trigger] a[m]) == k;
                assert(m < a.len() - 1);
                assert(a2[m] == k);
            }
        }
        assert(ascending(a2)) by {
            assert forall|p: int, q: int| 0 <= p < q < a2.len() implies a2[p] < a2[q] by {
                assert(a[p] < a[q]);
            }
        }
        assert(ascending(b2)) by {
            assert forall|p: int, q: int| 0 <= p < q < b2.len() implies b2[p] < b2[q] by {
                assert(b[p] < b[q]);
            }
        }
        lemma_ascending_equal(a2, b2);
        assert(a =~= a2.push(x));
        assert(b =~= b2.push(y));
    }
}

/// The search: variables, the constraints on them with the index from each
/// variable to the constraints that speak of it, the running counts of the
/// values assigned, and the rule that picks the next variable.
pub struct ConstraintSolver<S, T, C, Strat> {
    pub variable_lookup: Vec<Variable<S, T>>,
    pub constraints: Vec<C>,
    pub variable_to_constraints: Vec<Vec<usize>>,
    pub global_counts: Counts<T>,
    pub selection_strategy: Strat,
}

impl<
    S: Copy + PartialEq,
    T: Copy + PartialEq,
    C: Constraint<S, T>,
    Strat: SelectionStrategy<S, T>,
> ConstraintSolver<S, T, C, Strat> {
    /// The variables with their tentative values.
    pub open spec fn lookup(&self) -> Seq<Variable<S, T>> {
        self.variable_lookup@
    }

    /// The counts of the values assigned.
    pub open spec fn counts(&self) -> Counts<T> {
        self.global_counts
    }

    /// The constraints of the problem.
    pub open spec fn constraints(&self) -> Seq<C> {
        self.constraints@
    }

    /// For each variable, the constraints that speak of it, by their position
    /// in `constraints()`.
    pub open spec fn index(&self) -> Seq<Seq<usize>> {
        lists_of(self.variable_to_constraints@)
    }

    /// The rule that picks the next variable.
    pub open spec fn strategy(&self) -> Strat {
        self.selection_strategy
    }

    /// The solver is consistent: identifiers are distinct, the counts are
    /// those of the assigned values, every constraint fits the variables, and
    /// the index is the reverse of what the constraints speak of.
    pub closed spec fn wf(&self) -> bool {
        &&& eq_decides_identity::<S>()
        &&& eq_decides_identity::<T>()
        &&& distinct_ids(self.variable_lookup@)
        &&& self.global_counts.wf()
        &&& self.global_counts.matches(self.variable_lookup@)
        &&& is_reverse_index(
            self.constraints@,
            lists_of(self.variable_to_constraints@),
            ids_of(self.variable_lookup@),
        )
        &&& forall|k: int|
            0 <= k < self.constraints.len() ==> (#[trigger] self.constraints[k]).fits(
                ids_of(self.variable_lookup@),
            )
    }

    /// What `backtrack` returns on a solver whose strategy is deterministic:
    /// nothing where a constraint that speaks of no variable is violated, and
    /// otherwise what the search finds.
    pub open spec fn first_solution(&self) -> Option<Seq<(S, T)>> {
        if unnamed_hold(self.constraints(), self.lookup()) {
            match search(
                self.strategy(),
                self.constraints(),
                self.index(),
                self.lookup(),
                Seq::new(self.lookup().len(), |i: int| true),
            ) {
                Some(full) => Some(pairs_of(full)),
                None => None,
            }
        } else {
            None
        }
    }

    /// What a consistent solver is made of.
    pub proof fn lemma_wf(&self)
        requires
            self.wf(),
        ensures
            eq_decides_identity::<S>(),
            eq_decides_identity::<T>(),
            distinct_ids(self.lookup()),
            self.counts().wf(),
            self.counts().matches(self.lookup()),
            is_reverse_index(self.constraints(), self.index(), ids_of(self.lookup())),
            forall|k: int|
                0 <= k < self.constraints().len() ==> (#[trigger] self.constraints()[k]).fits(
                    ids_of(self.lookup()),
                ),
    {
    }

    /// Two solvers for the same variables under the same constraints, with
    /// the same deterministic strategy, find the same: `backtrack` returns
    /// the same assignment on both.
    pub proof fn lemma_same_problem_same_answer(one: &Self, other: &Self)
        requires
            one.wf(),
            other.wf(),
            one.lookup() == other.lookup(),
            one.constraints() == other.constraints(),
            one.strategy() == other.strategy(),
        ensures
            one.index() == other.index(),
            one.first_solution() == other.first_solution(),
    {
        let a = one.index();
        let b = other.index();
        let ids = ids_of(one.lookup());
        assert(a.len() == b.len());
        assert forall|i: int| 0 <= i < a.len() implies a[i] == b[i] by {
            lemma_reverse_index_unique(one.constraints(), a, b, ids, i);
        }
        assert(a =~= b);
    }

    /// A solver for `variables` under `constraints`, with nothing assigned.
    pub fn new(variables: Vec<Variable<S, T>>, constraints: Vec<C>, selection_strategy: Strat) -> (solver:
        Self)
        requires
            eq_decides_identity::<S>(),
            eq_decides_identity::<T>(),
            distinct_ids(variables@),
            all_unassigned(variables@),
            forall|k: int|
                0 <= k < constraints.len() ==> (#[trigger] constraints[k]).fits(ids_of(variables@)),
        ensures
            solver.wf(),
            solver.lookup() == variables@,
            solver.constraints() == constraints@,
            solver.strategy() == selection_strategy,
            is_reverse_index(constraints@, solver.index(), ids_of(variables@)),
            forall|t: T| solver.counts().count(t) == 0,
    {
        let mut id_lists: Vec<Vec<S>> = Vec::new();
        let mut k: usize = 0;
        while k < constraints.len()
            invariant
                k <= constraints.len(),
                id_lists.len() == k,
                forall|q: int| 0 <= q < k ==> (#[trigger] id_lists[q])@ == constraints[q].constrained_ids(),
            decreases constraints.len() - k,
        {
            let ids = constraints[k].get_constrained_variable_ids();
            id_lists.push(ids);
            k = k + 1;
        }
        let mut variable_to_constraints: Vec<Vec<usize>> = Vec::new();
        let mut i: usize = 0;
        while i < variables.len()
            invariant
                eq_decides_identity::<S>(),
                i <= variables.len(),
                id_lists.len() == constraints.len(),
                forall|q: int|
                    0 <= q < id_lists.len() ==> (#[trigger] id_lists[q])@
                        == constraints[q].constrained_ids(),
                is_reverse_index(
                    constraints@,
                    lists_of(variable_to_constraints@),
                    ids_of(variables@).take(i as int),
                ),
            decreases variables.len() - i,
        {
            let mut attached: Vec<usize> = Vec::new();
            let mut k: usize = 0;
            while k < constraints.len()
                invariant
                    eq_decides_identity::<S>(),
                    i < variables.len(),
                    k <= constraints.len(),
                    id_lists.len() == constraints.len(),
                    forall|q: int|
                        0 <= q < id_lists.len() ==> (#[trigger] id_lists[q])@
                            == constraints[q].constrained_ids(),
                    forall|j: int|
                        0 <= j < attached.len() ==> (#[trigger] attached@[j]) < k
                            && constraints[attached@[j] as int].constrained_ids().contains(
                            variables[i as int].id,
                        ),
                    forall|q: int|
                        0 <= q < k && #[trigger] constraints[q].constrained_ids().contains(
                            variables[i as int].id,
                        ) ==> lists(attached@, q),
                    ascending(attached@),
                decreases constraints.len() - k,
            {
                if contains_id(&id_lists[k], &variables[i].id) {
                    let ghost before = attached@;
                    attached.push(k);
                    proof {
                        assert(attached@[attached.len() - 1] == k);
                        assert(ascending(attached@)) by {
                            assert forall|a: int, b: int| 0 <= a < b < attached@.len() implies attached@[a]
                                < attached@[b] by {
                                assert(before[a] < k);
                                if b < before.len() {
                                    assert(before[a] < before[b]);
                                }
                            }
                        }
                        assert forall|q: int|
                            0 <= q < k + 1 && #[trigger] constraints[q].constrained_ids().contains(
                                variables[i as int].id,
                            ) implies lists(attached@, q) by {
                            if q < k {
                                assert(lists(before, q));
                                let w = choose|w: int| 0 <= w < before.len() && (#[trigger] before[w]) == q;
                                assert(attached@[w] == q);
                            }
                        }
                    }
                }
                k = k + 1;
            }
            let ghost before = lists_of(variable_to_constraints@);
            variable_to_constraints.push(attached);
            proof {
                let ids = ids_of(variables@).take(i as int + 1);
                let old_ids = ids_of(variables@).take(i as int);
                let index = lists_of(variable_to_constraints@);
                assert forall|a: int, j: int|
                    0 <= a < index.len() && 0 <= j < index[a].len() implies (#[trigger] index[a][j])
                        < constraints.len() && constraints[index[a][j] as int].constrained_ids().contains(
                    ids[a]) by {
                    if a < i {
                        assert(index[a] == before[a]);
                        assert(ids[a] == old_ids[a]);
                    }
                }
                assert forall|a: int, q: int|
                    0 <= a < index.len() && 0 <= q < constraints.len()
                        && #[trigger] constraints[q].constrained_ids().contains(
                        ids[a],
                    ) implies lists(index[a], q) by {
                    if a < i {
                        assert(index[a] == before[a]);
                        assert(ids[a] == old_ids[a]);
                    }
                }
                assert forall|a: int| 0 <= a < index.len() implies ascending(#[trigger] index[a]) by {
                    if a < i {
                        assert(index[a] == before[a]);
                    }
                }
            }
            i = i + 1;
        }
        let global_counts = Counts::new();
        proof {
            assert(ids_of(variables@).take(variables.len() as int) =~= ids_of(variables@));
            assert forall|t: T| #[trigger] global_counts.count(t) == occurrences(variables@, t) by {
                lemma_count_value_none(values_of(variables@), t);
            }
        }
        ConstraintSolver {
            variable_lookup: variables,
            constraints,
            variable_to_constraints,
            global_counts,
            selection_strategy,
        }
    }

    /// Sets the variable at `index` to `state`, or clears it, and keeps the
    /// counts in step.
    pub fn set_variable_state(&mut self, index: usize, state: Option<T>)
        requires
            old(self).wf(),
            index < old(self).lookup().len(),
        ensures
            final(self).wf(),
            final(self).lookup() == with_value(old(self).lookup(), index as int, state),
            final(self).counts().matches(final(self).lookup()),
            final(self).constraints() == old(self).constraints(),
            final(self).index() == old(self).index(),
            final(self).strategy() == old(self).strategy(),
    {
        let ghost before = self.variable_lookup@;
        let ghost cleared = values_of(before).update(index as int, None);
        if let Some(previous) = self.variable_lookup[index].value {
            proof {
                lemma_count_value_update(values_of(before), index as int, None, previous);
            }
            self.global_counts.decrement(previous);
        }
        proof {
            assert forall|t: T| #[trigger] self.global_counts.count(t) == count_value(cleared, t) by {
                lemma_count_value_update(values_of(before), index as int, None, t);
            }
        }
        if let Some(next) = state {
            proof {
                lemma_count_value_update(cleared, index as int, Some(next), next);
                lemma_count_value_bound(cleared.update(index as int, Some(next)), next);
                assert(cleared[index as int] != Some(next));
                assert(cleared.update(index as int, Some(next)).len() == self.variable_lookup.len());
                assert(count_value(cleared, next) < self.variable_lookup.len());
                assert(self.global_counts.count(next) == count_value(cleared, next));
            }
            self.global_counts.increment(next);
        }
        self.variable_lookup[index].value = state;
        proof {
            let after = self.variable_lookup@;
            assert(after =~= with_value(before, index as int, state));
            lemma_value_of_with_value(before, index as int, state, before[index as int].id);
            lemma_same_shape_ids(after, before);
            assert(values_of(after) =~= cleared.update(index as int, state));
            assert forall|t: T| #[trigger] self.global_counts.count(t) == occurrences(after, t) by {
                lemma_count_value_update(cleared, index as int, state, t);
            }
        }
    }

    /// Assigning a value to an unassigned variable and clearing it again
    /// leaves everything as it was: the variables, the counts, and with them
    /// what every constraint makes of the assignment.
    pub proof fn lemma_undo_restores(before: &Self, applied: &Self, undone: &Self, index: int, state: T)
        requires
            before.wf(),
            applied.wf(),
            undone.wf(),
            0 <= index < before.lookup().len(),
            before.lookup()[index].value is None,
            applied.lookup() == with_value(before.lookup(), index, Some(state)),
            undone.lookup() == with_value(applied.lookup(), index, None),
        ensures
            undone.lookup() == before.lookup(),
            undone.counts()@ == before.counts()@,
            forall|c: C| c.satisfiable(undone.lookup()) == c.satisfiable(before.lookup()),
            forall|c: C, id: S|
                c.consistent_states(undone.lookup(), id) == c.consistent_states(before.lookup(), id),
    {
        assert(undone.lookup() =~= before.lookup());
        assert(undone.counts()@ =~= before.counts()@) by {
            assert forall|t: T| undone.counts().count(t) == before.counts().count(t) by {
                assert(undone.counts().count(t) == occurrences(undone.lookup(), t));
                assert(before.counts().count(t) == occurrences(before.lookup(), t));
            }
        }
    }

    /// Whether every constraint that speaks of the variable at `index` accepts
    /// the current assignment.
    pub fn constraints_are_satisfied(&self, index: usize) -> (ok: bool)
        requires
            self.wf(),
            index < self.lookup().len(),
        ensures
            ok == attached_hold(self.constraints(), self.index()[index as int], self.lookup()),
    {
        let mut j: usize = 0;
        while j < self.variable_to_constraints[index].len()
            invariant
                self.wf(),
                index < self.variable_lookup.len(),
                j <= self.variable_to_constraints[index as int].len(),
                forall|q: int|
                    0 <= q < j ==> self.constraints[(
                    #[trigger] self.variable_to_constraints[index as int]@[q]) as int].satisfiable(
                        self.variable_lookup@,
                    ),
            decreases self.variable_to_constraints[index as int].len() - j,
        {
            let k = self.variable_to_constraints[index][j];
            proof {
                assert(lists_of(self.variable_to_constraints@)[index as int][j as int] == k);
            }
            if !self.constraints[k].check_constraint(&self.global_counts, &self.variable_lookup) {
                return false;
            }
            j = j + 1;
        }
        true
    }

    /// Whether every constraint that speaks of the variable at `index` still
    /// admits a value for each of its variables that is not assigned yet.
    pub fn forward_check(&self, index: usize) -> (ok: bool)
        requires
            self.wf(),
            index < self.lookup().len(),
        ensures
            ok == attached_leave_room(
                self.constraints(),
                self.index()[index as int],
                self.lookup(),
            ),
    {
        let mut j: usize = 0;
        while j < self.variable_to_constraints[index].len()
            invariant
                self.wf(),
                index < self.variable_lookup.len(),
                j <= self.variable_to_constraints[index as int].len(),
                forall|q: int|
                    0 <= q < j ==> leaves_room(
                        self.constraints[(
                        #[trigger] self.variable_to_constraints[index as int]@[q]) as int],
                        self.variable_lookup@,
                    ),
            decreases self.variable_to_constraints[index as int].len() - j,
        {
            let k = self.variable_to_constraints[index][j];
            proof {
                assert(lists_of(self.variable_to_constraints@)[index as int][j as int] == k);
            }
            let ids = self.constraints[k].get_constrained_variable_ids();
            let ghost c = self.constraints[k as int];
            let mut m: usize = 0;
            while m < ids.len()
                invariant
                    self.wf(),
                    index < self.variable_lookup.len(),
                    j < self.variable_to_constraints[index as int].len(),
                    k == self.variable_to_constraints[index as int]@[j as int],
                    k < self.constraints.len(),
                    c == self.constraints[k as int],
                    ids@ == c.constrained_ids(),
                    m <= ids.len(),
                    forall|q: int|
                        0 <= q < m && value_of(self.variable_lookup@, #[trigger] ids@[q]) is None
                            ==> c.consistent_states(self.variable_lookup@, ids@[q]).len() > 0,
                decreases ids.len() - m,
            {
                proof {
                    c.lemma_fits_known_ids(ids_of(self.variable_lookup@));
                    lemma_known_id(self.variable_lookup@, ids@[m as int]);
                }
                match find_variable(&self.variable_lookup, &ids[m]) {
                    Some(p) => {
                        proof {
                            lemma_position_of(self.variable_lookup@, p as int);
                        }
                        if self.variable_lookup[p].value.is_none() {
                            let states = self.constraints[k].consistent_states_for_variable(
                                &self.variable_lookup,
                                &ids[m],
                            );
                            if states.len() == 0 {
                                proof {
                                    assert(value_of(self.variable_lookup@, c.constrained_ids()[m as int])
                                        is None);
                                    assert(!leaves_room(c, self.variable_lookup@));
                                    assert(self.variable_to_constraints[index as int]@[j as int] == k);
                                }
                                return false;
                            }
                        }
                    },
                    None => {},
                }
                m = m + 1;
            }
            j = j + 1;
        }
        true
    }

    /// Searches for an assignment of every variable that all constraints
    /// accept, and returns it as pairs of identifier and value in the order of
    /// the variables; `None` when there is none. The solver must be fresh:
    /// nothing assigned yet. The constraints that speak of no variable are
    /// asked once, before the search; the others as the search goes.
    ///
    /// With a deterministic strategy the result is `first_solution()`, a
    /// function of the solver alone: two runs on the same problem return the
    /// same assignment.
    pub fn backtrack(&mut self) -> (solution: Option<Vec<(S, T)>>)
        requires
            old(self).wf(),
            all_unassigned(old(self).lookup()),
        ensures
            final(self).wf(),
            final(self).constraints() == old(self).constraints(),
            final(self).index() == old(self).index(),
            match solution {
                Some(pairs) => {
                    &&& is_solution(
                        old(self).constraints(),
                        old(self).lookup(),
                        final(self).lookup(),
                    )
                    &&& pairs@ == pairs_of(final(self).lookup())
                },
                None => {
                    &&& no_solution(old(self).constraints(), old(self).lookup())
                    &&& final(self).lookup() == old(self).lookup()
                    &&& final(self).counts()@ == old(self).counts()@
                },
            },
            old(self).strategy().is_deterministic() ==> {
                &&& final(self).strategy() == old(self).strategy()
                &&& match solution {
                    Some(pairs) => old(self).first_solution() == Some(pairs@),
                    None => old(self).first_solution() is None,
                }
            },
    {
        let n = self.variable_lookup.len();
        let mut available_indices: Vec<bool> = Vec::new();
        let mut i: usize = 0;
        while i < n
            invariant
                i <= n,
                available_indices.len() == i,
                forall|j: int| 0 <= j < i ==> available_indices[j],
            decreases n - i,
        {
            available_indices.push(true);
            i = i + 1;
        }
        let mut k: usize = 0;
        while k < self.constraints.len()
            invariant
                self.wf(),
                *self == *old(self),
                k <= self.constraints.len(),
                forall|q: int|
                    0 <= q < k && (#[trigger] self.constraints@[q]).constrained_ids().len() == 0
                        ==> self.constraints@[q].satisfiable(self.variable_lookup@),
            decreases self.constraints.len() - k,
        {
            let ids = self.constraints[k].get_constrained_variable_ids();
            if ids.len() == 0 {
                if !self.constraints[k].check_constraint(&self.global_counts, &self.variable_lookup) {
                    proof {
                        let cs = self.constraints@;
                        let vars = self.variable_lookup@;
                        let c = cs[k as int];
                        assert forall|full: Seq<Variable<S, T>>| !#[trigger] is_solution(
                            cs,
                            vars,
                            full,
                        ) by {
                            if is_solution(cs, vars, full) {
                                c.lemma_contradiction_persists(vars, full);
                                assert(cs[k as int].satisfiable(full));
                            }
                        }
                        assert(!unnamed_hold(cs, vars));
                    }
                    return None;
                }
            }
            k = k + 1;
        }
        proof {
            let vars = self.variable_lookup@;
            assert(available_indices@ =~= Seq::new(vars.len(), |i: int| true));
            assert(unnamed_hold(self.constraints@, vars));
            assert forall|k: int|
                0 <= k < self.constraints@.len() && all_ids_assigned(
                    (#[trigger] self.constraints@[k]).constrained_ids(),
                    vars,
                ) implies self.constraints@[k].satisfiable(vars) by {
                let c = self.constraints@[k];
                if c.constrained_ids().len() > 0 {
                    let id = c.constrained_ids()[0];
                    c.lemma_fits_known_ids(ids_of(vars));
                    lemma_known_id(vars, id);
                    let p = position_of(vars, id);
                    assert(vars[p].value is None);
                    assert(value_of(vars, id) is None);
                }
            }
        }
        if self._backtrack(&mut available_indices) {
            let mut pairs: Vec<(S, T)> = Vec::new();
            let mut i: usize = 0;
            while i < n
                invariant
                    i <= n,
                    n == self.variable_lookup.len(),
                    all_assigned(self.variable_lookup@),
                    pairs.len() == i,
                    forall|j: int|
                        0 <= j < i ==> pairs[j] == (
                            self.variable_lookup[j].id,
                            self.variable_lookup[j].value->0,
                        ),
                decreases n - i,
            {
                let value = self.variable_lookup[i].value.unwrap();
                pairs.push((self.variable_lookup[i].id, value));
                i = i + 1;
            }
            proof {
                assert(pairs@ =~= pairs_of(self.variable_lookup@));
            }
            Some(pairs)
        } else {
            None
        }
    }

    /// The search from the current assignment, over the variables that
    /// `available_indices` marks. It keeps a stack of the variables that it
    /// has picked, each with the number of its values that have been tried:
    /// it picks a variable, tries its values in order, and goes on to the
    /// next variable with the first value that the constraints accept; a
    /// variable that has no value left is taken off the stack, and the
    /// variable below it goes on to its next value. Where the stack runs
    /// empty, everything is as it was before, and the result is `false`.
    fn _backtrack(&mut self, available_indices: &mut Vec<bool>) -> (found: bool)
        requires
            old(self).wf(),
            old(available_indices).len() == old(self).lookup().len(),
            forall|i: int|
                0 <= i < old(available_indices).len() ==> (old(available_indices)[i] <==> (
                #[trigger] old(self).lookup()[i]).value is None),
            decided_hold(old(self).constraints(), old(self).lookup()),
            values_in_domain(old(self).lookup()),
        ensures
            final(self).wf(),
            final(self).constraints() == old(self).constraints(),
            final(self).index() == old(self).index(),
            found ==> is_solution(old(self).constraints(), old(self).lookup(), final(self).lookup()),
            found ==> final(available_indices).len() == old(available_indices).len()
                && none_available(final(available_indices)@),
            !found ==> {
                &&& no_solution(old(self).constraints(), old(self).lookup())
                &&& final(self).lookup() == old(self).lookup()
                &&& final(self).counts()@ == old(self).counts()@
                &&& final(available_indices)@ == old(available_indices)@
            },
            old(self).strategy().is_deterministic() ==> {
                &&& final(self).strategy() == old(self).strategy()
                &&& found == (search(
                    old(self).strategy(),
                    old(self).constraints(),
                    old(self).index(),
                    old(self).lookup(),
                    old(available_indices)@,
                ) is Some)
                &&& found ==> search(
                    old(self).strategy(),
                    old(self).constraints(),
                    old(self).index(),
                    old(self).lookup(),
                    old(available_indices)@,
                ) == Some(final(self).lookup())
            },
    {
        let ghost cs = self.constraints@;
        let ghost idx = lists_of(self.variable_to_constraints@);
        let ghost v0 = self.variable_lookup@;
        let ghost a0 = available_indices@;
        let ghost strat0 = self.selection_strategy;
        let ghost counts0 = self.global_counts@;
        let mut stack: Vec<Frame> = Vec::new();
        let ghost mut vs: Seq<Seq<Variable<S, T>>> = Seq::empty();
        let ghost mut ms: Seq<Seq<bool>> = Seq::empty();
        let mut descending = true;
        proof {
            lemma_stack_start(strat0, cs, idx, v0, a0);
        }
        loop
            invariant
                self.wf(),
                cs == old(self).constraints(),
                idx == old(self).index(),
                v0 == old(self).lookup(),
                a0 == old(available_indices)@,
                strat0 == old(self).strategy(),
                counts0 == old(self).counts()@,
                self.constraints@ == cs,
                lists_of(self.variable_to_constraints@) == idx,
                strat0.is_deterministic() ==> self.selection_strategy == strat0,
                forall|t: T| counts0[t] == occurrences(v0, t),
                stack_ok(
                    strat0,
                    cs,
                    idx,
                    v0,
                    a0,
                    stack@,
                    vs,
                    ms,
                    self.variable_lookup@,
                    available_indices@,
                    descending,
                ),
            decreases progress(stack@, v0, descending),
        {
            let ghost cur = self.variable_lookup@;
            let ghost mask = available_indices@;
            let ghost frames = stack@;
            proof {
                lemma_stack_shape(strat0, cs, idx, v0, a0, frames, vs, ms, cur, mask, descending);
            }
            if descending {
                let next = self.selection_strategy.get_next_index(
                    &self.variable_lookup,
                    &self.variable_to_constraints,
                    available_indices,
                );
                match next {
                    None => {
                        proof {
                            lemma_stack_found(strat0, cs, idx, v0, a0, frames, vs, ms, cur, mask);
                        }
                        return true;
                    },
                    Some(index) => {
                        available_indices[index] = false;
                        stack.push(Frame { index, next: 0 });
                        proof {
                            lemma_stack_push(strat0, cs, idx, v0, a0, frames, vs, ms, cur, mask, index);
                            vs = vs.push(cur);
                            ms = ms.push(mask);
                        }
                        descending = false;
                    },
                }
            } else {
                let top = stack.len() - 1;
                let index = stack[top].index;
                let k = stack[top].next;
                if k < self.variable_lookup[index].possible.len() {
                    let state = self.variable_lookup[index].possible[k];
                    self.set_variable_state(index, Some(state));
                    stack[top].next = k + 1;
                    let ok = self.constraints_are_satisfied(index) && self.forward_check(index);
                    if ok {
                        descending = true;
                        proof {
                            lemma_stack_pass(strat0, cs, idx, v0, a0, frames, vs, ms, cur, mask);
                        }
                    } else {
                        self.set_variable_state(index, None);
                        proof {
                            assert(self.variable_lookup@ =~= cur);
                            lemma_stack_fail(strat0, cs, idx, v0, a0, frames, vs, ms, cur, mask);
                        }
                    }
                } else {
                    stack.pop();
                    available_indices[index] = true;
                    proof {
                        lemma_stack_pop(strat0, cs, idx, v0, a0, frames, vs, ms, cur, mask);
                        vs = vs.drop_last();
                        ms = ms.drop_last();
                    }
                    if stack.len() == 0 {
                        proof {
                            assert(self.global_counts@ =~= counts0) by {
                                assert forall|t: T| self.global_counts.count(t) == counts0[t] by {
                                    assert(self.global_counts.count(t) == occurrences(v0, t));
                                }
                            }
                        }
                        return false;
                    }
                    let parent = stack[stack.len() - 1].index;
                    self.set_variable_state(parent, None);
                }
            }
        }
    }

}

} // verus!
