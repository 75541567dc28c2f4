//! Unit propagation: resolving unit clauses until none is left.

use vstd::prelude::*;
use crate::assignment::{Assignment, Valuation};
use crate::formula::{Formula, Lit, CNF};
use crate::semantics::{lemma_submap_transitive, literal_false, literal_true};
use crate::simplify::{
    lemma_reduce_count, lemma_reduce_drops, lemma_reduce_undecided, literal_count, reduce,
    simplified, simplify, undecided,
};

verus! {

/// Clause `i` is the first clause of `f` that holds exactly one literal.
pub open spec fn first_unit_at(f: Formula, i: int) -> bool {
    &&& 0 <= i < f.len()
    &&& f[i].len() == 1
    &&& forall|k: int| 0 <= k < i ==> (#[trigger] f[k]).len() != 1
}

/// The literal of the first unit clause, if the formula has a unit clause.
pub open spec fn first_unit(f: Formula) -> Option<Lit> {
    if exists|i: int| first_unit_at(f, i) {
        Some(f[choose|i: int| first_unit_at(f, i)][0])
    } else {
        None
    }
}

/// How unit propagation ends: with the formula that is left, or with no
/// formula after a conflict, and in both cases with the valuation built up
/// to that point.
pub struct Propagated {
    pub formula: Option<Formula>,
    pub valuation: Valuation,
}

/// Unit propagation from formula `f` and valuation `m`.
///
/// While there is a unit clause, the first one is resolved: its literal must
/// not be false under the valuation, the valuation is extended so that the
/// literal is true, and the formula is simplified under the extended
/// valuation. A literal that is already false, or a simplification that
/// leaves an empty clause, ends propagation with a conflict.
pub open spec fn propagate(f: Formula, m: Valuation) -> Propagated
    decreases f.len(),
    via propagate_decreases
{
    match first_unit(f) {
        None => Propagated { formula: Some(f), valuation: m },
        Some(unit) => {
            if literal_false(unit, m) {
                Propagated { formula: None, valuation: m }
            } else {
                let forced = m.insert(unit.name, !unit.negated);
                match simplified(f, forced) {
                    None => Propagated { formula: None, valuation: forced },
                    Some(rest) => propagate(rest, forced),
                }
            }
        },
    }
}

/// Resolving a unit clause removes at least that clause from the formula.
pub proof fn lemma_unit_step_shrinks(f: Formula, m: Valuation)
    requires
        first_unit(f) is Some,
    ensures
        ({
            let unit = first_unit(f).unwrap();
            reduce(f, m.insert(unit.name, !unit.negated)).len() < f.len()
        }),
{
    let i = choose|i: int| first_unit_at(f, i);
    let unit = f[i][0];
    let forced = m.insert(unit.name, !unit.negated);
    assert(literal_true(f[i][0], forced));
    lemma_reduce_drops(f, forced, i);
}

#[via_fn]
proof fn propagate_decreases(f: Formula, m: Valuation) {
    if first_unit(f) is Some {
        lemma_unit_step_shrinks(f, m);
    }
}

/// The position of the first unit clause, if there is one.
fn find_unit(cnf: &CNF) -> (found: Option<usize>)
    ensures
        match found {
            Some(i) => first_unit_at(cnf.deep_view(), i as int),
            None => first_unit(cnf.deep_view()) is None,
        },
{
    let ghost f = cnf.deep_view();
    let mut i: usize = 0;
    while i < cnf.len()
        invariant
            i <= cnf.len(),
            f == cnf.deep_view(),
            forall|k: int| 0 <= k < i ==> (#[trigger] f[k]).len() != 1,
        decreases cnf.len() - i,
    {
        assert(f[i as int] == cnf[i as int].deep_view());
        if cnf[i].len() == 1 {
            return Some(i);
        }
        i += 1;
    }
    None
}

/// Propagates unit clauses to a fixed point.
///
/// Each round resolves the first unit clause: the value that makes its
/// literal true is checked against the binding of its variable, or recorded
/// if there is none, and the whole formula is simplified under the
/// assignment. Returns the formula that is left once no unit clause remains,
/// or `None` at the first conflict. The assignment only gains entries; none
/// is removed or changed.
pub fn unit_propagate(cnf: CNF, assignment: &mut Assignment) -> (rest: Option<CNF>)
    ensures
        rest.deep_view() == propagate(cnf.deep_view(), old(assignment)@).formula,
        final(assignment)@ == propagate(cnf.deep_view(), old(assignment)@).valuation,
        old(assignment)@.submap_of(final(assignment)@),
{
    let ghost goal = propagate(cnf.deep_view(), assignment@);
    proof {
        lemma_propagate_extends(cnf.deep_view(), assignment@);
    }
    let mut current = cnf;
    loop
        invariant
            goal == propagate(cnf.deep_view(), old(assignment)@),
            old(assignment)@.submap_of(goal.valuation),
            propagate(current.deep_view(), assignment@) == goal,
        ensures
            goal == propagate(cnf.deep_view(), old(assignment)@),
            old(assignment)@.submap_of(goal.valuation),
            goal == (Propagated { formula: Some(current.deep_view()), valuation: assignment@ }),
        decreases current.len(),
    {
        let ghost f = current.deep_view();
        let ghost m = assignment@;
        let i = match find_unit(&current) {
            Some(i) => i,
            None => {
                break ;
            },
        };
        proof {
            let k = choose|k: int| first_unit_at(f, k);
            assert(k == i) by {
                if k < i {
                    assert(f[k].len() != 1);
                } else if i < k {
                    assert(f[i as int].len() != 1);
                }
            }
            assert(f[i as int] == current[i as int].deep_view());
            assert(f[i as int][0] == current[i as int][0]@);
            lemma_unit_step_shrinks(f, m);
        }
        let value = !current[i][0].negated;
        match assignment.get(current[i][0].name.as_str()) {
            Some(existing) => {
                if existing != value {
                    return None;
                }
                assert(m.insert(f[i as int][0].name, value) =~= m);
            },
            None => {
                assignment.insert(current[i][0].name.clone(), value);
            },
        }
        match simplify(current, assignment) {
            Some(next) => {
                current = next;
            },
            None => {
                return None;
            },
        }
    }
    Some(current)
}

/// Propagation never adds a literal to the formula.
pub proof fn lemma_propagate_count(f: Formula, m: Valuation)
    ensures
        propagate(f, m).formula matches Some(rest) ==> literal_count(rest) <= literal_count(f),
    decreases f.len(),
{
    if let Some(unit) = first_unit(f) {
        if !literal_false(unit, m) {
            let forced = m.insert(unit.name, !unit.negated);
            if let Some(rest) = simplified(f, forced) {
                lemma_unit_step_shrinks(f, m);
                lemma_reduce_count(f, forced);
                lemma_propagate_count(rest, forced);
            }
        }
    }
}

/// Propagation only adds entries to the valuation.
pub proof fn lemma_propagate_extends(f: Formula, m: Valuation)
    ensures
        m.submap_of(propagate(f, m).valuation),
    decreases f.len(),
{
    if let Some(unit) = first_unit(f) {
        if !literal_false(unit, m) {
            let forced = m.insert(unit.name, !unit.negated);
            assert(m.submap_of(forced));
            if let Some(rest) = simplified(f, forced) {
                lemma_unit_step_shrinks(f, m);
                lemma_propagate_extends(rest, forced);
                lemma_submap_transitive(m, forced, propagate(rest, forced).valuation);
            }
        }
    }
}

/// Propagation from a formula with no decided literal ends with a formula
/// with no decided literal.
pub proof fn lemma_propagate_undecided(f: Formula, m: Valuation)
    requires
        undecided(f, m),
    ensures
        propagate(f, m).formula matches Some(rest) ==> undecided(rest, propagate(f, m).valuation),
    decreases f.len(),
{
    if let Some(unit) = first_unit(f) {
        if !literal_false(unit, m) {
            let forced = m.insert(unit.name, !unit.negated);
            if let Some(rest) = simplified(f, forced) {
                lemma_unit_step_shrinks(f, m);
                lemma_reduce_undecided(f, forced);
                lemma_propagate_undecided(rest, forced);
            }
        }
    }
}

} // verus!
