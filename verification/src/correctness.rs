//! What the search guarantees: its answers satisfy the formula, it misses no
//! satisfiable formula, and it binds no variable from outside the formula.

use vstd::prelude::*;
use crate::assignment::Valuation;
use crate::formula::Formula;
use crate::propagate::{
    first_unit, first_unit_at, lemma_propagate_extends, lemma_propagate_undecided,
    lemma_unit_step_shrinks, propagate,
};
use crate::search::{
    first_unassigned, first_unassigned_at, lemma_branch_decreases, settled, solve, unassigned_at,
};
use crate::semantics::{
    clause_true, lemma_empty_clause_unsatisfiable, lemma_insert_within,
    lemma_literal_false_monotone, lemma_satisfies_monotone, lemma_submap_transitive,
    literal_false, literal_true, mentions, satisfiable_from, satisfies,
};
use crate::simplify::{
    has_empty_clause, lemma_prune_members, lemma_reduce_keeps_models, lemma_reduce_members,
    lemma_reduce_undecided, literal_count, prune, reduce, simplified, survivor,
};

verus! {

/// Every answer of the search satisfies the formula it was asked about, and
/// keeps every binding of the valuation it started from.
pub proof fn solve_sound(f: Formula, m: Valuation)
    ensures
        solve(f, m) matches Some(model) ==> satisfies(model, f) && m.submap_of(model),
    decreases literal_count(reduce(f, m)),
{
    if let Some(model) = solve(f, m) {
        let reduced = reduce(f, m);
        let after = propagate(reduced, m);
        let rest = after.formula.unwrap();
        lemma_propagate_extends(reduced, m);
        if rest.len() == 0 {
            assert(satisfies(model, rest));
        } else {
            let l = first_unassigned(rest, after.valuation).unwrap();
            let (i, j) = choose|i: int, j: int| first_unassigned_at(rest, after.valuation, i, j);
            assert(unassigned_at(rest, after.valuation, i, j));
            let value = solve(rest, after.valuation.insert(l.name, true)) is Some;
            let next = after.valuation.insert(l.name, value);
            lemma_branch_decreases(f, m, value);
            solve_sound(rest, next);
            assert(after.valuation.submap_of(next));
            lemma_submap_transitive(after.valuation, next, model);
        }
        lemma_propagate_keeps_models(reduced, m, model);
        lemma_submap_transitive(m, after.valuation, model);
        lemma_reduce_keeps_models(f, m, model);
    }
}

/// The search finds an answer whenever some valuation that extends the one
/// it starts from satisfies the formula.
pub proof fn solve_finds(f: Formula, m: Valuation, total: Valuation)
    requires
        m.submap_of(total),
        satisfies(total, f),
    ensures
        solve(f, m) is Some,
    decreases literal_count(reduce(f, m)),
{
    let reduced = reduce(f, m);
    lemma_reduce_keeps_models(f, m, total);
    if has_empty_clause(reduced) {
        let k = choose|k: int| 0 <= k < reduced.len() && (#[trigger] reduced[k]).len() == 0;
        lemma_empty_clause_unsatisfiable(reduced, total, k);
    }
    let after = propagate(reduced, m);
    lemma_propagate_forced(reduced, m, total);
    let rest = after.formula.unwrap();
    lemma_propagate_keeps_models(reduced, m, total);
    if rest.len() > 0 {
        if has_empty_clause(rest) {
            let k = choose|k: int| 0 <= k < rest.len() && (#[trigger] rest[k]).len() == 0;
            lemma_empty_clause_unsatisfiable(rest, total, k);
        }
        lemma_reduce_undecided(f, m);
        lemma_propagate_undecided(reduced, m);
        assert(first_unassigned_at(rest, after.valuation, 0, 0)) by {
            assert(rest[0].len() != 0);
            assert(!after.valuation.contains_key(rest[0][0].name));
        }
        let l = first_unassigned(rest, after.valuation).unwrap();
        lemma_branch_decreases(f, m, true);
        lemma_branch_decreases(f, m, false);
        if total.contains_key(l.name) {
            lemma_insert_within(after.valuation, total, l.name);
            solve_finds(rest, after.valuation.insert(l.name, total[l.name]), total);
        } else {
            let wider = total.insert(l.name, true);
            assert(total.submap_of(wider));
            lemma_satisfies_monotone(rest, total, wider);
            lemma_submap_transitive(after.valuation, total, wider);
            lemma_insert_within(after.valuation, wider, l.name);
            solve_finds(rest, after.valuation.insert(l.name, true), wider);
        }
    }
}

/// The search answers exactly when the formula can be satisfied by extending
/// the valuation it starts from; it reports failure for every other formula
/// and for no satisfiable one.
pub proof fn solve_complete(f: Formula, m: Valuation)
    ensures
        solve(f, m) is Some <==> satisfiable_from(f, m),
{
    if let Some(model) = solve(f, m) {
        solve_sound(f, m);
        assert(m.submap_of(model) && satisfies(model, f));
    }
    if satisfiable_from(f, m) {
        let total = choose|total: Valuation| m.submap_of(total) && #[trigger] satisfies(total, f);
        solve_finds(f, m, total);
    }
}

/// Started from the empty valuation, the search fails exactly on the
/// formulas that no valuation satisfies.
pub proof fn solve_decides(f: Formula)
    ensures
        solve(f, Map::empty()) is None <==> forall|total: Valuation| !satisfies(total, f),
{
    let start = Map::<Seq<char>, bool>::empty();
    solve_complete(f, start);
    if satisfiable_from(f, start) {
        let total = choose|total: Valuation|
            start.submap_of(total) && #[trigger] satisfies(total, f);
        assert(satisfies(total, f));
    }
    if exists|total: Valuation| satisfies(total, f) {
        let total = choose|total: Valuation| satisfies(total, f);
        assert(start.submap_of(total));
        assert(satisfies(total, f));
    }
}

/// What the search leaves in the assignment it was handed extends what was
/// there, and every variable it added occurs in the formula.
pub proof fn settled_grows(f: Formula, m: Valuation)
    ensures
        m.submap_of(settled(f, m)),
        forall|name: Seq<char>| #[trigger]
            settled(f, m).contains_key(name) ==> m.contains_key(name) || mentions(f, name),
{
    if simplified(f, m) is Some {
        lemma_propagate_extends(reduce(f, m), m);
        assert forall|name: Seq<char>| #[trigger]
            settled(f, m).contains_key(name) implies m.contains_key(name) || mentions(f, name) by {
            lemma_propagate_binds(reduce(f, m), m, name);
            if mentions(reduce(f, m), name) {
                lemma_reduce_mentions(f, m, name);
            }
        }
    }
}

/// An answer of the search keeps every binding it started from and adds
/// bindings only for variables that occur in the formula: started from the
/// empty valuation, it binds no variable from outside the formula.
pub proof fn solve_grows(f: Formula, m: Valuation)
    ensures
        solve(f, m) matches Some(model) ==> m.submap_of(model) && forall|name: Seq<char>| #[trigger]
            model.contains_key(name) ==> m.contains_key(name) || mentions(f, name),
{
    if let Some(model) = solve(f, m) {
        solve_sound(f, m);
        assert forall|name: Seq<char>| #[trigger] model.contains_key(name) implies m.contains_key(
            name,
        ) || mentions(f, name) by {
            lemma_solve_binds(f, m, name);
        }
    }
}

/// The outcome of the search is a function of the formula and the starting
/// valuation: two runs on the same input end alike, with the same answer
/// and the same bindings left in the assignment that was handed in.
pub proof fn solve_deterministic(
    f: Formula,
    m: Valuation,
    first: (Option<Valuation>, Valuation),
    second: (Option<Valuation>, Valuation),
)
    requires
        first.0 == solve(f, m),
        first.1 == settled(f, m),
        second.0 == solve(f, m),
        second.1 == settled(f, m),
    ensures
        first == second,
{
}

/// Under a valuation that extends what propagation built, the formula that
/// propagation started from and the one it ended with are satisfied alike.
pub proof fn lemma_propagate_keeps_models(f: Formula, m: Valuation, total: Valuation)
    requires
        propagate(f, m).formula is Some,
        propagate(f, m).valuation.submap_of(total),
    ensures
        satisfies(total, f) <==> satisfies(total, propagate(f, m).formula.unwrap()),
    decreases f.len(),
{
    if let Some(unit) = first_unit(f) {
        let forced = m.insert(unit.name, !unit.negated);
        let rest = reduce(f, forced);
        lemma_unit_step_shrinks(f, m);
        lemma_propagate_extends(rest, forced);
        lemma_submap_transitive(forced, propagate(rest, forced).valuation, total);
        lemma_reduce_keeps_models(f, forced, total);
        lemma_propagate_keeps_models(rest, forced, total);
    }
}

/// Propagation from a valuation that some satisfying valuation extends meets
/// no conflict, and what it builds stays within that satisfying valuation.
pub proof fn lemma_propagate_forced(f: Formula, m: Valuation, total: Valuation)
    requires
        m.submap_of(total),
        satisfies(total, f),
    ensures
        propagate(f, m).formula is Some,
        propagate(f, m).valuation.submap_of(total),
    decreases f.len(),
{
    if let Some(unit) = first_unit(f) {
        let i = choose|i: int| first_unit_at(f, i);
        assert(clause_true(f[i], total));
        let j = choose|j: int| 0 <= j < f[i].len() && literal_true(#[trigger] f[i][j], total);
        assert(literal_true(unit, total));
        if literal_false(unit, m) {
            lemma_literal_false_monotone(unit, m, total);
        }
        let forced = m.insert(unit.name, !unit.negated);
        lemma_insert_within(m, total, unit.name);
        let rest = reduce(f, forced);
        lemma_reduce_keeps_models(f, forced, total);
        if has_empty_clause(rest) {
            let k = choose|k: int| 0 <= k < rest.len() && (#[trigger] rest[k]).len() == 0;
            lemma_empty_clause_unsatisfiable(rest, total, k);
        }
        lemma_unit_step_shrinks(f, m);
        lemma_propagate_forced(rest, forced, total);
    }
}

/// A variable that occurs in the reduced formula occurs in the formula.
pub proof fn lemma_reduce_mentions(f: Formula, m: Valuation, name: Seq<char>)
    requires
        mentions(reduce(f, m), name),
    ensures
        mentions(f, name),
{
    let r = reduce(f, m);
    let (k, h) = choose|k: int, h: int|
        0 <= k < r.len() && 0 <= h < r[k].len() && (#[trigger] r[k][h]).name == name;
    lemma_reduce_members(f, m);
    assert(survivor(f, m, r[k]));
    let i = choose|i: int|
        0 <= i < f.len() && !clause_true(#[trigger] f[i], m) && r[k] == prune(f[i], m);
    lemma_prune_members(f[i], m);
    assert(f[i].contains(r[k][h]));
    let j = choose|j: int| 0 <= j < f[i].len() && f[i][j] == r[k][h];
    assert(f[i][j].name == name);
}

/// A variable that occurs in the formula that propagation ends with occurs
/// in the formula it started from.
pub proof fn lemma_propagate_mentions(f: Formula, m: Valuation, name: Seq<char>)
    requires
        propagate(f, m).formula is Some,
        mentions(propagate(f, m).formula.unwrap(), name),
    ensures
        mentions(f, name),
    decreases f.len(),
{
    if let Some(unit) = first_unit(f) {
        let forced = m.insert(unit.name, !unit.negated);
        lemma_unit_step_shrinks(f, m);
        lemma_propagate_mentions(reduce(f, forced), forced, name);
        lemma_reduce_mentions(f, forced, name);
    }
}

/// Propagation binds only variables of the formula it works on.
pub proof fn lemma_propagate_binds(f: Formula, m: Valuation, name: Seq<char>)
    requires
        propagate(f, m).valuation.contains_key(name),
    ensures
        m.contains_key(name) || mentions(f, name),
    decreases f.len(),
{
    if let Some(unit) = first_unit(f) {
        if !literal_false(unit, m) {
            let i = choose|i: int| first_unit_at(f, i);
            assert(f[i][0].name == unit.name);
            let forced = m.insert(unit.name, !unit.negated);
            if simplified(f, forced) is Some {
                lemma_unit_step_shrinks(f, m);
                lemma_propagate_binds(reduce(f, forced), forced, name);
                if mentions(reduce(f, forced), name) {
                    lemma_reduce_mentions(f, forced, name);
                }
            }
        }
    }
}

/// An answer of the search binds `name` only if the starting valuation did
/// or the variable occurs in the formula.
pub proof fn lemma_solve_binds(f: Formula, m: Valuation, name: Seq<char>)
    requires
        solve(f, m) is Some,
        solve(f, m).unwrap().contains_key(name),
    ensures
        m.contains_key(name) || mentions(f, name),
    decreases literal_count(reduce(f, m)),
{
    let reduced = reduce(f, m);
    let after = propagate(reduced, m);
    let rest = after.formula.unwrap();
    if rest.len() > 0 {
        let l = first_unassigned(rest, after.valuation).unwrap();
        let (i, j) = choose|i: int, j: int| first_unassigned_at(rest, after.valuation, i, j);
        assert(unassigned_at(rest, after.valuation, i, j));
        assert(rest[i][j].name == l.name);
        let value = solve(rest, after.valuation.insert(l.name, true)) is Some;
        lemma_branch_decreases(f, m, value);
        lemma_solve_binds(rest, after.valuation.insert(l.name, value), name);
        if mentions(rest, name) {
            lemma_propagate_mentions(reduced, m, name);
        }
    }
    if after.valuation.contains_key(name) {
        lemma_propagate_binds(reduced, m, name);
    }
    if mentions(reduced, name) {
        lemma_reduce_mentions(f, m, name);
    }
}

} // verus!
