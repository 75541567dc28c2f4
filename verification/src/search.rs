//! The search driver: propagate, then branch on the first undecided variable.

use vstd::prelude::*;
use crate::assignment::{Assignment, Valuation};
use crate::correctness::{settled_grows, solve_complete, solve_grows, solve_sound};
use crate::formula::{clone_cnf, Formula, Lit, Literal, CNF};
use crate::propagate::{lemma_propagate_count, propagate, unit_propagate};
use crate::semantics::{mentions, satisfiable_from, satisfies};
use crate::simplify::{
    any_clause_empty, has_empty_clause, lemma_reduce_count_shrinks, literal_count, reduce,
    simplified, simplify,
};

verus! {

/// Literal `j` of clause `i` is over a variable that `m` does not decide.
pub open spec fn unassigned_at(f: Formula, m: Valuation, i: int, j: int) -> bool {
    0 <= i < f.len() && 0 <= j < f[i].len() && !m.contains_key(f[i][j].name)
}

/// Literal `j` of clause `i` is the first one, scanning the clauses in order
/// and each clause from its first literal, over a variable that `m` does
/// not decide.
pub open spec fn first_unassigned_at(f: Formula, m: Valuation, i: int, j: int) -> bool {
    &&& unassigned_at(f, m, i, j)
    &&& forall|p: int, q: int| #[trigger] unassigned_at(f, m, p, q) ==> i < p || (i == p && j <= q)
}

/// The first literal in scan order over an undecided variable, if any.
pub open spec fn first_unassigned(f: Formula, m: Valuation) -> Option<Lit> {
    if exists|i: int, j: int| first_unassigned_at(f, m, i, j) {
        let (i, j) = choose|i: int, j: int| first_unassigned_at(f, m, i, j);
        Some(f[i][j])
    } else {
        None
    }
}

/// The outcome of the search from formula `f` and valuation `m`: the
/// satisfying valuation that the search reaches first, or `None` when the
/// search is exhausted.
///
/// The formula is reduced under `m` and unit clauses are propagated. A
/// conflict ends the search at this node. If no clause is left, the valuation
/// reached is the answer. Otherwise the search branches on the variable of
/// the first undecided literal, first with `true`, then with `false`.
pub open spec fn solve(f: Formula, m: Valuation) -> Option<Valuation>
    decreases literal_count(reduce(f, m)),
    via solve_decreases
{
    match simplified(f, m) {
        None => None,
        Some(reduced) => {
            let after = propagate(reduced, m);
            match after.formula {
                None => None,
                Some(rest) => {
                    if rest.len() == 0 {
                        Some(after.valuation)
                    } else if has_empty_clause(rest) {
                        None
                    } else {
                        match first_unassigned(rest, after.valuation) {
                            None => None,
                            Some(l) => {
                                match solve(rest, after.valuation.insert(l.name, true)) {
                                    Some(model) => Some(model),
                                    None => solve(rest, after.valuation.insert(l.name, false)),
                                }
                            },
                        }
                    }
                },
            }
        },
    }
}

/// The valuation that the search from `f` and `m` reaches at its first node,
/// before it branches: `m` itself if reducing `f` fails, else what unit
/// propagation built.
pub open spec fn settled(f: Formula, m: Valuation) -> Valuation {
    match simplified(f, m) {
        None => m,
        Some(reduced) => propagate(reduced, m).valuation,
    }
}

/// Deciding the variable of the first undecided literal leaves fewer
/// literals to deal with than the node started from.
pub proof fn lemma_branch_decreases(f: Formula, m: Valuation, value: bool)
    requires
        simplified(f, m) is Some,
        propagate(reduce(f, m), m).formula is Some,
        first_unassigned(
            propagate(reduce(f, m), m).formula.unwrap(),
            propagate(reduce(f, m), m).valuation,
        ) is Some,
    ensures
        ({
            let after = propagate(reduce(f, m), m);
            let rest = after.formula.unwrap();
            let l = first_unassigned(rest, after.valuation).unwrap();
            literal_count(reduce(rest, after.valuation.insert(l.name, value))) < literal_count(
                reduce(f, m),
            )
        }),
{
    let after = propagate(reduce(f, m), m);
    let rest = after.formula.unwrap();
    let (i, j) = choose|i: int, j: int| first_unassigned_at(rest, after.valuation, i, j);
    assert(first_unassigned_at(rest, after.valuation, i, j));
    let l = rest[i][j];
    lemma_propagate_count(reduce(f, m), m);
    lemma_reduce_count_shrinks(rest, after.valuation.insert(l.name, value), i, j);
}

#[via_fn]
proof fn solve_decreases(f: Formula, m: Valuation) {
    if simplified(f, m) is Some {
        let after = propagate(reduce(f, m), m);
        if after.formula is Some {
            if first_unassigned(after.formula.unwrap(), after.valuation) is Some {
                lemma_branch_decreases(f, m, true);
                lemma_branch_decreases(f, m, false);
            }
        }
    }
}

/// Picks the literal to branch on: the first literal, scanning the clauses
/// in order and each clause from its first literal, whose variable the
/// assignment does not bind.
pub fn pick_literal(cnf: &CNF, assignment: &Assignment) -> (picked: Option<Literal>)
    ensures
        picked.deep_view() == first_unassigned(cnf.deep_view(), assignment@),
        picked is None <==> forall|i: int, j: int|
            !unassigned_at(cnf.deep_view(), assignment@, i, j),
{
    let ghost f = cnf.deep_view();
    let ghost m = assignment@;
    let mut i: usize = 0;
    while i < cnf.len()
        invariant
            i <= cnf.len(),
            f == cnf.deep_view(),
            m == assignment@,
            forall|p: int, q: int| 0 <= p < i ==> !unassigned_at(f, m, p, q),
        decreases cnf.len() - i,
    {
        assert(f[i as int] == cnf[i as int].deep_view());
        let clause = &cnf[i];
        let mut j: usize = 0;
        while j < clause.len()
            invariant
                i < cnf.len(),
                j <= clause.len(),
                f == cnf.deep_view(),
                m == assignment@,
                f[i as int] == clause.deep_view(),
                forall|p: int, q: int| 0 <= p < i ==> !unassigned_at(f, m, p, q),
                forall|q: int| 0 <= q < j ==> !unassigned_at(f, m, i as int, q),
            decreases clause.len() - j,
        {
            assert(f[i as int][j as int] == clause[j as int]@);
            if !assignment.contains_key(clause[j].name.as_str()) {
                proof {
                    assert(first_unassigned_at(f, m, i as int, j as int));
                    let (a, b) = choose|a: int, b: int| first_unassigned_at(f, m, a, b);
                    assert(first_unassigned_at(f, m, a, b));
                    assert(unassigned_at(f, m, a, b));
                    assert(unassigned_at(f, m, i as int, j as int));
                }
                return Some(clause[j].clone());
            }
            j += 1;
        }
        i += 1;
    }
    proof {
        if exists|a: int, b: int| first_unassigned_at(f, m, a, b) {
            let (a, b) = choose|a: int, b: int| first_unassigned_at(f, m, a, b);
            assert(unassigned_at(f, m, a, b));
        }
    }
    None
}

/// Decides whether the formula can be satisfied by extending the assignment.
///
/// Returns the first satisfying assignment that the search reaches, trying
/// `true` before `false` at every branch, or `None` when there is none.
/// The assignment handed in gains the entries that unit propagation forces
/// at the first node; the entries chosen by branching go to copies and show
/// up in the result only.
pub fn dpll(cnf: CNF, assignment: &mut Assignment) -> (model: Option<Assignment>)
    ensures
        model.deep_view() == solve(cnf.deep_view(), old(assignment)@),
        model is Some <==> satisfiable_from(cnf.deep_view(), old(assignment)@),
        model matches Some(found) ==> satisfies(found@, cnf.deep_view()) && old(
            assignment,
        )@.submap_of(found@),
        model matches Some(found) ==> forall|name: Seq<char>| #[trigger]
            found@.contains_key(name) ==> old(assignment)@.contains_key(name) || mentions(
                cnf.deep_view(),
                name,
            ),
        final(assignment)@ == settled(cnf.deep_view(), old(assignment)@),
        old(assignment)@.submap_of(final(assignment)@),
    decreases literal_count(reduce(cnf.deep_view(), old(assignment)@)),
{
    let ghost f = cnf.deep_view();
    let ghost m = assignment@;
    proof {
        solve_sound(f, m);
        solve_complete(f, m);
        solve_grows(f, m);
        settled_grows(f, m);
    }
    let reduced = match simplify(cnf, assignment) {
        Some(reduced) => reduced,
        None => {
            return None;
        },
    };
    let rest = match unit_propagate(reduced, assignment) {
        Some(rest) => rest,
        None => {
            return None;
        },
    };
    if rest.len() == 0 {
        return Some(assignment.clone());
    }
    if any_clause_empty(&rest) {
        return None;
    }
    let literal = match pick_literal(&rest, assignment) {
        Some(literal) => literal,
        None => {
            return None;
        },
    };
    proof {
        lemma_branch_decreases(f, m, true);
        lemma_branch_decreases(f, m, false);
    }
    let mut with_true = assignment.clone();
    with_true.insert(literal.name.clone(), true);
    if let Some(model) = dpll(clone_cnf(&rest), &mut with_true) {
        return Some(model);
    }
    let mut with_false = assignment.clone();
    with_false.insert(literal.name.clone(), false);
    dpll(rest, &mut with_false)
}

} // verus!
