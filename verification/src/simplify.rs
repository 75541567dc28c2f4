//! Simplification: reducing a formula under a partial assignment.

use vstd::prelude::*;
use crate::assignment::{Assignment, Valuation};
use crate::formula::{Clause, Formula, Lit, Literal, CNF};
use crate::semantics::{
    clause_true, lemma_literal_false_monotone, lemma_literal_true_monotone, literal_false,
    literal_true, satisfies,
};

verus! {

/// The clause without the literals that `m` makes false.
pub open spec fn prune(c: Seq<Lit>, m: Valuation) -> Seq<Lit> {
    c.filter(|l: Lit| !literal_false(l, m))
}

/// The formula without the clauses that `m` already makes true, each of the
/// others without the literals that `m` makes false. Order is kept.
pub open spec fn reduce(f: Formula, m: Valuation) -> Formula {
    f.filter(|c: Seq<Lit>| !clause_true(c, m)).map_values(|c: Seq<Lit>| prune(c, m))
}

/// Some clause of the formula has no literal.
pub open spec fn has_empty_clause(f: Formula) -> bool {
    exists|i: int| 0 <= i < f.len() && (#[trigger] f[i]).len() == 0
}

/// The result of simplification: the reduced formula, unless reducing left
/// some clause empty.
pub open spec fn simplified(f: Formula, m: Valuation) -> Option<Formula> {
    if has_empty_clause(reduce(f, m)) {
        None
    } else {
        Some(reduce(f, m))
    }
}

/// No literal of the formula is decided by `m`.
pub open spec fn undecided(f: Formula, m: Valuation) -> bool {
    forall|i: int, j: int|
        0 <= i < f.len() && 0 <= j < f[i].len() ==> !m.contains_key((#[trigger] f[i][j]).name)
}

/// The clause `c` is the pruned form of a clause of `f` that `m` does not
/// make true.
pub open spec fn survivor(f: Formula, m: Valuation, c: Seq<Lit>) -> bool {
    exists|i: int| 0 <= i < f.len() && !clause_true(#[trigger] f[i], m) && c == prune(f[i], m)
}

/// The number of literal occurrences in the formula.
pub open spec fn literal_count(f: Formula) -> nat
    decreases f.len(),
{
    if f.len() == 0 {
        0
    } else {
        literal_count(f.drop_last()) + f.last().len()
    }
}

/// The truth value that the assignment gives the literal, if it decides it.
pub fn literal_value(literal: &Literal, assignment: &Assignment) -> (value: Option<bool>)
    ensures
        value == (if literal_true(literal@, assignment@) {
            Some(true)
        } else if literal_false(literal@, assignment@) {
            Some(false)
        } else {
            None
        }),
{
    match assignment.get(literal.name.as_str()) {
        Some(bound) => Some(bound != literal.negated),
        None => None,
    }
}

/// Whether the assignment makes some literal of the clause true.
pub fn is_clause_true(clause: &Clause, assignment: &Assignment) -> (found: bool)
    ensures
        found == clause_true(clause.deep_view(), assignment@),
{
    let ghost c = clause.deep_view();
    let mut j: usize = 0;
    while j < clause.len()
        invariant
            j <= clause.len(),
            c == clause.deep_view(),
            forall|h: int| 0 <= h < j ==> !literal_true(#[trigger] c[h], assignment@),
        decreases clause.len() - j,
    {
        assert(c[j as int] == clause[j as int]@);
        if let Some(true) = literal_value(&clause[j], assignment) {
            return true;
        }
        j += 1;
    }
    false
}

/// The clause without the literals that the assignment makes false.
pub fn prune_clause(clause: &Clause, assignment: &Assignment) -> (pruned: Clause)
    ensures
        pruned.deep_view() == prune(clause.deep_view(), assignment@),
{
    let ghost c = clause.deep_view();
    let mut pruned: Clause = Vec::new();
    let mut j: usize = 0;
    proof {
        lemma_prune_members(c.take(0), assignment@);
        assert(pruned.deep_view() =~= prune(c.take(0), assignment@));
    }
    while j < clause.len()
        invariant
            j <= clause.len(),
            c == clause.deep_view(),
            pruned.deep_view() == prune(c.take(j as int), assignment@),
        decreases clause.len() - j,
    {
        let ghost before = pruned.deep_view();
        proof {
            assert(c[j as int] == clause[j as int]@);
            assert(c.take(j + 1).drop_last() =~= c.take(j as int));
            lemma_prune_step(c.take(j + 1), assignment@);
        }
        match literal_value(&clause[j], assignment) {
            Some(false) => {},
            _ => {
                pruned.push(clause[j].clone());
                assert(pruned.deep_view() =~= before.push(c[j as int]));
            },
        }
        j += 1;
    }
    assert(c.take(clause.len() as int) =~= c);
    pruned
}

/// Whether some clause of the formula has no literal.
pub fn any_clause_empty(cnf: &CNF) -> (found: bool)
    ensures
        found == has_empty_clause(cnf.deep_view()),
{
    let ghost f = cnf.deep_view();
    let mut i: usize = 0;
    while i < cnf.len()
        invariant
            i <= cnf.len(),
            f == cnf.deep_view(),
            forall|k: int| 0 <= k < i ==> (#[trigger] f[k]).len() != 0,
        decreases cnf.len() - i,
    {
        assert(f[i as int] == cnf[i as int].deep_view());
        if cnf[i].len() == 0 {
            return true;
        }
        i += 1;
    }
    false
}

/// Reduces the formula under the assignment: clauses that the assignment
/// makes true are dropped, and literals that it makes false are removed from
/// the clauses that stay. Fails when that leaves some clause empty.
pub fn simplify(cnf: CNF, assignment: &Assignment) -> (reduced: Option<CNF>)
    ensures
        reduced.deep_view() == simplified(cnf.deep_view(), assignment@),
        reduced matches Some(kept) ==> undecided(kept.deep_view(), assignment@),
{
    let ghost f = cnf.deep_view();
    proof {
        lemma_reduce_undecided(f, assignment@);
    }
    let mut kept: CNF = Vec::new();
    let mut i: usize = 0;
    proof {
        lemma_reduce_members(f.take(0), assignment@);
        assert(kept.deep_view() =~= reduce(f.take(0), assignment@));
    }
    while i < cnf.len()
        invariant
            i <= cnf.len(),
            f == cnf.deep_view(),
            kept.deep_view() == reduce(f.take(i as int), assignment@),
        decreases cnf.len() - i,
    {
        let ghost before = kept.deep_view();
        proof {
            assert(f[i as int] == cnf[i as int].deep_view());
            assert(f.take(i + 1).drop_last() =~= f.take(i as int));
            lemma_reduce_step(f.take(i + 1), assignment@);
        }
        if !is_clause_true(&cnf[i], assignment) {
            let pruned = prune_clause(&cnf[i], assignment);
            kept.push(pruned);
            assert(kept.deep_view() =~= before.push(prune(f[i as int], assignment@)));
        }
        i += 1;
    }
    assert(f.take(cnf.len() as int) =~= f);
    if any_clause_empty(&kept) {
        None
    } else {
        Some(kept)
    }
}

/// Simplifying twice under the same valuation gives what simplifying once
/// gives.
pub proof fn simplify_idempotent(f: Formula, m: Valuation)
    ensures
        simplified(f, m) matches Some(once) ==> simplified(once, m) == Some(once),
{
    lemma_reduce_undecided(f, m);
    lemma_reduce_identity(reduce(f, m), m);
}

/// Pruning a clause handles its last literal and prunes the rest.
pub proof fn lemma_prune_step(c: Seq<Lit>, m: Valuation)
    requires
        c.len() > 0,
    ensures
        prune(c, m) == if literal_false(c.last(), m) {
            prune(c.drop_last(), m)
        } else {
            prune(c.drop_last(), m).push(c.last())
        },
{
    reveal(Seq::filter);
}

/// Reducing a formula handles its last clause and reduces the rest.
pub proof fn lemma_reduce_step(f: Formula, m: Valuation)
    requires
        f.len() > 0,
    ensures
        reduce(f, m) == if clause_true(f.last(), m) {
            reduce(f.drop_last(), m)
        } else {
            reduce(f.drop_last(), m).push(prune(f.last(), m))
        },
{
    reveal(Seq::filter);
    let keep = |c: Seq<Lit>| !clause_true(c, m);
    let cut = |c: Seq<Lit>| prune(c, m);
    if !clause_true(f.last(), m) {
        assert(f.filter(keep).map_values(cut) =~= f.drop_last().filter(keep).map_values(cut).push(
            prune(f.last(), m),
        ));
    }
}

/// What pruning keeps: exactly the literals of the clause that `m` does not
/// make false.
pub proof fn lemma_prune_members(c: Seq<Lit>, m: Valuation)
    ensures
        prune(c, m).len() <= c.len(),
        forall|j: int|
            0 <= j < prune(c, m).len() ==> !literal_false(#[trigger] prune(c, m)[j], m)
                && c.contains(prune(c, m)[j]),
        forall|i: int|
            0 <= i < c.len() && !literal_false(c[i], m) ==> prune(c, m).contains(#[trigger] c[i]),
    decreases c.len(),
{
    c.lemma_filter_len(|l: Lit| !literal_false(l, m));
    if c.len() > 0 {
        let front = c.drop_last();
        lemma_prune_step(c, m);
        lemma_prune_members(front, m);
        let p = prune(c, m);
        let q = prune(front, m);
        assert forall|j: int| 0 <= j < p.len() implies !literal_false(#[trigger] p[j], m)
            && c.contains(p[j]) by {
            if j < q.len() {
                assert(p[j] == q[j]);
                assert(front.contains(q[j]));
                let i = choose|i: int| 0 <= i < front.len() && front[i] == q[j];
                assert(c[i] == p[j]);
            } else {
                assert(p[j] == c[c.len() - 1]);
            }
        }
        assert forall|i: int| 0 <= i < c.len() && !literal_false(c[i], m) implies p.contains(
            #[trigger] c[i],
        ) by {
            if i < front.len() {
                assert(front[i] == c[i]);
                assert(q.contains(front[i]));
                let j = choose|j: int| 0 <= j < q.len() && q[j] == front[i];
                assert(p[j] == c[i]);
            } else {
                assert(p[p.len() - 1] == c[i]);
            }
        }
    }
}

/// Pruning removes something whenever `m` makes a literal of the clause false.
pub proof fn lemma_prune_shrinks(c: Seq<Lit>, m: Valuation, i: int)
    requires
        0 <= i < c.len(),
        literal_false(c[i], m),
    ensures
        prune(c, m).len() < c.len(),
    decreases c.len(),
{
    lemma_prune_step(c, m);
    lemma_prune_members(c.drop_last(), m);
    if i < c.len() - 1 {
        lemma_prune_shrinks(c.drop_last(), m, i);
    }
}

/// Pruning changes nothing when `m` makes no literal of the clause false.
pub proof fn lemma_prune_identity(c: Seq<Lit>, m: Valuation)
    requires
        forall|i: int| 0 <= i < c.len() ==> !literal_false(#[trigger] c[i], m),
    ensures
        prune(c, m) == c,
    decreases c.len(),
{
    if c.len() > 0 {
        lemma_prune_step(c, m);
        let front = c.drop_last();
        assert forall|i: int| 0 <= i < front.len() implies !literal_false(
            #[trigger] front[i],
            m,
        ) by {
            assert(front[i] == c[i]);
        }
        lemma_prune_identity(front, m);
        assert(front.push(c.last()) =~= c);
    } else {
        lemma_prune_members(c, m);
        assert(prune(c, m) =~= c);
    }
}

/// What reducing keeps: exactly the pruned forms of the clauses that `m` does
/// not make true.
pub proof fn lemma_reduce_members(f: Formula, m: Valuation)
    ensures
        reduce(f, m).len() <= f.len(),
        forall|k: int| 0 <= k < reduce(f, m).len() ==> survivor(f, m, #[trigger] reduce(f, m)[k]),
        forall|i: int|
            0 <= i < f.len() && !clause_true(#[trigger] f[i], m) ==> reduce(f, m).contains(
                prune(f[i], m),
            ),
    decreases f.len(),
{
    f.lemma_filter_len(|c: Seq<Lit>| !clause_true(c, m));
    if f.len() > 0 {
        let front = f.drop_last();
        lemma_reduce_step(f, m);
        lemma_reduce_members(front, m);
        let r = reduce(f, m);
        let q = reduce(front, m);
        assert forall|k: int| 0 <= k < r.len() implies survivor(f, m, #[trigger] r[k]) by {
            if k < q.len() {
                assert(r[k] == q[k]);
                assert(survivor(front, m, q[k]));
                let i = choose|i: int|
                    0 <= i < front.len() && !clause_true(#[trigger] front[i], m) && q[k] == prune(
                        front[i],
                        m,
                    );
                assert(f[i] == front[i]);
            } else {
                assert(r[k] == prune(f[f.len() - 1], m));
            }
        }
        assert forall|i: int|
            0 <= i < f.len() && !clause_true(#[trigger] f[i], m) implies r.contains(
            prune(f[i], m),
        ) by {
            if i < front.len() {
                assert(front[i] == f[i]);
                assert(q.contains(prune(front[i], m)));
                let k = choose|k: int| 0 <= k < q.len() && q[k] == prune(front[i], m);
                assert(r[k] == prune(f[i], m));
            } else {
                assert(r[r.len() - 1] == prune(f[i], m));
            }
        }
    }
}

/// Reducing drops at least one clause whenever `m` makes a clause true.
pub proof fn lemma_reduce_drops(f: Formula, m: Valuation, i: int)
    requires
        0 <= i < f.len(),
        clause_true(f[i], m),
    ensures
        reduce(f, m).len() < f.len(),
    decreases f.len(),
{
    lemma_reduce_step(f, m);
    lemma_reduce_members(f.drop_last(), m);
    if i < f.len() - 1 {
        lemma_reduce_drops(f.drop_last(), m, i);
    }
}

/// Reducing never adds a literal.
pub proof fn lemma_reduce_count(f: Formula, m: Valuation)
    ensures
        literal_count(reduce(f, m)) <= literal_count(f),
    decreases f.len(),
{
    if f.len() > 0 {
        lemma_reduce_step(f, m);
        lemma_reduce_count(f.drop_last(), m);
        lemma_prune_members(f.last(), m);
        let q = reduce(f.drop_last(), m);
        assert(q.push(prune(f.last(), m)).drop_last() =~= q);
    } else {
        lemma_reduce_members(f, m);
    }
}

/// Reducing removes at least one literal whenever `m` decides a literal of
/// the formula.
pub proof fn lemma_reduce_count_shrinks(f: Formula, m: Valuation, i: int, j: int)
    requires
        0 <= i < f.len(),
        0 <= j < f[i].len(),
        m.contains_key(f[i][j].name),
    ensures
        literal_count(reduce(f, m)) < literal_count(f),
    decreases f.len(),
{
    let front = f.drop_last();
    let last = f.last();
    let q = reduce(front, m);
    lemma_reduce_step(f, m);
    lemma_prune_members(last, m);
    assert(q.push(prune(last, m)).drop_last() =~= q);
    if i < f.len() - 1 {
        assert(front[i][j] == f[i][j]);
        lemma_reduce_count_shrinks(front, m, i, j);
    } else {
        lemma_reduce_count(front, m);
        if !clause_true(last, m) {
            assert(!literal_true(last[j], m));
            lemma_prune_shrinks(last, m, j);
        }
    }
}

/// A reduced formula holds no literal that `m` decides.
pub proof fn lemma_reduce_undecided(f: Formula, m: Valuation)
    ensures
        undecided(reduce(f, m), m),
{
    let r = reduce(f, m);
    lemma_reduce_members(f, m);
    assert forall|k: int, j: int| 0 <= k < r.len() && 0 <= j < r[k].len() implies !m.contains_key(
        (#[trigger] r[k][j]).name,
    ) by {
        assert(survivor(f, m, r[k]));
        let i = choose|i: int|
            0 <= i < f.len() && !clause_true(#[trigger] f[i], m) && r[k] == prune(f[i], m);
        lemma_prune_members(f[i], m);
        let l = prune(f[i], m)[j];
        assert(!literal_false(l, m));
        assert(f[i].contains(l));
        let h = choose|h: int| 0 <= h < f[i].len() && f[i][h] == l;
        assert(!literal_true(f[i][h], m));
    }
}

/// Reducing changes nothing when `m` decides no literal of the formula.
pub proof fn lemma_reduce_identity(f: Formula, m: Valuation)
    requires
        undecided(f, m),
    ensures
        reduce(f, m) == f,
    decreases f.len(),
{
    if f.len() > 0 {
        lemma_reduce_step(f, m);
        let front = f.drop_last();
        let last = f.last();
        assert(undecided(front, m)) by {
            assert forall|i: int, j: int|
                0 <= i < front.len() && 0 <= j < front[i].len() implies !m.contains_key(
                (#[trigger] front[i][j]).name,
            ) by {
                assert(front[i][j] == f[i][j]);
            }
        }
        lemma_reduce_identity(front, m);
        assert(!clause_true(last, m)) by {
            if clause_true(last, m) {
                let j = choose|j: int| 0 <= j < last.len() && literal_true(#[trigger] last[j], m);
                assert(!m.contains_key(f[f.len() - 1][j].name));
            }
        }
        assert forall|j: int| 0 <= j < last.len() implies !literal_false(#[trigger] last[j], m) by {
            assert(!m.contains_key(f[f.len() - 1][j].name));
        }
        lemma_prune_identity(last, m);
        assert(front.push(last) =~= f);
    } else {
        lemma_reduce_members(f, m);
        assert(reduce(f, m) =~= f);
    }
}

/// A valuation that extends `m` satisfies a formula exactly when it satisfies
/// the formula reduced under `m`.
pub proof fn lemma_reduce_keeps_models(f: Formula, m: Valuation, total: Valuation)
    requires
        m.submap_of(total),
    ensures
        satisfies(total, f) <==> satisfies(total, reduce(f, m)),
{
    let r = reduce(f, m);
    lemma_reduce_members(f, m);
    if satisfies(total, f) {
        assert forall|k: int| 0 <= k < r.len() implies clause_true(#[trigger] r[k], total) by {
            assert(survivor(f, m, r[k]));
            let i = choose|i: int|
                0 <= i < f.len() && !clause_true(#[trigger] f[i], m) && r[k] == prune(f[i], m);
            assert(clause_true(f[i], total));
            let j = choose|j: int| 0 <= j < f[i].len() && literal_true(#[trigger] f[i][j], total);
            if literal_false(f[i][j], m) {
                lemma_literal_false_monotone(f[i][j], m, total);
            }
            lemma_prune_members(f[i], m);
            assert(r[k].contains(f[i][j]));
            let h = choose|h: int| 0 <= h < r[k].len() && r[k][h] == f[i][j];
            assert(literal_true(r[k][h], total));
        }
    }
    if satisfies(total, r) {
        assert forall|i: int| 0 <= i < f.len() implies clause_true(#[trigger] f[i], total) by {
            if clause_true(f[i], m) {
                let j = choose|j: int| 0 <= j < f[i].len() && literal_true(#[trigger] f[i][j], m);
                lemma_literal_true_monotone(f[i][j], m, total);
            } else {
                assert(r.contains(prune(f[i], m)));
                let k = choose|k: int| 0 <= k < r.len() && r[k] == prune(f[i], m);
                assert(clause_true(r[k], total));
                let h = choose|h: int|
                    0 <= h < r[k].len() && literal_true(#[trigger] r[k][h], total);
                lemma_prune_members(f[i], m);
                assert(f[i].contains(r[k][h]));
                let j = choose|j: int| 0 <= j < f[i].len() && f[i][j] == r[k][h];
                assert(literal_true(f[i][j], total));
            }
        }
    }
}

} // verus!
