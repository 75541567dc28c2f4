//! What it means for a valuation to satisfy a formula.

use vstd::prelude::*;
use crate::assignment::Valuation;
use crate::formula::{Formula, Lit};

verus! {

/// The literal is decided by `m` and evaluates to true: a plain variable
/// bound to `true`, or a negated one bound to `false`.
pub open spec fn literal_true(l: Lit, m: Valuation) -> bool {
    m.contains_key(l.name) && m[l.name] != l.negated
}

/// The literal is decided by `m` and evaluates to false.
pub open spec fn literal_false(l: Lit, m: Valuation) -> bool {
    m.contains_key(l.name) && m[l.name] == l.negated
}

/// Some literal of the clause is true under `m`.
pub open spec fn clause_true(c: Seq<Lit>, m: Valuation) -> bool {
    exists|j: int| 0 <= j < c.len() && literal_true(#[trigger] c[j], m)
}

/// Every clause of the formula is true under `m`.
pub open spec fn satisfies(m: Valuation, f: Formula) -> bool {
    forall|i: int| 0 <= i < f.len() ==> clause_true(#[trigger] f[i], m)
}

/// Some valuation that agrees with `m` on everything `m` decides satisfies
/// the formula.
pub open spec fn satisfiable_from(f: Formula, m: Valuation) -> bool {
    exists|total: Valuation| m.submap_of(total) && #[trigger] satisfies(total, f)
}

/// The variable `name` occurs in the formula.
pub open spec fn mentions(f: Formula, name: Seq<char>) -> bool {
    exists|i: int, j: int|
        0 <= i < f.len() && 0 <= j < f[i].len() && (#[trigger] f[i][j]).name == name
}

/// Extension of valuations is transitive.
pub proof fn lemma_submap_transitive(a: Valuation, b: Valuation, c: Valuation)
    requires
        a.submap_of(b),
        b.submap_of(c),
    ensures
        a.submap_of(c),
{
    assert forall|k: Seq<char>| #[trigger] a.dom().contains(k) implies c.dom().contains(k) && a[k]
        == c[k] by {
        assert(b.dom().contains(k));
        assert(c.dom().contains(k));
    }
}

/// Binding a variable to the value that a larger valuation gives it stays
/// within the larger valuation.
pub proof fn lemma_insert_within(m: Valuation, total: Valuation, name: Seq<char>)
    requires
        m.submap_of(total),
        total.contains_key(name),
    ensures
        m.insert(name, total[name]).submap_of(total),
{
    let forced = m.insert(name, total[name]);
    assert forall|k: Seq<char>| #[trigger] forced.dom().contains(k) implies #[trigger]
        total.dom().contains(k) && forced[k] == total[k] by {
        if k != name {
            assert(m.dom().contains(k));
        }
    }
}

/// A clause with no literal is true under no valuation, so a formula that
/// holds one is satisfied by none.
pub proof fn lemma_empty_clause_unsatisfiable(f: Formula, total: Valuation, i: int)
    requires
        0 <= i < f.len(),
        f[i].len() == 0,
    ensures
        !satisfies(total, f),
{
    assert(!clause_true(f[i], total));
}

/// A literal that is true under `m` stays true under every valuation that
/// extends `m`.
pub proof fn lemma_literal_true_monotone(l: Lit, m: Valuation, larger: Valuation)
    requires
        m.submap_of(larger),
        literal_true(l, m),
    ensures
        literal_true(l, larger),
{
    assert(m.dom().contains(l.name) && larger.dom().contains(l.name));
}

/// A literal that is false under `m` stays false under every valuation that
/// extends `m`.
pub proof fn lemma_literal_false_monotone(l: Lit, m: Valuation, larger: Valuation)
    requires
        m.submap_of(larger),
        literal_false(l, m),
    ensures
        literal_false(l, larger),
{
    assert(m.dom().contains(l.name) && larger.dom().contains(l.name));
}

/// A formula satisfied by `m` is satisfied by every valuation that extends `m`.
pub proof fn lemma_satisfies_monotone(f: Formula, m: Valuation, larger: Valuation)
    requires
        m.submap_of(larger),
        satisfies(m, f),
    ensures
        satisfies(larger, f),
{
    assert forall|i: int| 0 <= i < f.len() implies clause_true(#[trigger] f[i], larger) by {
        assert(clause_true(f[i], m));
        let j = choose|j: int| 0 <= j < f[i].len() && literal_true(#[trigger] f[i][j], m);
        lemma_literal_true_monotone(f[i][j], m, larger);
    }
}

} // verus!
