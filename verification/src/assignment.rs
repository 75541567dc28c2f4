//! Partial truth assignments: finite maps from variable names to truth values.

use vstd::prelude::*;
use crate::text::same_text;

verus! {

/// The mathematical value of an [`Assignment`].
pub type Valuation = Map<Seq<char>, bool>;

/// A partial truth assignment, built up one variable at a time.
///
/// No name is bound twice, so a variable never carries two values.
#[derive(Debug)]
pub struct Assignment {
    entries: Vec<(String, bool)>,
}

/// Entry `i` of `entries` binds the variable `name`.
spec fn binds(entries: Seq<(String, bool)>, i: int, name: Seq<char>) -> bool {
    0 <= i < entries.len() && entries[i].0@ == name
}

/// No two entries bind the same variable.
spec fn distinct(entries: Seq<(String, bool)>) -> bool {
    forall|i: int, j: int|
        0 <= i < j < entries.len() ==> (#[trigger] entries[i]).0@ != (#[trigger] entries[j]).0@
}

/// The variables bound by `entries`.
spec fn bound_names(entries: Seq<(String, bool)>) -> Set<Seq<char>> {
    Set::new(|name: Seq<char>| exists|i: int| binds(entries, i, name))
}

/// The map that `entries` stands for.
spec fn as_map(entries: Seq<(String, bool)>) -> Valuation {
    Map::new(
        |name: Seq<char>| exists|i: int| binds(entries, i, name),
        |name: Seq<char>| entries[choose|i: int| binds(entries, i, name)].1,
    )
}

impl View for Assignment {
    type V = Map<Seq<char>, bool>;

    closed spec fn view(&self) -> Map<Seq<char>, bool> {
        as_map(self.entries@)
    }
}

impl DeepView for Assignment {
    type V = Map<Seq<char>, bool>;

    open spec fn deep_view(&self) -> Map<Seq<char>, bool> {
        self@
    }
}

impl Assignment {
    #[verifier::type_invariant]
    spec fn well_formed(&self) -> bool {
        distinct(self.entries@)
    }

    /// The assignment that binds no variable.
    pub fn new() -> (empty: Self)
        ensures
            empty@ == Map::<Seq<char>, bool>::empty(),
    {
        let empty = Assignment { entries: Vec::new() };
        assert(empty@ =~= Map::<Seq<char>, bool>::empty());
        empty
    }

    /// A copy of the stored entries.
    fn copy_entries(&self) -> (copy: Vec<(String, bool)>)
        ensures
            copy@ == self.entries@,
    {
        let mut copy: Vec<(String, bool)> = Vec::new();
        let mut i: usize = 0;
        while i < self.entries.len()
            invariant
                i <= self.entries.len(),
                copy.len() == i,
                forall|k: int| 0 <= k < i ==> copy[k] == self.entries[k],
            decreases self.entries.len() - i,
        {
            copy.push((self.entries[i].0.clone(), self.entries[i].1));
            i += 1;
        }
        assert(copy@ =~= self.entries@);
        copy
    }

    /// The position of the entry that binds `name`, if there is one.
    fn position(&self, name: &str) -> (found: Option<usize>)
        ensures
            match found {
                Some(i) => binds(self.entries@, i as int, name@),
                None => !self@.contains_key(name@),
            },
    {
        let mut i: usize = 0;
        while i < self.entries.len()
            invariant
                i <= self.entries.len(),
                forall|k: int| 0 <= k < i ==> !binds(self.entries@, k, name@),
            decreases self.entries.len() - i,
        {
            if same_text(self.entries[i].0.as_str(), name) {
                return Some(i);
            }
            i += 1;
        }
        None
    }

    /// The value bound to `name`, if any.
    pub fn get(&self, name: &str) -> (value: Option<bool>)
        ensures
            value == (if self@.contains_key(name@) {
                Some(self@[name@])
            } else {
                None
            }),
    {
        match self.position(name) {
            Some(i) => {
                proof {
                    use_type_invariant(self);
                    lemma_lookup(self.entries@, i as int);
                }
                Some(self.entries[i].1)
            },
            None => None,
        }
    }

    /// Whether `name` is bound.
    pub fn contains_key(&self, name: &str) -> (bound: bool)
        ensures
            bound == self@.contains_key(name@),
    {
        match self.position(name) {
            Some(i) => {
                proof {
                    use_type_invariant(self);
                    lemma_lookup(self.entries@, i as int);
                }
                true
            },
            None => false,
        }
    }

    /// Binds `name` to `value`, replacing an earlier binding of the same
    /// name, and returns the value that was bound before.
    pub fn insert(&mut self, name: String, value: bool) -> (previous: Option<bool>)
        ensures
            final(self)@ == old(self)@.insert(name@, value),
            previous == (if old(self)@.contains_key(name@) {
                Some(old(self)@[name@])
            } else {
                None
            }),
    {
        proof {
            use_type_invariant(&*self);
        }
        let ghost before = self.entries@;
        let found = self.position(name.as_str());
        // The entries are moved out while they change, so that the stored
        // list is well formed at every step.
        let mut entries: Vec<(String, bool)> = Vec::new();
        std::mem::swap(&mut self.entries, &mut entries);
        let previous = match found {
            Some(i) => {
                let previous = entries[i].1;
                entries.set(i, (name, value));
                proof {
                    lemma_lookup(before, i as int);
                    lemma_rebind(before, entries@, i as int);
                }
                Some(previous)
            },
            None => {
                entries.push((name, value));
                proof {
                    lemma_bind(before, entries@);
                }
                None
            },
        };
        std::mem::swap(&mut self.entries, &mut entries);
        previous
    }

    /// The bindings, one pair for each bound variable.
    pub fn entries(&self) -> (pairs: Vec<(String, bool)>)
        ensures
            self@.dom().finite(),
            pairs.len() == self@.len(),
            forall|i: int|
                0 <= i < pairs.len() ==> self@.contains_key((#[trigger] pairs[i]).0@)
                    && self@[pairs[i].0@] == pairs[i].1,
            forall|i: int, j: int|
                0 <= i < j < pairs.len() ==> (#[trigger] pairs[i]).0@ != (#[trigger] pairs[j]).0@,
    {
        proof {
            use_type_invariant(self);
            lemma_domain_size(self.entries@);
        }
        let pairs = self.copy_entries();
        proof {
            assert forall|k: int| 0 <= k < pairs.len() implies self@.contains_key(
                (#[trigger] pairs[k]).0@,
            ) && self@[pairs[k].0@] == pairs[k].1 by {
                lemma_lookup(self.entries@, k);
            }
        }
        pairs
    }

    /// The number of bound variables.
    pub fn len(&self) -> (count: usize)
        ensures
            self@.dom().finite(),
            count == self@.len(),
    {
        proof {
            use_type_invariant(self);
            lemma_domain_size(self.entries@);
        }
        self.entries.len()
    }

    /// Whether no variable is bound.
    pub fn is_empty(&self) -> (empty: bool)
        ensures
            empty == (self@ == Map::<Seq<char>, bool>::empty()),
    {
        proof {
            use_type_invariant(self);
            lemma_domain_size(self.entries@);
            if self.entries@.len() == 0 {
                assert(self@ =~= Map::<Seq<char>, bool>::empty());
            } else {
                assert(binds(self.entries@, 0, self.entries@[0].0@));
                assert(self@.contains_key(self.entries@[0].0@));
            }
        }
        self.entries.len() == 0
    }
}

impl Clone for Assignment {
    fn clone(&self) -> (copy: Self)
        ensures
            copy@ == self@,
    {
        proof {
            use_type_invariant(self);
        }
        Assignment { entries: self.copy_entries() }
    }
}

/// Each entry's variable is bound to that entry's value.
proof fn lemma_lookup(entries: Seq<(String, bool)>, i: int)
    requires
        distinct(entries),
        0 <= i < entries.len(),
    ensures
        as_map(entries).contains_key(entries[i].0@),
        as_map(entries)[entries[i].0@] == entries[i].1,
{
    let name = entries[i].0@;
    assert(binds(entries, i, name));
    let j = choose|j: int| binds(entries, j, name);
    assert(binds(entries, j, name));
    if i < j {
        assert(entries[i].0@ != entries[j].0@);
    } else if j < i {
        assert(entries[j].0@ != entries[i].0@);
    }
}

/// There are as many bound variables as there are entries.
proof fn lemma_domain_size(entries: Seq<(String, bool)>)
    requires
        distinct(entries),
    ensures
        as_map(entries).dom() == bound_names(entries),
        bound_names(entries).finite(),
        bound_names(entries).len() == entries.len(),
    decreases entries.len(),
{
    assert(as_map(entries).dom() =~= bound_names(entries));
    if entries.len() == 0 {
        assert(bound_names(entries) =~= Set::empty());
    } else {
        let front = entries.drop_last();
        let last = entries.last().0@;
        assert(distinct(front)) by {
            assert forall|i: int, j: int| 0 <= i < j < front.len() implies (#[trigger] front[i]).0@
                != (#[trigger] front[j]).0@ by {
                assert(entries[i].0@ != entries[j].0@);
            }
        }
        lemma_domain_size(front);
        assert(!bound_names(front).contains(last)) by {
            if bound_names(front).contains(last) {
                let i = choose|i: int| binds(front, i, last);
                assert(binds(front, i, last));
                assert(entries[i].0@ != entries[entries.len() - 1].0@);
            }
        }
        assert(bound_names(entries) =~= bound_names(front).insert(last)) by {
            assert forall|name: Seq<char>| bound_names(entries).contains(name) implies bound_names(
                front,
            ).insert(last).contains(name) by {
                let i = choose|i: int| binds(entries, i, name);
                assert(binds(entries, i, name));
                if i < front.len() {
                    assert(binds(front, i, name));
                }
            }
            assert forall|name: Seq<char>| bound_names(front).insert(last).contains(
                name,
            ) implies bound_names(entries).contains(name) by {
                if name == last {
                    assert(binds(entries, entries.len() - 1, name));
                } else {
                    let i = choose|i: int| binds(front, i, name);
                    assert(binds(front, i, name));
                    assert(binds(entries, i, name));
                }
            }
        }
    }
}

/// Replacing the value of entry `i` rebinds its variable and leaves the
/// other bindings alone.
proof fn lemma_rebind(before: Seq<(String, bool)>, after: Seq<(String, bool)>, i: int)
    requires
        distinct(before),
        0 <= i < before.len(),
        after.len() == before.len(),
        after[i].0@ == before[i].0@,
        forall|k: int| 0 <= k < before.len() && k != i ==> after[k] == before[k],
    ensures
        distinct(after),
        as_map(after) == as_map(before).insert(after[i].0@, after[i].1),
{
    assert(distinct(after)) by {
        assert forall|a: int, b: int| 0 <= a < b < after.len() implies (#[trigger] after[a]).0@ != (
        #[trigger] after[b]).0@ by {
            assert(before[a].0@ != before[b].0@);
        }
    }
    let expected = as_map(before).insert(after[i].0@, after[i].1);
    assert forall|n: Seq<char>| #[trigger] expected.contains_key(n) implies as_map(
        after,
    ).contains_key(n) by {
        if n == after[i].0@ {
            assert(binds(after, i, n));
        } else {
            let k = choose|k: int| binds(before, k, n);
            assert(binds(before, k, n));
            assert(binds(after, k, n));
        }
    }
    assert forall|n: Seq<char>| #[trigger]
        as_map(after).contains_key(n) implies expected.contains_key(n) && as_map(after)[n]
        == expected[n] by {
        let k = choose|k: int| binds(after, k, n);
        assert(binds(after, k, n));
        lemma_lookup(after, k);
        if k != i {
            assert(binds(before, k, n));
            lemma_lookup(before, k);
            if k < i {
                assert(before[k].0@ != before[i].0@);
            } else {
                assert(before[i].0@ != before[k].0@);
            }
        }
    }
    assert(as_map(after) =~= expected);
}

/// Appending an entry for a variable that was not bound binds it and leaves
/// the other bindings alone.
proof fn lemma_bind(before: Seq<(String, bool)>, after: Seq<(String, bool)>)
    requires
        distinct(before),
        after.len() == before.len() + 1,
        forall|k: int| 0 <= k < before.len() ==> after[k] == before[k],
        forall|k: int| !binds(before, k, after.last().0@),
    ensures
        distinct(after),
        as_map(after) == as_map(before).insert(after.last().0@, after.last().1),
{
    let last = before.len() as int;
    assert(distinct(after)) by {
        assert forall|a: int, b: int| 0 <= a < b < after.len() implies (#[trigger] after[a]).0@ != (
        #[trigger] after[b]).0@ by {
            if b < last {
                assert(before[a].0@ != before[b].0@);
            } else {
                assert(!binds(before, a, after.last().0@));
            }
        }
    }
    let expected = as_map(before).insert(after.last().0@, after.last().1);
    assert forall|n: Seq<char>| #[trigger] expected.contains_key(n) implies as_map(
        after,
    ).contains_key(n) by {
        if n == after.last().0@ {
            assert(binds(after, last, n));
        } else {
            let k = choose|k: int| binds(before, k, n);
            assert(binds(before, k, n));
            assert(binds(after, k, n));
        }
    }
    assert forall|n: Seq<char>| #[trigger]
        as_map(after).contains_key(n) implies expected.contains_key(n) && as_map(after)[n]
        == expected[n] by {
        let k = choose|k: int| binds(after, k, n);
        assert(binds(after, k, n));
        lemma_lookup(after, k);
        if k != last {
            assert(binds(before, k, n));
            lemma_lookup(before, k);
        }
    }
    assert(as_map(after) =~= expected);
}

} // verus!
