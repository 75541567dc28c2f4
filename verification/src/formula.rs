//! Literals, clauses and formulas, together with their mathematical models.

use vstd::prelude::*;

verus! {

/// A propositional variable, or its negation when `negated` is set.
#[derive(Debug)]
pub struct Literal {
    pub name: String,
    pub negated: bool,
}

/// A disjunction of literals. The empty clause is a contradiction.
pub type Clause = Vec<Literal>;

/// A conjunction of clauses. The empty formula is trivially true.
pub type CNF = Vec<Clause>;

/// The mathematical value of a [`Literal`]: the variable's name as a sequence
/// of characters, and the polarity flag.
pub struct Lit {
    pub name: Seq<char>,
    pub negated: bool,
}

/// The mathematical value of a [`CNF`].
pub type Formula = Seq<Seq<Lit>>;

impl View for Literal {
    type V = Lit;

    open spec fn view(&self) -> Lit {
        Lit { name: self.name@, negated: self.negated }
    }
}

impl DeepView for Literal {
    type V = Lit;

    open spec fn deep_view(&self) -> Lit {
        self@
    }
}

impl Clone for Literal {
    fn clone(&self) -> (copy: Self)
        ensures
            copy@ == self@,
    {
        Literal { name: self.name.clone(), negated: self.negated }
    }
}

impl Literal {
    /// Builds a literal over the variable `name`.
    pub fn new(name: &str, negated: bool) -> (literal: Self)
        ensures
            literal@ == (Lit { name: name@, negated }),
    {
        Literal { name: name.to_owned(), negated }
    }
}

/// Copies a clause literal by literal.
pub fn clone_clause(clause: &Clause) -> (copy: Clause)
    ensures
        copy.deep_view() == clause.deep_view(),
{
    let mut copy: Clause = Vec::new();
    let mut i: usize = 0;
    while i < clause.len()
        invariant
            i <= clause.len(),
            copy.len() == i,
            forall|k: int| 0 <= k < i ==> copy[k]@ == clause[k]@,
        decreases clause.len() - i,
    {
        copy.push(clause[i].clone());
        i += 1;
    }
    assert(copy.deep_view() =~= clause.deep_view());
    copy
}

/// Copies a formula clause by clause.
pub fn clone_cnf(cnf: &CNF) -> (copy: CNF)
    ensures
        copy.deep_view() == cnf.deep_view(),
{
    let mut copy: CNF = Vec::new();
    let mut i: usize = 0;
    while i < cnf.len()
        invariant
            i <= cnf.len(),
            copy.len() == i,
            forall|k: int| 0 <= k < i ==> copy[k].deep_view() == cnf[k].deep_view(),
        decreases cnf.len() - i,
    {
        copy.push(clone_clause(&cnf[i]));
        i += 1;
    }
    assert(copy.deep_view() =~= cnf.deep_view());
    copy
}

} // verus!
