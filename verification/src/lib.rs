//! A decision procedure for propositional formulas in conjunctive normal form.
//!
//! The solver is plain DPLL. At every node of the search it reduces the
//! formula under the assignment built so far, propagates unit clauses to a
//! fixed point, and then branches on the first undecided variable, trying
//! `true` before `false`. Each branch works on its own copy of the
//! assignment, so a failed branch leaves nothing behind.
//!
//! Every function is specified over mathematical models: a formula is a
//! sequence of sequences of [`formula::Lit`], an assignment is a map from
//! names to truth values. The modules are:
//!
//! - [`formula`]: literals, clauses, formulas and their models;
//! - [`assignment`]: partial truth assignments;
//! - [`semantics`]: when a valuation satisfies a formula;
//! - [`simplify`]: reducing a formula under an assignment;
//! - [`propagate`]: unit propagation;
//! - [`search`]: the choice of the branching literal and the search itself;
//! - [`correctness`]: the theorems about the search;
//! - [`parse`]: reading a formula from text;
//! - [`text`]: strings as sequences of characters.

pub mod assignment;
pub mod correctness;
pub mod formula;
pub mod parse;
pub mod propagate;
pub mod search;
pub mod semantics;
pub mod simplify;
pub mod text;

pub use assignment::Assignment;
pub use formula::{Clause, Literal, CNF};
pub use parse::parse2;
pub use propagate::unit_propagate;
pub use search::{dpll, pick_literal};
pub use simplify::simplify;
