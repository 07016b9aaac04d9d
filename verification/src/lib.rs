//! Two-watched-literal unit propagation over a flat clause store.
//!
//! A formula in conjunctive normal form is laid out once, clause after clause, in a single
//! buffer of literals.  Every clause is a span of that buffer whose two end positions hold
//! the literals it currently watches, and every literal owns the list of the clauses that
//! watch its negation.  [`Solver::propagate_once`] computes what follows from one literal
//! that has just become true: the literals that are now forced, or a clause that is now
//! violated.  Deciding, committing forced literals and backtracking are left to the caller.

pub mod clause;
pub mod construct;
pub mod lit;
pub mod propagate;
pub mod solver;
pub mod theorems;

pub use clause::Clause;
pub use lit::MAX_VARS;
pub use propagate::PropagateResult;
pub use solver::Solver;
