//! Decision procedure for ground equality logic with uninterpreted
//! functions (EUF): given a conjunction of equalities and disequalities
//! over first-order terms, congruence closure decides satisfiability.

pub mod closure;
pub mod graph;
pub mod registry;
pub mod uf;
pub mod solver;
pub mod term;

pub use solver::Solver;
pub use term::Kind;
pub use term::Relation;
pub use term::SubTerms;
pub use term::Term;
