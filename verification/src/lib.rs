//! A clause-subsumption preprocessor for propositional formulae in DIMACS
//! CNF form: it removes every clause whose literal set is a superset of
//! another clause's literal set, and collapses a formula that contains an
//! empty clause to that single clause.
pub mod context;
pub mod formula;
pub mod lits;
pub mod marks;
pub mod matrix;
pub mod parser;
pub mod signature;
pub mod subsume;
pub mod writer;
