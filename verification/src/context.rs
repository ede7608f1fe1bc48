//! The processing context: configuration, the formula under simplification,
//! and the statistics counters.
use vstd::prelude::*;

use crate::formula::CNFFormula;

verus! {

pub struct Config {
    pub input_path: String,
    pub output_path: String,
    pub verbosity: i32,
    pub backward_mode: bool,
    pub sign: bool,
}

pub struct Stats {
    pub checked: usize,
    pub parsed: usize,
    pub subsumed: usize,
}

pub struct SATContext {
    pub config: Config,
    pub formula: CNFFormula,
    pub stats: Stats,
}

impl SATContext {
    pub fn new(config: Config) -> (r: SATContext)
        ensures
            r.formula.wf(),
            r.formula.variables == 0,
            r.formula.added_clauses == 0,
            r.formula.clauses@.len() == 0,
            !r.formula.empty_clause_exists,
            r.formula.marks@.len() == 0,
            r.formula.matrix.slots() == 0,
            r.stats.checked == 0,
            r.stats.parsed == 0,
            r.stats.subsumed == 0,
            r.config == config,
    {
        SATContext { config, formula: CNFFormula::new(), stats: Stats { checked: 0, parsed: 0, subsumed: 0 } }
    }
}

pub fn setup_context(config: Config) -> (r: SATContext)
    ensures
        r.formula.wf(),
        r.formula.variables == 0,
        r.formula.added_clauses == 0,
        r.formula.clauses@.len() == 0,
        !r.formula.empty_clause_exists,
        r.formula.marks@.len() == 0,
        r.formula.matrix.slots() == 0,
        r.stats.checked == 0,
        r.stats.parsed == 0,
        r.stats.subsumed == 0,
        r.config == config,
{
    SATContext::new(config)
}

} // verus!
