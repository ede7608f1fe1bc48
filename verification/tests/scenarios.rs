//! End-to-end scenarios: parse, simplify (forward mode, signing on), and
//! compare the signature against the recorded value for that input.
use babysub::context::{Config, SATContext};
use babysub::parser::parse_cnf;
use babysub::signature::compute_signature;
use babysub::subsume::simplify;

fn test_config() -> Config {
    Config {
        input_path: String::from("<stdin>"),
        output_path: String::from("<stdout>"),
        verbosity: 0,
        backward_mode: false,
        sign: true,
    }
}

fn split_lines(text: &str) -> Vec<Vec<u8>> {
    text.lines().map(|l| l.as_bytes().to_vec()).collect()
}

fn run_pipeline(text: &str) -> (SATContext, u64) {
    let mut ctx = SATContext::new(test_config());
    let lines = split_lines(text);
    parse_cnf(&lines, &mut ctx).expect("parse failed");
    simplify(&mut ctx);
    let sig = compute_signature(&ctx);
    (ctx, sig)
}

#[test]
fn test_empty() {
    let (ctx, sig) = run_pipeline("p cnf 0 0\n");
    assert_eq!(ctx.formula.clauses.len(), 0);
    assert_eq!(sig, 0);
}

#[test]
fn test_binbin1() {
    let (ctx, sig) = run_pipeline("p cnf 2 2\n1 2 0\n1 2 0\n");
    assert_eq!(ctx.formula.clauses.len(), 1);
    assert_eq!(ctx.formula.clauses[0].literals, vec![1, 2]);
    assert_eq!(sig, 13730316899549720340);
}

#[test]
fn test_binbin2() {
    let (ctx, sig) = run_pipeline("p cnf 2 2\n1 2 0\n2 1 0\n");
    assert_eq!(ctx.formula.clauses.len(), 1);
    assert_eq!(sig, 13730316899549720340);
}

#[test]
fn test_inconsistent1() {
    let (ctx, sig) = run_pipeline("p cnf 1 2\n1 0\n-1 0\n");
    assert_eq!(ctx.formula.clauses.len(), 2);
    assert_eq!(sig, 6302962180752638144);
}

#[test]
fn test_inconsistent2() {
    let (ctx, sig) = run_pipeline("p cnf 0 1\n0\n");
    assert_eq!(ctx.formula.clauses.len(), 1);
    assert!(ctx.formula.clauses[0].literals.is_empty());
    assert_eq!(sig, 71876167);
}

#[test]
fn test_trivial1() {
    let (ctx, sig) = run_pipeline("p cnf 1 1\n1 -1 0\n");
    assert_eq!(ctx.formula.clauses.len(), 0);
    assert_eq!(sig, 0);
}

#[test]
fn test_trivial2() {
    let (ctx, sig) = run_pipeline("p cnf 2 2\n1 -1 0\n1 1 2 0\n");
    assert_eq!(ctx.formula.clauses.len(), 1);
    assert_eq!(ctx.formula.clauses[0].literals, vec![1, 2]);
    assert_eq!(sig, 13730316899549720340);
}
