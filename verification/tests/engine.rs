//! Behaviour of the parser, the two subsumption passes, the empty-clause
//! shortcut, and the mark discipline, on concrete formulae.
use babysub::context::{Config, SATContext};
use babysub::marks::Marks;
use babysub::parser::{check_trivial_and_process_clause, parse_cnf, ParseError, ParseErrorKind};
use babysub::signature::compute_signature;
use babysub::subsume::simplify;

fn config(backward: bool) -> Config {
    Config {
        input_path: String::from("<stdin>"),
        output_path: String::from("<stdout>"),
        verbosity: 0,
        backward_mode: backward,
        sign: true,
    }
}

fn split_lines(text: &str) -> Vec<Vec<u8>> {
    text.lines().map(|l| l.as_bytes().to_vec()).collect()
}

fn run(text: &str, backward: bool) -> SATContext {
    let mut ctx = SATContext::new(config(backward));
    let lines = split_lines(text);
    parse_cnf(&lines, &mut ctx).expect("parse failed");
    simplify(&mut ctx);
    ctx
}

fn clause_set(ctx: &SATContext) -> Vec<Vec<i32>> {
    let mut out: Vec<Vec<i32>> = ctx
        .formula
        .clauses
        .iter()
        .map(|c| {
            let mut lits = c.literals.clone();
            lits.sort();
            lits
        })
        .collect();
    out.sort();
    out
}

#[test]
fn parse_drops_tautology_keeps_rest() {
    let mut ctx = SATContext::new(config(false));
    let lines = split_lines("p cnf 2 2\n1 -1 2 0\n1 1 2 0\n");
    parse_cnf(&lines, &mut ctx).expect("parse failed");
    // the tautology produced no clause; the duplicate literal was dropped
    assert_eq!(ctx.formula.clauses.len(), 1);
    assert_eq!(ctx.formula.clauses[0].literals, vec![1, 2]);
    assert_eq!(ctx.stats.parsed, 2);
}

#[test]
fn normalization_keeps_first_occurrences() {
    let mut marks = Marks::new();
    marks.init(3);
    let (trivial, processed) = check_trivial_and_process_clause(&mut marks, vec![2, 1, 2, 3, 1]);
    assert!(!trivial);
    assert_eq!(processed, vec![2, 1, 3]);
    // the scratch set is clean again
    assert!(marks.marks.iter().all(|b| !b));
}

#[test]
fn normalization_detects_tautology() {
    let mut marks = Marks::new();
    marks.init(3);
    let (trivial, _) = check_trivial_and_process_clause(&mut marks, vec![2, 3, -2]);
    assert!(trivial);
    assert!(marks.marks.iter().all(|b| !b));
}

#[test]
fn forward_removes_superset_keeps_subset() {
    let ctx = run("p cnf 3 2\n1 2 3 0\n1 2 0\n", false);
    assert_eq!(clause_set(&ctx), vec![vec![1, 2]]);
    assert_eq!(ctx.stats.subsumed, 1);
}

#[test]
fn backward_removes_superset_keeps_subset() {
    let ctx = run("p cnf 3 2\n1 2 3 0\n1 2 0\n", true);
    assert_eq!(clause_set(&ctx), vec![vec![1, 2]]);
    assert_eq!(ctx.stats.subsumed, 1);
}

#[test]
fn unrelated_clauses_all_survive() {
    let fwd = run("p cnf 4 3\n1 2 0\n3 4 0\n-1 -2 0\n", false);
    let bwd = run("p cnf 4 3\n1 2 0\n3 4 0\n-1 -2 0\n", true);
    let expected = vec![vec![-2, -1], vec![1, 2], vec![3, 4]];
    assert_eq!(clause_set(&fwd), expected);
    assert_eq!(clause_set(&bwd), expected);
    assert_eq!(fwd.stats.subsumed, 0);
    assert_eq!(bwd.stats.subsumed, 0);
}

#[test]
fn chain_of_subsumers_leaves_minimum() {
    let text = "p cnf 3 3\n1 0\n1 2 0\n1 2 3 0\n";
    let fwd = run(text, false);
    let bwd = run(text, true);
    assert_eq!(clause_set(&fwd), vec![vec![1]]);
    assert_eq!(clause_set(&bwd), vec![vec![1]]);
    assert_eq!(fwd.stats.subsumed, 2);
    assert_eq!(bwd.stats.subsumed, 2);
}

#[test]
fn forward_output_is_sorted_ascending() {
    let ctx = run("p cnf 4 2\n1 2 3 0\n4 0\n", false);
    assert_eq!(ctx.formula.clauses[0].literals, vec![4]);
    assert_eq!(ctx.formula.clauses[1].literals, vec![1, 2, 3]);
}

#[test]
fn backward_output_is_sorted_descending() {
    let ctx = run("p cnf 4 2\n4 0\n1 2 3 0\n", true);
    assert_eq!(ctx.formula.clauses[0].literals, vec![1, 2, 3]);
    assert_eq!(ctx.formula.clauses[1].literals, vec![4]);
}

#[test]
fn empty_clause_shortcut_counts_subsumed() {
    let ctx = run("p cnf 2 3\n1 2 0\n0\n2 0\n", false);
    assert_eq!(ctx.formula.clauses.len(), 1);
    assert!(ctx.formula.clauses[0].literals.is_empty());
    assert_eq!(ctx.formula.added_clauses, 3);
    // subsumed = (clauses ever added) - 1
    assert_eq!(ctx.stats.subsumed, 2);
}

#[test]
fn marks_are_clear_after_simplify() {
    let ctx = run("p cnf 3 3\n1 2 3 0\n-1 2 0\n2 0\n", false);
    assert!(ctx.formula.marks.marks.iter().all(|b| !b));
    let ctx2 = run("p cnf 3 3\n1 2 3 0\n-1 2 0\n2 0\n", true);
    assert!(ctx2.formula.marks.marks.iter().all(|b| !b));
}

#[test]
fn second_run_is_identity() {
    // simplify the output of a simplification once more: same clause set,
    // same signature
    let ctx = run("p cnf 3 4\n1 2 3 0\n2 3 0\n3 2 0\n-1 -2 0\n", false);
    let sig1 = compute_signature(&ctx);
    let text2 = String::from_utf8(babysub::writer::render_output(&ctx)).unwrap();
    let ctx2 = run(&text2, false);
    let sig2 = compute_signature(&ctx2);
    assert_eq!(clause_set(&ctx), clause_set(&ctx2));
    assert_eq!(sig1, sig2);
}

fn expect_error(text: &str, line: usize, kind: ParseErrorKind) {
    let mut ctx = SATContext::new(config(false));
    let lines = split_lines(text);
    let r = parse_cnf(&lines, &mut ctx);
    assert_eq!(r, Err(ParseError { line, kind }));
}

#[test]
fn error_missing_header() {
    expect_error("1 2 0\n", 1, ParseErrorKind::MissingHeader);
}

#[test]
fn error_invalid_header() {
    expect_error("p cnf 3\n", 1, ParseErrorKind::InvalidHeader);
}

#[test]
fn error_bad_variable_count() {
    expect_error("p cnf x 2\n", 1, ParseErrorKind::BadVariableCount);
}

#[test]
fn error_bad_clause_count() {
    expect_error("p cnf 2 x\n", 1, ParseErrorKind::BadClauseCount);
}

#[test]
fn error_invalid_literal() {
    expect_error("p cnf 2 1\n1 q 0\n", 2, ParseErrorKind::InvalidLiteral);
}

#[test]
fn error_literal_out_of_range() {
    expect_error("p cnf 2 1\n3 0\n", 2, ParseErrorKind::LiteralOutOfRange);
}

#[test]
fn comments_are_skipped_everywhere() {
    let ctx = run("c leading comment\np cnf 2 1\nc inner comment\n1 2 0\n", false);
    assert_eq!(clause_set(&ctx), vec![vec![1, 2]]);
}

#[test]
fn zeros_inside_line_are_separators_only() {
    // every token on a clause line belongs to one clause; `0` terminators
    // are dropped wherever they stand
    let ctx = run("p cnf 2 2\n1 0 2 0\n", false);
    assert_eq!(clause_set(&ctx), vec![vec![1, 2]]);
    assert_eq!(ctx.stats.parsed, 1);
}

#[test]
fn blank_line_after_header_is_empty_clause() {
    let ctx = run("p cnf 2 2\n1 2 0\n\n", false);
    assert!(ctx.formula.empty_clause_exists);
    assert_eq!(ctx.formula.clauses.len(), 1);
    assert!(ctx.formula.clauses[0].literals.is_empty());
}

#[test]
fn second_header_line_is_rejected() {
    // after the header every non-comment line is a clause line, and `p` is
    // no literal
    expect_error("p cnf 2 1\np cnf 3 1\n", 2, ParseErrorKind::InvalidLiteral);
}

#[test]
fn marks_work_per_slot() {
    let mut marks = Marks::new();
    marks.init(2);
    assert!(!marks.is_marked(1));
    marks.mark(1);
    assert!(marks.is_marked(1));
    assert!(!marks.is_marked(-1));
    assert!(!marks.is_marked(2));
    marks.unmark(1);
    assert!(!marks.is_marked(1));
}

#[test]
fn signed_empty_formula_renders_zero_signature() {
    let mut ctx = SATContext::new(config(false));
    let lines = split_lines("p cnf 0 0\n");
    parse_cnf(&lines, &mut ctx).expect("parse failed");
    simplify(&mut ctx);
    let out = babysub::writer::render_output(&ctx);
    assert_eq!(String::from_utf8(out).unwrap(), "p cnf 0 0\nc hash-signature: 0\n");
}

#[test]
fn error_most_negative_literal_rejected() {
    // -2147483648 parses as an i32 but is never an admissible literal
    expect_error(
        "p cnf 3 1\n-2147483648 0\n",
        2,
        ParseErrorKind::LiteralOutOfRange,
    );
}

#[test]
fn error_huge_variable_count_rejected() {
    expect_error(
        "p cnf 18446744073709551616 1\n",
        1,
        ParseErrorKind::BadVariableCount,
    );
}

#[test]
fn error_header_words_must_be_exact() {
    // `p cnfx 3 4` shares the five-byte prefix but is no header
    expect_error("p cnfx 3 4\n", 1, ParseErrorKind::InvalidHeader);
}

#[test]
fn checked_counts_candidates_exactly() {
    // no clauses: nothing is ever examined
    let empty = run("p cnf 0 0\n", false);
    assert_eq!(empty.stats.checked, 0);
    // two unit clauses on opposite polarities: each check scans an empty
    // list, so nothing is examined in either mode
    let units = run("p cnf 1 2\n1 0\n-1 0\n", false);
    assert_eq!(units.stats.checked, 0);
    let units_b = run("p cnf 1 2\n1 0\n-1 0\n", true);
    assert_eq!(units_b.stats.checked, 0);
    // a duplicate clause: the second check examines exactly the one
    // connected copy
    let dup = run("p cnf 2 2\n1 2 0\n1 2 0\n", false);
    assert_eq!(dup.stats.checked, 1);
    // backward: the second clause scans the first via the shared literal
    let dup_b = run("p cnf 2 2\n1 2 0\n1 2 0\n", true);
    assert_eq!(dup_b.stats.checked, 1);
}

#[test]
fn equal_clauses_forward_keeps_the_earlier_copy() {
    // forward: the earlier copy is connected first and subsumes the later
    let ctx = run("p cnf 2 2\n1 2 0\n2 1 0\n", false);
    assert_eq!(ctx.formula.clauses.len(), 1);
    assert_eq!(ctx.formula.clauses[0].literals, vec![1, 2]);
}

#[test]
fn equal_clauses_backward_keeps_the_later_copy() {
    // backward: the later copy subsumes every connected superset, the
    // earlier equal one included
    let ctx = run("p cnf 2 2\n2 1 0\n1 2 0\n", true);
    assert_eq!(ctx.formula.clauses.len(), 1);
    assert_eq!(ctx.formula.clauses[0].literals, vec![1, 2]);
}

#[test]
fn equal_length_clauses_keep_input_order() {
    // the sort is stable: equal-length clauses stay in input order
    let ctx = run("p cnf 1 2\n1 0\n-1 0\n", false);
    assert_eq!(ctx.formula.clauses[0].literals, vec![1]);
    assert_eq!(ctx.formula.clauses[1].literals, vec![-1]);
    let ctx_b = run("p cnf 1 2\n1 0\n-1 0\n", true);
    assert_eq!(ctx_b.formula.clauses[0].literals, vec![1]);
    assert_eq!(ctx_b.formula.clauses[1].literals, vec![-1]);
}
