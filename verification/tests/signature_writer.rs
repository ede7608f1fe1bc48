//! The signature's order invariance and exact values, the slot mapping, and
//! the exact bytes of the rendered output.
use babysub::context::{Config, SATContext};
use babysub::marks::Marks;
use babysub::matrix::Matrix;
use babysub::parser::parse_cnf;
use babysub::signature::compute_signature;
use babysub::subsume::simplify;
use babysub::writer::{lit_to_dec, render_output, u64_to_dec};

fn config(sign: bool) -> Config {
    Config {
        input_path: String::from("<stdin>"),
        output_path: String::from("<stdout>"),
        verbosity: 0,
        backward_mode: false,
        sign,
    }
}

fn split_lines(text: &str) -> Vec<Vec<u8>> {
    text.lines().map(|l| l.as_bytes().to_vec()).collect()
}

fn parse_only(text: &str, sign: bool) -> SATContext {
    let mut ctx = SATContext::new(config(sign));
    let lines = split_lines(text);
    parse_cnf(&lines, &mut ctx).expect("parse failed");
    ctx
}

#[test]
fn signature_ignores_clause_order() {
    let a = parse_only("p cnf 3 3\n1 2 0\n-3 0\n2 3 0\n", true);
    let b = parse_only("p cnf 3 3\n2 3 0\n1 2 0\n-3 0\n", true);
    assert_eq!(compute_signature(&a), compute_signature(&b));
}

#[test]
fn signature_ignores_literal_order() {
    let a = parse_only("p cnf 3 2\n1 2 3 0\n-1 -2 0\n", true);
    let b = parse_only("p cnf 3 2\n3 1 2 0\n-2 -1 0\n", true);
    assert_eq!(compute_signature(&a), compute_signature(&b));
}

#[test]
fn signature_sensitive_to_polarity() {
    let a = parse_only("p cnf 1 1\n1 0\n", true);
    let b = parse_only("p cnf 1 1\n-1 0\n", true);
    assert_ne!(compute_signature(&a), compute_signature(&b));
}

#[test]
fn signature_of_single_empty_clause_is_first_nonce() {
    // one empty clause hashes to (0 + 1) * nonces[0]
    let ctx = parse_only("p cnf 0 1\n0\n", true);
    assert_eq!(compute_signature(&ctx), 71876167);
}

#[test]
fn signature_exact_value_single_unit_clause() {
    // clause [1]: tmp = 2 * n0, rotated, + 1, * n1, exactly once
    let n0: u64 = 71876167;
    let n1: u64 = 708592741;
    let mut tmp = 2u64.wrapping_mul(n0);
    tmp = (tmp << 4) | (tmp >> 60);
    tmp = tmp.wrapping_add(1);
    tmp = tmp.wrapping_mul(n1);
    let ctx = parse_only("p cnf 1 1\n1 0\n", true);
    assert_eq!(compute_signature(&ctx), tmp);
}

#[test]
fn signature_widens_negative_literals_as_u32() {
    // clause [-1] contributes the pattern 0xFFFFFFFF, near 2^32
    let n0: u64 = 71876167;
    let n1: u64 = 708592741;
    let mut tmp = 2u64.wrapping_mul(n0);
    tmp = (tmp << 4) | (tmp >> 60);
    tmp = tmp.wrapping_add(0xFFFF_FFFF);
    tmp = tmp.wrapping_mul(n1);
    let ctx = parse_only("p cnf 1 1\n-1 0\n", true);
    assert_eq!(compute_signature(&ctx), tmp);
}

#[test]
fn slot_mapping_keeps_polarities_adjacent() {
    let marks = Marks::new();
    assert_eq!(marks.map_literal_to_index(-1), 0);
    assert_eq!(marks.map_literal_to_index(1), 1);
    assert_eq!(marks.map_literal_to_index(-2), 2);
    assert_eq!(marks.map_literal_to_index(2), 3);
    let matrix = Matrix::new();
    assert_eq!(matrix.map_literal_to_index(-7), 12);
    assert_eq!(matrix.map_literal_to_index(7), 13);
}

#[test]
fn decimal_rendering_exact() {
    assert_eq!(u64_to_dec(0), b"0".to_vec());
    assert_eq!(u64_to_dec(9), b"9".to_vec());
    assert_eq!(u64_to_dec(10), b"10".to_vec());
    assert_eq!(u64_to_dec(18446744073709551615), b"18446744073709551615".to_vec());
    assert_eq!(lit_to_dec(-42), b"-42".to_vec());
    assert_eq!(lit_to_dec(42), b"42".to_vec());
    assert_eq!(lit_to_dec(i32::MIN + 1), b"-2147483647".to_vec());
}

#[test]
fn rendered_output_unsigned_exact() {
    let mut ctx = parse_only("p cnf 2 2\n1 2 0\n-1 0\n", false);
    simplify(&mut ctx);
    let out = render_output(&ctx);
    assert_eq!(String::from_utf8(out).unwrap(), "p cnf 2 2\n-1 0\n1 2 0\n");
}

#[test]
fn rendered_output_signed_exact() {
    let mut ctx = parse_only("p cnf 2 2\n1 2 0\n1 2 0\n", true);
    simplify(&mut ctx);
    let out = render_output(&ctx);
    assert_eq!(
        String::from_utf8(out).unwrap(),
        "p cnf 2 1\nc hash-signature: 13730316899549720340\n1 2 0\n"
    );
}

#[test]
fn rendered_empty_clause_line() {
    let mut ctx = parse_only("p cnf 0 1\n0\n", false);
    simplify(&mut ctx);
    let out = render_output(&ctx);
    // an empty clause renders as a bare terminator
    assert_eq!(String::from_utf8(out).unwrap(), "p cnf 0 1\n 0\n");
}
