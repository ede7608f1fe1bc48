//! The DIMACS parser and normalizer. The caller hands over the input already
//! split into lines (as the raw bytes of each line); everything from
//! tokenization to clause normalization is done and specified here.
use vstd::prelude::*;

use crate::context::SATContext;
use crate::lits::{clause_ok, lit_ok, lits_ok, slot_spec};
use crate::marks::{all_clear, marks_exact, Marks};

verus! {

// ---------------------------------------------------------------------------
// Tokens: maximal runs of non-whitespace bytes.
// ---------------------------------------------------------------------------
/// ASCII whitespace, as the separators of a DIMACS line.
pub open spec fn is_ws(b: u8) -> bool {
    b == 32 || (9 <= b <= 13)
}

/// Length of the leading non-whitespace run.
pub open spec fn tok_len(s: Seq<u8>) -> int
    decreases s.len(),
{
    if s.len() == 0 || is_ws(s[0]) {
        0
    } else {
        1 + tok_len(s.drop_first())
    }
}

/// The whitespace-separated tokens of a line, in order.
pub open spec fn tokens_of(s: Seq<u8>) -> Seq<Seq<u8>>
    decreases s.len(),
    via tokens_of_dec
{
    if s.len() == 0 {
        Seq::empty()
    } else if is_ws(s[0]) {
        tokens_of(s.drop_first())
    } else {
        seq![s.take(tok_len(s))] + tokens_of(s.skip(tok_len(s)))
    }
}

#[via_fn]
proof fn tokens_of_dec(s: Seq<u8>) {
    lemma_tok_len_bounds(s);
}

pub proof fn lemma_tok_len_bounds(s: Seq<u8>)
    ensures
        0 <= tok_len(s) <= s.len(),
        s.len() > 0 && !is_ws(s[0]) ==> tok_len(s) >= 1,
    decreases s.len(),
{
    if s.len() > 0 && !is_ws(s[0]) {
        lemma_tok_len_bounds(s.drop_first());
    }
}

/// The leading token ends at the first whitespace byte (or the end).
pub proof fn lemma_tok_len_at(s: Seq<u8>, k: int)
    requires
        0 <= k <= s.len(),
        forall|m: int| 0 <= m < k ==> !is_ws(#[trigger] s[m]),
        k == s.len() || is_ws(s[k]),
    ensures
        tok_len(s) == k,
    decreases k,
{
    if k == 0 {
    } else {
        assert(!is_ws(s[0]));
        lemma_tok_len_at(s.drop_first(), k - 1);
    }
}

/// Extract the tokens of a line.
pub fn split_tokens(line: &[u8]) -> (r: Vec<Vec<u8>>)
    ensures
        r@.map_values(|t: Vec<u8>| t@) =~= tokens_of(line@),
{
    let mut toks: Vec<Vec<u8>> = Vec::new();
    let n = line.len();
    proof {
        assert(line@.skip(0) =~= line@);
        assert(Seq::<Vec<u8>>::empty().map_values(|t: Vec<u8>| t@) =~= Seq::<Seq<u8>>::empty());
    }
    let mut i: usize = 0;
    while i < n
        invariant
            i <= n,
            n == line@.len(),
            tokens_of(line@) =~= toks@.map_values(|t: Vec<u8>| t@) + tokens_of(line@.skip(i as int)),
        decreases n - i,
    {
        let ghost rest = line@.skip(i as int);
        if is_ws_exec(line[i]) {
            proof {
                assert(rest.drop_first() =~= line@.skip(i + 1));
            }
            i = i + 1;
        } else {
            // collect the token that starts here
            let start = i;
            let mut tok: Vec<u8> = Vec::new();
            let mut j = i;
            while j < n && !is_ws_exec(line[j])
                invariant
                    start <= j <= n,
                    n == line@.len(),
                    forall|m: int| start <= m < j ==> !is_ws(#[trigger] line@[m]),
                    tok@ =~= line@.subrange(start as int, j as int),
                decreases n - j,
            {
                let b = line[j];
                tok.push(b);
                j = j + 1;
            }
            proof {
                lemma_tok_len_at(rest, j - start);
                assert(rest.take(j - start) =~= line@.subrange(start as int, j as int));
                assert(rest.skip(j - start) =~= line@.skip(j as int));
                assert(tokens_of(rest) =~= seq![tok@] + tokens_of(line@.skip(j as int)));
                let f = |t: Vec<u8>| t@;
                assert(toks@.push(tok).map_values(f) =~= toks@.map_values(f).push(tok@));
            }
            toks.push(tok);
            i = j;
        }
    }
    proof {
        assert(line@.skip(n as int) =~= Seq::<u8>::empty());
    }
    toks
}

pub fn is_ws_exec(b: u8) -> (r: bool)
    ensures
        r == is_ws(b),
{
    b == 32 || (9 <= b && b <= 13)
}

// ---------------------------------------------------------------------------
// Integer tokens, as `str::parse` reads them: an optional sign, then one or
// more decimal digits, the whole token in range.
// ---------------------------------------------------------------------------
pub open spec fn is_digit(b: u8) -> bool {
    48 <= b <= 57
}

pub open spec fn all_digits(s: Seq<u8>) -> bool {
    forall|i: int| 0 <= i < s.len() ==> is_digit(#[trigger] s[i])
}

/// Value of a digit string, most significant first.
pub open spec fn digits_val(s: Seq<u8>) -> int
    decreases s.len(),
{
    if s.len() == 0 {
        0
    } else {
        digits_val(s.drop_last()) * 10 + (s.last() - 48)
    }
}

/// The digits of a signed integer token: everything after an optional
/// leading `+` or `-`.
pub open spec fn int_body(t: Seq<u8>) -> Seq<u8> {
    if t.len() > 0 && (t[0] == 43 || t[0] == 45) {
        t.drop_first()
    } else {
        t
    }
}

/// The token parses as a (mathematical) signed integer.
pub open spec fn int_token_ok(t: Seq<u8>) -> bool {
    &&& int_body(t).len() > 0
    &&& all_digits(int_body(t))
}

pub open spec fn int_token_val(t: Seq<u8>) -> int {
    if t.len() > 0 && t[0] == 45 {
        -digits_val(int_body(t))
    } else {
        digits_val(int_body(t))
    }
}

/// The token parses as an `i32`, sign included.
pub open spec fn i32_token_ok(t: Seq<u8>) -> bool {
    &&& int_token_ok(t)
    &&& i32::MIN <= int_token_val(t) <= i32::MAX
}

/// The digits of an unsigned integer token: `+` allowed, `-` not.
pub open spec fn uint_body(t: Seq<u8>) -> Seq<u8> {
    if t.len() > 0 && t[0] == 43 {
        t.drop_first()
    } else {
        t
    }
}

/// The token parses as a `usize`.
pub open spec fn usize_token_ok(t: Seq<u8>) -> bool {
    &&& uint_body(t).len() > 0
    &&& all_digits(uint_body(t))
    &&& digits_val(uint_body(t)) <= usize::MAX as int
}

pub open spec fn usize_token_val(t: Seq<u8>) -> int {
    digits_val(uint_body(t))
}

pub proof fn lemma_digits_val_nonneg(s: Seq<u8>)
    requires
        all_digits(s),
    ensures
        digits_val(s) >= 0,
    decreases s.len(),
{
    if s.len() > 0 {
        lemma_digits_val_nonneg(s.drop_last());
    }
}

/// Reading one more digit never shrinks the value.
pub proof fn lemma_digits_val_prefix_le(s: Seq<u8>, k: int)
    requires
        all_digits(s),
        0 <= k <= s.len(),
    ensures
        digits_val(s.take(k)) <= digits_val(s),
    decreases s.len() - k,
{
    if k < s.len() {
        lemma_digits_val_nonneg(s.take(k));
        assert(s.take(k + 1).drop_last() =~= s.take(k));
        assert(digits_val(s.take(k + 1)) == digits_val(s.take(k)) * 10 + (s[k] - 48));
        lemma_digits_val_prefix_le(s, k + 1);
        assert(s.take(s.len() as int) =~= s);
    } else {
        assert(s.take(k) =~= s);
    }
}

/// Parse a token as an `i32`, exactly as `str::parse::<i32>` would.
pub fn parse_i32_token(t: &[u8]) -> (r: Option<i32>)
    ensures
        match r {
            Some(v) => i32_token_ok(t@) && v as int == int_token_val(t@),
            None => !i32_token_ok(t@),
        },
{
    let n = t.len();
    if n == 0 {
        return None;
    }
    let neg = t[0] == 45;
    let start: usize = if t[0] == 45 || t[0] == 43 {
        1
    } else {
        0
    };
    let ghost body = int_body(t@);
    proof {
        assert(body =~= t@.skip(start as int));
    }
    if start == n {
        return None;
    }
    let mut val: u64 = 0;
    let mut j = start;
    while j < n
        invariant
            start <= j <= n,
            n == t@.len(),
            body == int_body(t@),
            neg == (t@[0] == 45),
            body =~= t@.skip(start as int),
            all_digits(body.take(j - start)),
            val as int == digits_val(body.take(j - start)),
            val <= 0x8000_0000u64,
        decreases n - j,
    {
        let b = t[j];
        if b < 48 || b > 57 {
            proof {
                assert(body.len() == n - start);
                assert(body[j - start] == t@[j as int]);
                assert(!is_digit(body[j - start]));
                assert(!all_digits(body));
            }
            return None;
        }
        proof {
            assert(body.take(j - start + 1).drop_last() =~= body.take(j - start));
            assert(body.take(j - start + 1).last() == t@[j as int]);
        }
        val = val * 10 + (b - 48) as u64;
        j = j + 1;
        proof {
            assert(all_digits(body.take(j - start)));
            assert(val as int == digits_val(body.take(j - start)));
        }
        if val > 0x8000_0000u64 {
            // every further digit only grows the magnitude
            proof {
                let k = j - start;
                if all_digits(body) {
                    lemma_digits_val_prefix_le(body, k);
                    lemma_digits_val_nonneg(body);
                    assert(digits_val(body) > 0x8000_0000);
                    assert(!(i32::MIN <= int_token_val(t@) <= i32::MAX));
                }
            }
            return None;
        }
    }
    proof {
        assert(body.take(n - start) =~= body);
    }
    if neg {
        if val == 0x8000_0000u64 {
            Some(i32::MIN)
        } else {
            Some(-((val as i32)))
        }
    } else {
        if val >= 0x8000_0000u64 {
            return None;
        }
        Some(val as i32)
    }
}

/// Parse a token as a `usize`, exactly as `str::parse::<usize>` would.
pub fn parse_usize_token(t: &[u8]) -> (r: Option<usize>)
    ensures
        match r {
            Some(v) => usize_token_ok(t@) && v as int == usize_token_val(t@),
            None => !usize_token_ok(t@),
        },
{
    let n = t.len();
    if n == 0 {
        return None;
    }
    let start: usize = if t[0] == 43 {
        1
    } else {
        0
    };
    let ghost body = uint_body(t@);
    proof {
        assert(body =~= t@.skip(start as int));
    }
    if start == n {
        return None;
    }
    let mut val: u128 = 0;
    let mut j = start;
    while j < n
        invariant
            start <= j <= n,
            n == t@.len(),
            body == uint_body(t@),
            body =~= t@.skip(start as int),
            all_digits(body.take(j - start)),
            val as int == digits_val(body.take(j - start)),
            val <= usize::MAX as u128,
        decreases n - j,
    {
        let b = t[j];
        if b < 48 || b > 57 {
            proof {
                assert(body.len() == n - start);
                assert(body[j - start] == t@[j as int]);
                assert(!is_digit(body[j - start]));
                assert(!all_digits(body));
            }
            return None;
        }
        proof {
            assert(body.take(j - start + 1).drop_last() =~= body.take(j - start));
            assert(body.take(j - start + 1).last() == t@[j as int]);
        }
        val = val * 10 + (b - 48) as u128;
        j = j + 1;
        proof {
            assert(all_digits(body.take(j - start)));
            assert(val as int == digits_val(body.take(j - start)));
        }
        if val > usize::MAX as u128 {
            proof {
                let k = j - start;
                if all_digits(body) {
                    lemma_digits_val_prefix_le(body, k);
                    lemma_digits_val_nonneg(body);
                    assert(digits_val(body) > usize::MAX as int);
                }
            }
            return None;
        }
    }
    proof {
        assert(body.take(n - start) =~= body);
    }
    Some(val as usize)
}

} // verus!

verus! {

// ---------------------------------------------------------------------------
// Per-clause normalization: duplicates dropped (first occurrence kept),
// tautologies discarded.
// ---------------------------------------------------------------------------
/// The raw literal list contains a literal together with its negation.
pub open spec fn is_taut_input(c: Seq<i32>) -> bool {
    exists|i: int, j: int| 0 <= i < j < c.len() && c[i] as int + c[j] as int == 0
}

/// The literal list with every repeated literal dropped, keeping first
/// occurrences in order.
pub open spec fn dedup_first(c: Seq<i32>) -> Seq<i32>
    decreases c.len(),
{
    if c.len() == 0 {
        Seq::empty()
    } else {
        let rest = dedup_first(c.drop_last());
        if c.drop_last().contains(c.last()) {
            rest
        } else {
            rest.push(c.last())
        }
    }
}

pub proof fn lemma_dedup_first_elems(c: Seq<i32>)
    ensures
        forall|x: i32| dedup_first(c).contains(x) <==> c.contains(x),
        dedup_first(c).no_duplicates(),
        dedup_first(c).len() <= c.len(),
    decreases c.len(),
{
    if c.len() > 0 {
        let cl = c.drop_last();
        lemma_dedup_first_elems(cl);
        let d = dedup_first(c);
        let rest = dedup_first(cl);
        assert forall|x: i32| d.contains(x) implies c.contains(x) by {
            let k = choose|k: int| 0 <= k < d.len() && d[k] == x;
            if cl.contains(c.last()) || k < d.len() - 1 {
                assert(rest[k] == x);
                assert(rest.contains(x));
                assert(cl.contains(x));
                let i = choose|i: int| 0 <= i < cl.len() && cl[i] == x;
                assert(c[i] == x);
            } else {
                assert(x == c.last());
                assert(c[c.len() - 1] == x);
            }
        }
        assert forall|x: i32| c.contains(x) implies d.contains(x) by {
            let i = choose|i: int| 0 <= i < c.len() && c[i] == x;
            if i < c.len() - 1 {
                assert(cl[i] == x);
                assert(cl.contains(x));
                assert(rest.contains(x));
                let j = choose|j: int| 0 <= j < rest.len() && rest[j] == x;
                assert(d[j] == x);
                assert(d.contains(x));
            } else {
                assert(x == c.last());
                if cl.contains(c.last()) {
                    assert(rest.contains(x));
                    let j = choose|j: int| 0 <= j < rest.len() && rest[j] == x;
                    assert(d[j] == x);
                } else {
                    assert(d[d.len() - 1] == x);
                }
            }
        }
        if !cl.contains(c.last()) {
            assert(!rest.contains(c.last()));
            assert(d.drop_last() =~= rest);
            assert forall|p: int, q: int| 0 <= p < q < d.len() implies d[p] != d[q] by {
                if q < d.len() - 1 {
                    assert(rest[p] != rest[q]);
                } else {
                    assert(d[p] == rest[p]);
                    if d[p] == c.last() {
                        assert(rest.contains(c.last()));
                        assert(false);
                    }
                }
            }
        }
    }
}

/// Normalizing an admissible, non-tautological literal list yields a
/// well-formed clause over the same literal set.
pub proof fn lemma_dedup_first_ok(c: Seq<i32>, v: int)
    requires
        lits_ok(c, v),
        !is_taut_input(c),
    ensures
        clause_ok(dedup_first(c), v),
        forall|x: i32| dedup_first(c).contains(x) <==> c.contains(x),
{
    lemma_dedup_first_elems(c);
    let d = dedup_first(c);
    assert forall|i: int| 0 <= i < d.len() implies lit_ok(#[trigger] d[i], v) by {
        assert(d.contains(d[i]));
        assert(c.contains(d[i]));
        let j = choose|j: int| 0 <= j < c.len() && c[j] == d[i];
        assert(lit_ok(c[j], v));
    }
    assert forall|i: int, j: int|
        0 <= i < d.len() && 0 <= j < d.len() implies #[trigger] d[i] as int + #[trigger] d[j] as int
        != 0 by {
        if d[i] as int + d[j] as int == 0 {
            assert(d.contains(d[i]));
            assert(d.contains(d[j]));
            assert(c.contains(d[i]));
            assert(c.contains(d[j]));
            let pi = choose|p: int| 0 <= p < c.len() && c[p] == d[i];
            let pj = choose|p: int| 0 <= p < c.len() && c[p] == d[j];
            assert(d[i] != 0);
            assert(d[i] != d[j]);
            assert(pi != pj);
            if pi < pj {
                assert(c[pi] as int + c[pj] as int == 0);
            } else {
                assert(c[pj] as int + c[pi] as int == 0);
            }
            assert(false);
        }
    }
}

/// Walk a raw literal list left to right with the mark array as scratch set:
/// drop a literal whose mark is set, stop on one whose negation's mark is set
/// (tautology), keep and mark the rest. Unmarks everything before returning.
pub fn check_trivial_and_process_clause(marks: &mut Marks, clause: Vec<i32>) -> (r: (bool, Vec<
    i32,
>))
    requires
        all_clear(old(marks)@),
        forall|i: int|
            0 <= i < clause@.len() ==> #[trigger] clause@[i] != 0 && clause@[i] != i32::MIN && 0
                <= slot_spec(clause@[i] as int) < old(marks)@.len() && 0 <= slot_spec(
                -clause@[i] as int,
            ) < old(marks)@.len(),
    ensures
        final (marks)@.len() == old(marks)@.len(),
        all_clear(final (marks)@),
        r.0 == is_taut_input(clause@),
        !r.0 ==> r.1@ == dedup_first(clause@),
{
    let ghost m0 = old(marks)@;
    let mut is_trivial = false;
    let mut processed_clause: Vec<i32> = Vec::new();
    let n = clause.len();
    let mut j: usize = 0;
    proof {
        assert(clause@.take(0) =~= Seq::<i32>::empty());
    }
    while j < n && !is_trivial
        invariant
            j <= n,
            n == clause@.len(),
            marks@.len() == m0.len(),
            forall|i: int|
                0 <= i < clause@.len() ==> #[trigger] clause@[i] != 0 && clause@[i] != i32::MIN && 0
                    <= slot_spec(clause@[i] as int) < m0.len() && 0 <= slot_spec(
                    -clause@[i] as int,
                ) < m0.len(),
            is_trivial ==> is_taut_input(clause@),
            !is_trivial ==> !is_taut_input(clause@.take(j as int)),
            !is_trivial ==> processed_clause@ == dedup_first(clause@.take(j as int)),
            !is_trivial ==> forall|x: i32|
                processed_clause@.contains(x) <==> clause@.take(j as int).contains(x),
            processed_clause@.no_duplicates(),
            forall|i: int|
                0 <= i < processed_clause@.len() ==> #[trigger] processed_clause@[i] != 0
                    && processed_clause@[i] != i32::MIN && 0 <= slot_spec(
                    processed_clause@[i] as int,
                ) < m0.len(),
            marks_exact(marks@, processed_clause@),
        decreases n - j + (if is_trivial { 0int } else { 1int }),
    {
        proof {
            lemma_dedup_first_elems(clause@.take(j as int));
            assert(clause@.take(j + 1).drop_last() =~= clause@.take(j as int));
            assert(clause@.take(j + 1).last() == clause@[j as int]);
        }
        let lit = clause[j];
        let nlit = -lit;
        proof {
            crate::marks::lemma_marks_exact_contains(marks@, processed_clause@, lit);
            crate::marks::lemma_marks_exact_contains(marks@, processed_clause@, nlit);
        }
        if marks.is_marked(lit) {
            // duplicate: drop it
            proof {
                assert(processed_clause@.contains(lit));
                assert(clause@.take(j as int).contains(lit));
                assert forall|p: int, q: int|
                    0 <= p < q < j + 1 implies #[trigger] clause@.take(j + 1)[p] as int
                    + #[trigger] clause@.take(j + 1)[q] as int != 0 by {
                    if q < j as int {
                        assert(clause@.take(j as int)[p] == clause@.take(j + 1)[p]);
                        assert(clause@.take(j as int)[q] == clause@.take(j + 1)[q]);
                    } else {
                        // a complement of this duplicate would have tripped
                        // when the first copy was kept
                        if clause@[p] as int + clause@[j as int] as int == 0 {
                            assert(clause@.take(j as int)[p] == clause@[p]);
                            assert(clause@.take(j as int).contains(clause@[p]));
                            assert(processed_clause@.contains(clause@[p]));
                            let a = choose|a: int|
                                0 <= a < processed_clause@.len() && processed_clause@[a]
                                    == clause@[p];
                            let b = choose|b: int|
                                0 <= b < processed_clause@.len() && processed_clause@[b] == lit;
                            assert(processed_clause@[a] as int + processed_clause@[b] as int == 0);
                            assert(false);
                        }
                    }
                }
                assert(!is_taut_input(clause@.take(j + 1)));
                assert forall|x: i32| processed_clause@.contains(x) <==> clause@.take(
                    j + 1,
                ).contains(x) by {
                    if clause@.take(j + 1).contains(x) {
                        let k = choose|k: int|
                            0 <= k < j + 1 && #[trigger] clause@.take(j + 1)[k] == x;
                        if k < j as int {
                            assert(clause@.take(j as int)[k] == x);
                            assert(clause@.take(j as int).contains(x));
                        } else {
                            assert(x == lit);
                        }
                    }
                    if processed_clause@.contains(x) {
                        assert(clause@.take(j as int).contains(x));
                        let k = choose|k: int|
                            0 <= k < j as int && clause@.take(j as int)[k] == x;
                        assert(clause@.take(j + 1)[k] == x);
                    }
                }
            }
            j = j + 1;
        } else if marks.is_marked(nlit) {
            // tautology: the clause is discarded in its entirety
            proof {
                assert(processed_clause@.contains(nlit));
                assert(clause@.take(j as int).contains(nlit));
                let p = choose|p: int| 0 <= p < j as int && clause@.take(j as int)[p] == nlit;
                assert(clause@[p] == nlit);
                assert(clause@[p] as int + clause@[j as int] as int == 0);
                assert(is_taut_input(clause@));
            }
            is_trivial = true;
        } else {
            let ghost pc0 = processed_clause@;
            let ghost mk0 = marks@;
            marks.mark(lit);
            processed_clause.push(lit);
            proof {
                let pc = processed_clause@;
                assert(pc =~= pc0.push(lit));
                assert(pc.drop_last() =~= pc0);
                assert forall|p: int, q: int|
                    0 <= p < q < j + 1 implies #[trigger] clause@.take(j + 1)[p] as int
                    + #[trigger] clause@.take(j + 1)[q] as int != 0 by {
                    if q < j as int {
                        assert(clause@.take(j as int)[p] == clause@.take(j + 1)[p]);
                        assert(clause@.take(j as int)[q] == clause@.take(j + 1)[q]);
                    } else {
                        if clause@[p] as int + clause@[j as int] as int == 0 {
                            assert(clause@.take(j as int)[p] == clause@[p]);
                            assert(clause@.take(j as int).contains(clause@[p]));
                            assert(clause@[p] == nlit);
                            assert(pc.drop_last().contains(nlit));
                            assert(false);
                        }
                    }
                }
                assert(!is_taut_input(clause@.take(j + 1)));
                assert(!clause@.take(j as int).contains(lit));
                assert(!dedup_first(clause@.take(j as int)).contains(lit));
                assert(processed_clause@ == dedup_first(clause@.take(j + 1)));
                assert forall|x: i32| processed_clause@.contains(x) <==> clause@.take(
                    j + 1,
                ).contains(x) by {
                    if clause@.take(j + 1).contains(x) {
                        let k = choose|k: int|
                            0 <= k < j + 1 && #[trigger] clause@.take(j + 1)[k] == x;
                        if k < j as int {
                            assert(clause@.take(j as int)[k] == x);
                            assert(clause@.take(j as int).contains(x));
                            assert(pc.drop_last().contains(x));
                            let a = choose|a: int|
                                0 <= a < pc.drop_last().len() && pc.drop_last()[a] == x;
                            assert(pc[a] == x);
                        } else {
                            assert(x == lit);
                            assert(pc[pc.len() - 1] == x);
                        }
                    }
                    if pc.contains(x) {
                        let a = choose|a: int| 0 <= a < pc.len() && pc[a] == x;
                        if a < pc.len() - 1 {
                            assert(pc.drop_last()[a] == x);
                            assert(pc.drop_last().contains(x));
                            assert(clause@.take(j as int).contains(x));
                            let k = choose|k: int|
                                0 <= k < j as int && clause@.take(j as int)[k] == x;
                            assert(clause@.take(j + 1)[k] == x);
                        } else {
                            assert(x == lit);
                            assert(clause@.take(j + 1)[j as int] == x);
                        }
                    }
                }
                assert forall|s: int| 0 <= s < marks@.len() implies (marks@[s] <==> exists|q: int|
                    0 <= q < pc.len() && slot_spec(#[trigger] pc[q] as int) == s) by {
                    if s == slot_spec(lit as int) {
                        assert(pc[pc.len() - 1] == lit);
                        assert(marks@[s]);
                    } else {
                        if exists|q: int|
                            0 <= q < pc.len() && slot_spec(#[trigger] pc[q] as int) == s {
                            let q = choose|q: int|
                                0 <= q < pc.len() && slot_spec(#[trigger] pc[q] as int) == s;
                            assert(q < pc.len() - 1);
                            assert(pc.drop_last()[q] == pc[q]);
                        }
                        if exists|q: int|
                            0 <= q < pc.drop_last().len() && slot_spec(
                                #[trigger] pc.drop_last()[q] as int,
                            ) == s {
                            let q = choose|q: int|
                                0 <= q < pc.drop_last().len() && slot_spec(
                                    #[trigger] pc.drop_last()[q] as int,
                                ) == s;
                            assert(pc[q] == pc.drop_last()[q]);
                        }
                    }
                }
            }
            j = j + 1;
        }
    }
    proof {
        if !is_trivial {
            assert(clause@.take(n as int) =~= clause@);
        }
    }
    // unmark everything this walk marked (the mark array is scratch only)
    let m = processed_clause.len();
    let mut k: usize = 0;
    while k < m
        invariant
            k <= m,
            m == processed_clause@.len(),
            marks@.len() == m0.len(),
            processed_clause@.no_duplicates(),
            forall|i: int|
                0 <= i < processed_clause@.len() ==> #[trigger] processed_clause@[i] != 0 && 0
                    <= slot_spec(processed_clause@[i] as int) < m0.len(),
            forall|s: int|
                0 <= s < marks@.len() ==> (marks@[s] <==> exists|q: int|
                    k <= q < processed_clause@.len() && slot_spec(
                        #[trigger] processed_clause@[q] as int,
                    ) == s),
        decreases m - k,
    {
        let lit = processed_clause[k];
        marks.unmark(lit);
        proof {
            assert forall|s: int| 0 <= s < marks@.len() implies (marks@[s] <==> exists|q: int|
                k + 1 <= q < processed_clause@.len() && slot_spec(
                    #[trigger] processed_clause@[q] as int,
                ) == s) by {
                if s == slot_spec(lit as int) {
                    assert(!marks@[s]);
                    if exists|q: int|
                        k + 1 <= q < processed_clause@.len() && slot_spec(
                            #[trigger] processed_clause@[q] as int,
                        ) == s {
                        let q = choose|q: int|
                            k + 1 <= q < processed_clause@.len() && slot_spec(
                                #[trigger] processed_clause@[q] as int,
                            ) == s;
                        crate::lits::lemma_slot_injective(processed_clause@[q] as int, lit as int);
                        assert(false);
                    }
                } else {
                    if exists|q: int|
                        k <= q < processed_clause@.len() && slot_spec(
                            #[trigger] processed_clause@[q] as int,
                        ) == s {
                        let q = choose|q: int|
                            k <= q < processed_clause@.len() && slot_spec(
                                #[trigger] processed_clause@[q] as int,
                            ) == s;
                        if q == k {
                            assert(false);
                        }
                    }
                }
            }
        }
        k = k + 1;
    }
    (is_trivial, processed_clause)
}

} // verus!

verus! {

// ---------------------------------------------------------------------------
// The DIMACS input, line by line.
// ---------------------------------------------------------------------------
#[derive(Debug, Clone, Copy, PartialEq, Eq, Structural)]
pub enum ParseErrorKind {
    MissingHeader,
    InvalidHeader,
    BadVariableCount,
    BadClauseCount,
    InvalidLiteral,
    LiteralOutOfRange,
}

#[derive(Debug, Clone, Copy, PartialEq, Eq, Structural)]
pub struct ParseError {
    pub line: usize,
    pub kind: ParseErrorKind,
}

/// What a successful parse of a prefix of the input amounts to.
#[verifier::ext_equal]
pub ghost struct ParseModel {
    pub variables: int,
    pub clauses: Seq<Seq<i32>>,
    pub empty_clause: bool,
    pub parsed: int,
}

pub open spec fn init_model() -> ParseModel {
    ParseModel { variables: 0, clauses: Seq::empty(), empty_clause: false, parsed: 0 }
}

pub open spec fn line_views(lines: Seq<Vec<u8>>) -> Seq<Seq<u8>> {
    lines.map_values(|l: Vec<u8>| l@)
}

pub open spec fn tok_views(toks: Seq<Vec<u8>>) -> Seq<Seq<u8>> {
    toks.map_values(|t: Vec<u8>| t@)
}

/// A comment line: its first byte is `c`.
pub open spec fn is_comment_line(line: Seq<u8>) -> bool {
    line.len() > 0 && line[0] == 99
}

/// A line that opens with the DIMACS header prefix `p cnf`.
pub open spec fn is_header_line(line: Seq<u8>) -> bool {
    line.len() >= 5 && line[0] == 112 && line[1] == 32 && line[2] == 99 && line[3] == 110
        && line[4] == 102
}

/// Read the literals of a clause line from its tokens: every token must be
/// an `i32`; `0` terminators are dropped; every literal must be admissible
/// for the declared variable count.
pub open spec fn spec_read_lits(toks: Seq<Seq<u8>>, v: int) -> Result<Seq<i32>, ParseErrorKind>
    decreases toks.len(),
{
    if toks.len() == 0 {
        Ok(Seq::empty())
    } else if !i32_token_ok(toks[0]) {
        Err(ParseErrorKind::InvalidLiteral)
    } else {
        let l = int_token_val(toks[0]) as i32;
        if l == 0 {
            spec_read_lits(toks.drop_first(), v)
        } else if !lit_ok(l, v) {
            Err(ParseErrorKind::LiteralOutOfRange)
        } else {
            match spec_read_lits(toks.drop_first(), v) {
                Ok(ls) => Ok(seq![l] + ls),
                Err(k) => Err(k),
            }
        }
    }
}

/// One header line: the tokens `p` and `cnf`, then the variable and clause
/// counts; the variable count must leave `2V` representable. The advisory
/// clause count is read for well-formedness only: a mismatch between it and
/// the number of clauses actually parsed is tolerated.
pub open spec fn spec_header_line(line: Seq<u8>, lineno: int, m: ParseModel) -> Result<
    ParseModel,
    ParseError,
> {
    let toks = tokens_of(line);
    if toks.len() < 4 || toks[0] != seq![112u8] || toks[1] != seq![99u8, 110u8, 102u8] {
        Err(ParseError { line: lineno as usize, kind: ParseErrorKind::InvalidHeader })
    } else if !usize_token_ok(toks[2]) || usize_token_val(toks[2]) > usize::MAX as int / 2 {
        Err(ParseError { line: lineno as usize, kind: ParseErrorKind::BadVariableCount })
    } else if !usize_token_ok(toks[3]) {
        Err(ParseError { line: lineno as usize, kind: ParseErrorKind::BadClauseCount })
    } else {
        Ok(ParseModel { variables: usize_token_val(toks[2]), ..m })
    }
}

/// One clause line: read the literals, count the line as parsed, drop a
/// tautology, otherwise record the normalized clause (and the empty-clause
/// flag if it came out empty).
pub open spec fn spec_clause_line(line: Seq<u8>, lineno: int, m: ParseModel) -> Result<
    ParseModel,
    ParseError,
> {
    match spec_read_lits(tokens_of(line), m.variables) {
        Err(k) => Err(ParseError { line: lineno as usize, kind: k }),
        Ok(lits) => {
            if is_taut_input(lits) {
                Ok(ParseModel { parsed: m.parsed + 1, ..m })
            } else {
                let cl = dedup_first(lits);
                Ok(
                    ParseModel {
                        parsed: m.parsed + 1,
                        clauses: m.clauses.push(cl),
                        empty_clause: m.empty_clause || cl.len() == 0,
                        ..m
                    },
                )
            }
        },
    }
}

/// One input line: comments are skipped; before the header only a header
/// line is accepted; after it every non-comment line is a clause line.
pub open spec fn spec_parse_line(line: Seq<u8>, lineno: int, hdr: bool, m: ParseModel) -> Result<
    (bool, ParseModel),
    ParseError,
> {
    if is_comment_line(line) {
        Ok((hdr, m))
    } else if !hdr {
        if is_header_line(line) {
            match spec_header_line(line, lineno, m) {
                Ok(m2) => Ok((true, m2)),
                Err(e) => Err(e),
            }
        } else {
            Err(ParseError { line: lineno as usize, kind: ParseErrorKind::MissingHeader })
        }
    } else {
        match spec_clause_line(line, lineno, m) {
            Ok(m2) => Ok((true, m2)),
            Err(e) => Err(e),
        }
    }
}

pub open spec fn spec_parse_lines(
    lines: Seq<Seq<u8>>,
    lineno: int,
    hdr: bool,
    m: ParseModel,
) -> Result<ParseModel, ParseError>
    decreases lines.len(),
{
    if lines.len() == 0 {
        Ok(m)
    } else {
        match spec_parse_line(lines[0], lineno, hdr, m) {
            Err(e) => Err(e),
            Ok((hdr2, m2)) => spec_parse_lines(lines.drop_first(), lineno + 1, hdr2, m2),
        }
    }
}

/// The whole input: what the parser accepts and what it builds.
pub open spec fn spec_parse(lines: Seq<Seq<u8>>) -> Result<ParseModel, ParseError> {
    spec_parse_lines(lines, 1, false, init_model())
}

/// The context state a successful parse of `m` leaves behind.
pub open spec fn model_ok(m: ParseModel, ctx: SATContext) -> bool {
    &&& ctx.formula.variables as int == m.variables
    &&& crate::formula::views(ctx.formula.clauses@) == m.clauses
    &&& forall|i: int|
        0 <= i < ctx.formula.clauses@.len() ==> !(#[trigger] ctx.formula.clauses@[i]).garbage
    &&& ctx.formula.empty_clause_exists == m.empty_clause
    &&& ctx.formula.added_clauses as int == m.clauses.len()
    &&& ctx.stats.parsed as int == m.parsed
    &&& ctx.formula.matrix.all_empty()
}

/// Read the literals of one clause line, mirroring `spec_read_lits`.
pub fn read_clause_lits(toks: &Vec<Vec<u8>>, variables: usize) -> (r: Result<
    Vec<i32>,
    ParseErrorKind,
>)
    ensures
        match r {
            Ok(ls) => spec_read_lits(tok_views(toks@), variables as int) == Ok::<
                Seq<i32>,
                ParseErrorKind,
            >(ls@) && forall|q: int|
                0 <= q < ls@.len() ==> lit_ok(#[trigger] ls@[q], variables as int),
            Err(k) => spec_read_lits(tok_views(toks@), variables as int) == Err::<
                Seq<i32>,
                ParseErrorKind,
            >(k),
        },
{
    let ghost tv = tok_views(toks@);
    let ghost v = variables as int;
    let mut lits: Vec<i32> = Vec::new();
    let n = toks.len();
    proof {
        assert(tv.skip(0) =~= tv);
    }
    let mut i: usize = 0;
    while i < n
        invariant
            i <= n,
            n == toks@.len(),
            tv == tok_views(toks@),
            v == variables as int,
            forall|q: int| 0 <= q < lits@.len() ==> lit_ok(#[trigger] lits@[q], v),
            spec_read_lits(tv, v) == match spec_read_lits(tv.skip(i as int), v) {
                Ok(ls) => Ok::<Seq<i32>, ParseErrorKind>(lits@ + ls),
                Err(k) => Err::<Seq<i32>, ParseErrorKind>(k),
            },
        decreases n - i,
    {
        proof {
            assert(tv.skip(i as int)[0] == tv[i as int]);
            assert(tv[i as int] == toks@[i as int]@);
            assert(tv.skip(i as int).drop_first() =~= tv.skip(i + 1));
        }
        match parse_i32_token(toks[i].as_slice()) {
            None => {
                return Err(ParseErrorKind::InvalidLiteral);
            },
            Some(l) => {
                if l == 0 {
                    i = i + 1;
                } else {
                    let admissible = l != i32::MIN && (if l < 0 {
                        (-(l as i64)) as u64
                    } else {
                        l as u64
                    }) <= variables as u64;
                    if !admissible {
                        proof {
                            assert(!lit_ok(l, v));
                        }
                        return Err(ParseErrorKind::LiteralOutOfRange);
                    }
                    proof {
                        assert(lit_ok(l, v));
                        assert(lits@.push(l) =~= lits@ + seq![l]);
                        if spec_read_lits(tv.skip(i + 1), v) is Ok {
                            let ls = spec_read_lits(tv.skip(i + 1), v)->Ok_0;
                            assert((lits@ + (seq![l] + ls)) =~= (lits@.push(l) + ls));
                        }
                    }
                    lits.push(l);
                    i = i + 1;
                }
            },
        }
    }
    proof {
        assert(tv.skip(n as int) =~= Seq::<Seq<u8>>::empty());
        assert(lits@ + Seq::<i32>::empty() =~= lits@);
    }
    Ok(lits)
}

} // verus!

verus! {

/// The model that the context currently embodies.
pub open spec fn cur_model(ctx: SATContext) -> ParseModel {
    ParseModel {
        variables: ctx.formula.variables as int,
        clauses: crate::formula::views(ctx.formula.clauses@),
        empty_clause: ctx.formula.empty_clause_exists,
        parsed: ctx.stats.parsed as int,
    }
}

/// Parse a DIMACS CNF input, handed over line by line, into the context:
/// size marks and matrix from the header, normalize and store every clause.
/// Accepts and builds exactly what `spec_parse` says.
pub fn parse_cnf(lines: &Vec<Vec<u8>>, ctx: &mut SATContext) -> (r: Result<(), ParseError>)
    requires
        old(ctx).formula.wf(),
        old(ctx).formula.variables == 0,
        old(ctx).formula.clauses@.len() == 0,
        old(ctx).formula.added_clauses == 0,
        !old(ctx).formula.empty_clause_exists,
        old(ctx).formula.marks@.len() == 0,
        old(ctx).formula.matrix.slots() == 0,
        old(ctx).stats.parsed == 0,
        lines@.len() < usize::MAX,
    ensures
        final (ctx).formula.wf(),
        final (ctx).config == old(ctx).config,
        final (ctx).stats.checked == old(ctx).stats.checked,
        final (ctx).stats.subsumed == old(ctx).stats.subsumed,
        all_clear(final (ctx).formula.marks@),
        match r {
            Ok(_) => spec_parse(line_views(lines@)) is Ok && model_ok(
                spec_parse(line_views(lines@))->Ok_0,
                *final (ctx),
            ),
            Err(e) => spec_parse(line_views(lines@)) == Err::<ParseModel, ParseError>(e),
        },
{
    let ghost lv = line_views(lines@);
    let ghost c0 = *old(ctx);
    let n = lines.len();
    let mut header_parsed = false;
    let mut i: usize = 0;
    proof {
        assert(lv.skip(0) =~= lv);
        assert(crate::formula::views(ctx.formula.clauses@) =~= Seq::<Seq<i32>>::empty());
        assert(cur_model(*ctx) =~= init_model());
    }
    while i < n
        invariant
            i <= n,
            n == lines@.len(),
            n < usize::MAX,
            lv == line_views(lines@),
            c0 == *old(ctx),
            ctx.formula.wf(),
            ctx.config == c0.config,
            ctx.stats.checked == c0.stats.checked,
            ctx.stats.subsumed == c0.stats.subsumed,
            all_clear(ctx.formula.marks@),
            ctx.formula.matrix.all_empty(),
            forall|k: int|
                0 <= k < ctx.formula.clauses@.len() ==> !(#[trigger] ctx.formula.clauses@[k]).garbage,
            ctx.formula.added_clauses as int == ctx.formula.clauses@.len(),
            ctx.stats.parsed as int <= i as int,
            ctx.formula.clauses@.len() <= ctx.stats.parsed as int,
            !header_parsed ==> ctx.formula.clauses@.len() == 0 && ctx.stats.parsed == 0
                && !ctx.formula.empty_clause_exists,
            spec_parse(lv) == spec_parse_lines(
                lv.skip(i as int),
                i + 1,
                header_parsed,
                cur_model(*ctx),
            ),
        decreases n - i,
    {
        proof {
            assert(lv.skip(i as int)[0] == lv[i as int]);
            assert(lv[i as int] == lines@[i as int]@);
            assert(lv.skip(i as int).drop_first() =~= lv.skip(i + 1));
        }
        let ghost m_in = cur_model(*ctx);
        let line = &lines[i];
        let lineno = i + 1;
        let is_comment = line.len() > 0 && line[0] == 99;
        if is_comment {
            i = i + 1;
            continue ;
        }
        if !header_parsed {
            let is_header = line.len() >= 5 && line[0] == 112 && line[1] == 32 && line[2] == 99
                && line[3] == 110 && line[4] == 102;
            if !is_header {
                return Err(
                    ParseError { line: lineno, kind: ParseErrorKind::MissingHeader },
                );
            }
            let toks = split_tokens(line.as_slice());
            proof {
                assert(tok_views(toks@) =~= tokens_of(lv[i as int]));
            }
            let words_ok = toks.len() >= 4 && toks[0].len() == 1 && toks[0][0] == 112
                && toks[1].len() == 3 && toks[1][0] == 99 && toks[1][1] == 110 && toks[1][2]
                == 102;
            if !words_ok {
                proof {
                    let tv = tok_views(toks@);
                    if toks@.len() >= 4 {
                        assert(tv[0] == toks@[0]@ && tv[1] == toks@[1]@);
                        if toks@[0]@.len() == 1 && toks@[0]@[0] == 112 {
                            assert(tv[0] =~= seq![112u8]);
                        }
                        if toks@[1]@.len() == 3 && toks@[1]@[0] == 99 && toks@[1]@[1] == 110
                            && toks@[1]@[2] == 102 {
                            assert(tv[1] =~= seq![99u8, 110u8, 102u8]);
                        }
                        assert(tv[0] != seq![112u8] || tv[1] != seq![99u8, 110u8, 102u8]);
                    }
                }
                return Err(ParseError { line: lineno, kind: ParseErrorKind::InvalidHeader });
            }
            proof {
                let tv = tok_views(toks@);
                assert(tv[0] =~= seq![112u8]);
                assert(tv[1] =~= seq![99u8, 110u8, 102u8]);
            }
            let v_opt = parse_usize_token(toks[2].as_slice());
            let variables: usize = match v_opt {
                None => {
                    return Err(
                        ParseError { line: lineno, kind: ParseErrorKind::BadVariableCount },
                    );
                },
                Some(v) => v,
            };
            if variables > usize::MAX / 2 {
                return Err(ParseError { line: lineno, kind: ParseErrorKind::BadVariableCount });
            }
            ctx.formula.variables = variables;
            ctx.formula.marks.init(variables);
            ctx.formula.matrix.init(variables);
            match parse_usize_token(toks[3].as_slice()) {
                None => {
                    return Err(
                        ParseError { line: lineno, kind: ParseErrorKind::BadClauseCount },
                    );
                },
                Some(_) => {},
            }
            header_parsed = true;
            proof {
                assert(spec_header_line(lv[i as int], lineno as int, m_in) == Ok::<
                    ParseModel,
                    ParseError,
                >(cur_model(*ctx))) by {
                    assert(cur_model(*ctx) =~= ParseModel {
                        variables: usize_token_val(tokens_of(lv[i as int])[2]),
                        ..m_in
                    });
                }
            }
            i = i + 1;
            continue ;
        }
        // a clause line
        let toks = split_tokens(line.as_slice());
        proof {
            assert(tok_views(toks@) =~= tokens_of(lv[i as int]));
        }
        let lits = match read_clause_lits(&toks, ctx.formula.variables) {
            Err(k) => {
                return Err(ParseError { line: lineno, kind: k });
            },
            Ok(ls) => ls,
        };
        ctx.stats.parsed = ctx.stats.parsed + 1;
        proof {
            let v = ctx.formula.variables as int;
            assert forall|q: int| 0 <= q < lits@.len() implies #[trigger] lits@[q] != 0
                && lits@[q] != i32::MIN && 0 <= slot_spec(lits@[q] as int)
                < ctx.formula.marks@.len() && 0 <= slot_spec(-lits@[q] as int)
                < ctx.formula.marks@.len() by {
                assert(lit_ok(lits@[q], v));
                crate::lits::lemma_slot_in_range(lits@[q], v);
                crate::lits::lemma_slot_neg_in_range(lits@[q], v);
            }
        }
        let (is_trivial, cl) = check_trivial_and_process_clause(&mut ctx.formula.marks, lits);
        if is_trivial {
            proof {
                assert(cur_model(*ctx) =~= ParseModel { parsed: m_in.parsed + 1, ..m_in });
            }
            i = i + 1;
            continue ;
        }
        proof {
            crate::parser::lemma_dedup_first_ok(
                spec_read_lits(tokens_of(lv[i as int]), m_in.variables)->Ok_0,
                ctx.formula.variables as int,
            );
        }
        if cl.len() == 0 {
            ctx.formula.empty_clause_exists = true;
        }
        let ghost cl_view = cl@;
        ctx.formula.add_clause(cl);
        proof {
            assert(crate::formula::views(ctx.formula.clauses@) =~= m_in.clauses.push(cl_view));
            assert(cur_model(*ctx) =~= ParseModel {
                parsed: m_in.parsed + 1,
                clauses: m_in.clauses.push(cl_view),
                empty_clause: m_in.empty_clause || cl_view.len() == 0,
                ..m_in
            });
        }
        i = i + 1;
    }
    proof {
        assert(lv.skip(n as int) =~= Seq::<Seq<u8>>::empty());
    }
    Ok(())
}

} // verus!
