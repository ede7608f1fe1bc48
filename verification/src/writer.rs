//! The writer: renders the simplified formula back into DIMACS text — the
//! header, the optional signature comment, and one line per surviving clause
//! — as a byte vector for the caller to put on the output stream.
use vstd::prelude::*;

use crate::context::SATContext;
use crate::formula::views;
use crate::signature::{compute_signature, signature_of};

verus! {

/// Decimal digits of `n`, most significant first (`0` is rendered `"0"`).
pub open spec fn dec_digits(n: nat) -> Seq<u8>
    decreases n,
{
    if n < 10 {
        seq![(48 + n) as u8]
    } else {
        dec_digits(n / 10).push((48 + n % 10) as u8)
    }
}

/// A literal as it appears on a clause line: a minus sign for negative
/// polarity, then the variable id in decimal.
pub open spec fn lit_bytes(l: i32) -> Seq<u8> {
    if l < 0 {
        seq![45u8] + dec_digits((-(l as int)) as nat)
    } else {
        dec_digits(l as nat)
    }
}

/// The literals of one clause, separated by single spaces.
pub open spec fn lits_joined(c: Seq<i32>) -> Seq<u8>
    decreases c.len(),
{
    if c.len() == 0 {
        Seq::empty()
    } else if c.len() == 1 {
        lit_bytes(c[0])
    } else {
        lits_joined(c.drop_last()) + seq![32u8] + lit_bytes(c.last())
    }
}

/// One output line per clause: the joined literals, ` 0`, and a newline.
pub open spec fn clause_line(c: Seq<i32>) -> Seq<u8> {
    lits_joined(c) + seq![32u8, 48u8, 10u8]
}

pub open spec fn clause_lines(vs: Seq<Seq<i32>>) -> Seq<u8>
    decreases vs.len(),
{
    if vs.len() == 0 {
        Seq::empty()
    } else {
        clause_lines(vs.drop_last()) + clause_line(vs.last())
    }
}

/// `p cnf <variables> <clauses>` and a newline.
pub open spec fn header_line(v: nat, c: nat) -> Seq<u8> {
    seq![112u8, 32u8, 99u8, 110u8, 102u8, 32u8] + dec_digits(v) + seq![32u8] + dec_digits(c)
        + seq![10u8]
}

/// `c hash-signature: <decimal>` and a newline.
pub open spec fn signature_line(h: u64) -> Seq<u8> {
    seq![
        99u8,
        32u8,
        104u8,
        97u8,
        115u8,
        104u8,
        45u8,
        115u8,
        105u8,
        103u8,
        110u8,
        97u8,
        116u8,
        117u8,
        114u8,
        101u8,
        58u8,
        32u8,
    ] + dec_digits(h as nat) + seq![10u8]
}

/// The whole DIMACS output for a clause list over `v` variables, with the
/// signature comment right after the header when signing is on.
pub open spec fn output_bytes(v: nat, vs: Seq<Seq<i32>>, sig: Option<u64>) -> Seq<u8> {
    header_line(v, vs.len()) + (match sig {
        Some(h) => signature_line(h),
        None => Seq::empty(),
    }) + clause_lines(vs)
}

/// Append every byte of `bytes` to `out`.
fn push_all(out: &mut Vec<u8>, bytes: &Vec<u8>)
    ensures
        final (out)@ =~= old(out)@ + bytes@,
{
    let ghost base = old(out)@;
    let n = bytes.len();
    let mut i: usize = 0;
    while i < n
        invariant
            i <= n,
            n == bytes@.len(),
            out@ =~= base + bytes@.take(i as int),
        decreases n - i,
    {
        let b = bytes[i];
        out.push(b);
        proof {
            assert(bytes@.take(i + 1).drop_last() =~= bytes@.take(i as int));
            assert(out@ =~= base + bytes@.take(i + 1));
        }
        i = i + 1;
    }
    proof {
        assert(bytes@.take(n as int) =~= bytes@);
    }
}

/// Render a 64-bit number in decimal.
pub fn u64_to_dec(n: u64) -> (r: Vec<u8>)
    ensures
        r@ == dec_digits(n as nat),
{
    let mut rev: Vec<u8> = Vec::new();
    let mut x: u64 = n;
    rev.push(48 + (x % 10) as u8);
    x = x / 10;
    proof {
        if x > 0 {
            assert(dec_digits(n as nat) =~= dec_digits(x as nat) + rev@.reverse());
        } else {
            assert(dec_digits(n as nat) =~= rev@.reverse());
        }
    }
    while x > 0
        invariant
            x > 0 ==> dec_digits(n as nat) =~= dec_digits(x as nat) + rev@.reverse(),
            x == 0 ==> dec_digits(n as nat) =~= rev@.reverse(),
            rev@.len() >= 1,
        decreases x,
    {
        let ghost rev0 = rev@;
        let ghost x0 = x;
        rev.push(48 + (x % 10) as u8);
        x = x / 10;
        proof {
            assert(rev@.reverse() =~= seq![(48 + x0 as nat % 10) as u8] + rev0.reverse());
            if x > 0 {
                assert(dec_digits(x0 as nat) =~= dec_digits(x as nat).push(
                    (48 + x0 as nat % 10) as u8,
                ));
                assert(dec_digits(n as nat) =~= dec_digits(x as nat) + rev@.reverse());
            } else {
                assert(dec_digits(x0 as nat) =~= seq![(48 + x0 as nat % 10) as u8]);
                assert(dec_digits(n as nat) =~= rev@.reverse());
            }
        }
    }
    let m = rev.len();
    let mut out: Vec<u8> = Vec::new();
    let mut j: usize = 0;
    while j < m
        invariant
            j <= m,
            m == rev@.len(),
            out@ =~= rev@.reverse().take(j as int),
        decreases m - j,
    {
        let b = rev[m - 1 - j];
        out.push(b);
        proof {
            assert(rev@.reverse().take(j + 1).drop_last() =~= rev@.reverse().take(j as int));
            assert(rev@.reverse().take(j + 1).last() == rev@.reverse()[j as int]);
            assert(rev@.reverse()[j as int] == rev@[m - 1 - j]);
        }
        j = j + 1;
    }
    proof {
        assert(rev@.reverse().take(m as int) =~= rev@.reverse());
    }
    out
}

/// Render one literal in decimal, sign included.
pub fn lit_to_dec(l: i32) -> (r: Vec<u8>)
    ensures
        r@ == lit_bytes(l),
{
    if l < 0 {
        let mut out: Vec<u8> = Vec::new();
        out.push(45);
        let mag = (-(l as i64)) as u64;
        let digits = u64_to_dec(mag);
        push_all(&mut out, &digits);
        proof {
            assert(out@ =~= seq![45u8] + dec_digits((-(l as int)) as nat));
        }
        out
    } else {
        u64_to_dec(l as u64)
    }
}

/// Render the whole output: header, the signature comment when signing is
/// enabled, then every stored clause in order.
#[verifier::rlimit(60)]
pub fn render_output(ctx: &SATContext) -> (r: Vec<u8>)
    ensures
        r@ == output_bytes(
            ctx.formula.variables as nat,
            views(ctx.formula.clauses@),
            if ctx.config.sign {
                Some(signature_of(views(ctx.formula.clauses@)))
            } else {
                None
            },
        ),
{
    let ghost vs = views(ctx.formula.clauses@);
    let mut out: Vec<u8> = Vec::new();
    out.push(112);
    out.push(32);
    out.push(99);
    out.push(110);
    out.push(102);
    out.push(32);
    let vd = u64_to_dec(ctx.formula.variables as u64);
    push_all(&mut out, &vd);
    out.push(32);
    let cd = u64_to_dec(ctx.formula.clauses.len() as u64);
    push_all(&mut out, &cd);
    out.push(10);
    proof {
        assert(out@ =~= header_line(ctx.formula.variables as nat, vs.len()));
    }
    if ctx.config.sign {
        let sig = compute_signature(ctx);
        out.push(99);
        out.push(32);
        out.push(104);
        out.push(97);
        out.push(115);
        out.push(104);
        out.push(45);
        out.push(115);
        out.push(105);
        out.push(103);
        out.push(110);
        out.push(97);
        out.push(116);
        out.push(117);
        out.push(114);
        out.push(101);
        out.push(58);
        out.push(32);
        let sd = u64_to_dec(sig);
        push_all(&mut out, &sd);
        out.push(10);
        proof {
            assert(out@ =~= header_line(ctx.formula.variables as nat, vs.len())
                + signature_line(signature_of(vs)));
        }
    }
    let ghost base = out@;
    let total = ctx.formula.clauses.len();
    let mut ci: usize = 0;
    proof {
        assert(out@ =~= base + clause_lines(vs.take(0)));
    }
    while ci < total
        invariant
            ci <= total,
            total == ctx.formula.clauses@.len(),
            vs == views(ctx.formula.clauses@),
            out@ =~= base + clause_lines(vs.take(ci as int)),
        decreases total - ci,
    {
        let ghost c = vs[ci as int];
        let m = ctx.formula.clauses[ci].literals.len();
        let mut line: Vec<u8> = Vec::new();
        let mut k: usize = 0;
        proof {
            assert(line@ =~= lits_joined(c.take(0)));
        }
        while k < m
            invariant
                k <= m,
                ci < total,
                total == ctx.formula.clauses@.len(),
                vs == views(ctx.formula.clauses@),
                c == vs[ci as int],
                m == c.len(),
                line@ =~= lits_joined(c.take(k as int)),
            decreases m - k,
        {
            if k > 0 {
                line.push(32);
            }
            let l = ctx.formula.clauses[ci].literals[k];
            let lb = lit_to_dec(l);
            push_all(&mut line, &lb);
            proof {
                assert(c.take(k + 1).drop_last() =~= c.take(k as int));
                assert(c.take(k + 1).last() == c[k as int]);
                if k == 0 {
                    assert(line@ =~= lits_joined(c.take(1)));
                } else {
                    assert(line@ =~= lits_joined(c.take(k as int)) + seq![32u8] + lit_bytes(
                        c[k as int],
                    ));
                }
            }
            k = k + 1;
        }
        line.push(32);
        line.push(48);
        line.push(10);
        proof {
            assert(c.take(m as int) =~= c);
            assert(line@ =~= clause_line(c));
        }
        push_all(&mut out, &line);
        proof {
            assert(vs.take(ci + 1).drop_last() =~= vs.take(ci as int));
            assert(vs.take(ci + 1).last() == c);
            assert(out@ =~= base + clause_lines(vs.take(ci + 1)));
        }
        ci = ci + 1;
    }
    proof {
        assert(vs.take(total as int) =~= vs);
    }
    out
}

} // verus!
