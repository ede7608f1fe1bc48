//! The signature: a 64-bit digest of the clause set, invariant under clause
//! order and under literal order within a clause, sensitive to clause
//! membership and to literal identity (polarity included). Literals enter the
//! hash through their unsigned 32-bit bit pattern, zero-extended to 64 bits.
use vstd::prelude::*;

use crate::context::SATContext;
use crate::formula::views;

verus! {

/// The fixed nonce table.
pub open spec fn nonce_spec(i: int) -> u64 {
    if i == 0 {
        71876167
    } else if i == 1 {
        708592741
    } else if i == 2 {
        1483128881
    } else if i == 3 {
        907283241
    } else if i == 4 {
        442951013
    } else if i == 5 {
        537146759
    } else if i == 6 {
        1366999021
    } else if i == 7 {
        1854614941
    } else if i == 8 {
        647800535
    } else if i == 9 {
        53523743
    } else if i == 10 {
        783815875
    } else if i == 11 {
        1643643143
    } else if i == 12 {
        682599717
    } else if i == 13 {
        291474505
    } else if i == 14 {
        229233697
    } else {
        1633529763
    }
}

pub fn nonce_at(i: usize) -> (r: u64)
    requires
        i < 16,
    ensures
        r == nonce_spec(i as int),
{
    if i == 0 {
        71876167
    } else if i == 1 {
        708592741
    } else if i == 2 {
        1483128881
    } else if i == 3 {
        907283241
    } else if i == 4 {
        442951013
    } else if i == 5 {
        537146759
    } else if i == 6 {
        1366999021
    } else if i == 7 {
        1854614941
    } else if i == 8 {
        647800535
    } else if i == 9 {
        53523743
    } else if i == 10 {
        783815875
    } else if i == 11 {
        1643643143
    } else if i == 12 {
        682599717
    } else if i == 13 {
        291474505
    } else if i == 14 {
        229233697
    } else {
        1633529763
    }
}

/// A 4-bit left rotation of a 64-bit word.
pub open spec fn rotl4(x: u64) -> u64 {
    (x << 4) | (x >> 60)
}

/// One step of the per-clause hash: rotate, add the literal's bit pattern,
/// multiply by the running nonce (all 64-bit wrapping).
pub open spec fn hash_step(tmp: u64, u: u32, nonce: u64) -> u64 {
    rotl4(tmp).wrapping_add(u as u64).wrapping_mul(nonce)
}

/// The hash chain over the sorted literal patterns from position `j` on;
/// element `j` is multiplied by nonce `(j + 1) % 16`.
pub open spec fn clause_hash_from(key: Seq<u32>, j: int, tmp: u64) -> u64
    decreases key.len() - j,
{
    if j < 0 || j >= key.len() {
        tmp
    } else {
        clause_hash_from(key, j + 1, hash_step(tmp, key[j], nonce_spec((j + 1) % 16)))
    }
}

/// Hash of one clause key: seeded with `(|key| + 1) * nonce[0]`, then chained.
pub open spec fn clause_hash(key: Seq<u32>) -> u64 {
    clause_hash_from(key, 0, (key.len() as u64).wrapping_add(1).wrapping_mul(nonce_spec(0)))
}

pub open spec fn u32_le() -> spec_fn(u32, u32) -> bool {
    |a: u32, b: u32| a <= b
}

/// A clause's key: its literals as unsigned 32-bit patterns, sorted.
pub open spec fn clause_key(c: Seq<i32>) -> Seq<u32> {
    c.map_values(|l: i32| l as u32).sort_by(u32_le())
}

pub open spec fn clause_sig(c: Seq<i32>) -> u64 {
    clause_hash(clause_key(c))
}

/// The signature of a clause list: the wrapping sum of the clause hashes.
pub open spec fn signature_of(cs: Seq<Seq<i32>>) -> u64
    decreases cs.len(),
{
    if cs.len() == 0 {
        0
    } else {
        signature_of(cs.drop_last()).wrapping_add(clause_sig(cs.last()))
    }
}

pub proof fn lemma_u32_le_total()
    ensures
        vstd::relations::total_ordering(u32_le()),
{
}

/// Sort a vector of 32-bit words ascending; the result is exactly the
/// specification-level sort of the input.
pub fn sort_u32s(v: &mut Vec<u32>)
    ensures
        final (v)@ == old(v)@.sort_by(u32_le()),
{
    let ghost orig = old(v)@;
    let n = v.len();
    let mut i: usize = 1;
    while i < n
        invariant
            1 <= i <= n || (n == 0 && i == 1),
            n == v@.len(),
            v@.to_multiset() == orig.to_multiset(),
            forall|p: int, q: int| 0 <= p < q < i as int ==> v@[p] <= v@[q],
        decreases n - i,
    {
        let mut j: usize = i;
        while j > 0 && v[j - 1] > v[j]
            invariant
                0 <= j <= i < n,
                n == v@.len(),
                v@.to_multiset() == orig.to_multiset(),
                forall|p: int, q: int|
                    0 <= p < q <= i as int && q != j as int ==> v@[p] <= v@[q],
            decreases j,
        {
            let ghost before = v@;
            let a = v[j - 1];
            let b = v[j];
            v[j - 1] = b;
            v[j] = a;
            proof {
                assert(v@ =~= before.update(j - 1, b).update(j as int, a));
                vstd::seq_lib::to_multiset_update(before, j - 1, b);
                vstd::seq_lib::to_multiset_update(before.update(j - 1, b), j as int, a);
                vstd::seq_lib::to_multiset_contains(before, a);
                vstd::seq_lib::to_multiset_contains(before.update(j - 1, b), b);
                assert(before.update(j - 1, b)[j as int] == b);
                assert(v@.to_multiset() =~= before.to_multiset());
            }
            j = j - 1;
        }
        i = i + 1;
    }
    proof {
        orig.lemma_sort_by_ensures(u32_le());
        assert(vstd::relations::sorted_by(v@, u32_le()));
        assert(vstd::relations::sorted_by(orig.sort_by(u32_le()), u32_le()));
        assert(v@.to_multiset() == orig.sort_by(u32_le()).to_multiset());
        vstd::seq_lib::lemma_sorted_unique(v@, orig.sort_by(u32_le()), u32_le());
    }
}

/// Compute the signature of the current clause set.
pub fn compute_signature(ctx: &SATContext) -> (r: u64)
    ensures
        r == signature_of(views(ctx.formula.clauses@)),
{
    let ghost vs = views(ctx.formula.clauses@);
    let mut hash: u64 = 0;
    let nclauses = ctx.formula.clauses.len();
    proof {
        assert(vs.take(0) =~= Seq::<Seq<i32>>::empty());
    }
    let mut ci: usize = 0;
    while ci < nclauses
        invariant
            ci <= nclauses,
            nclauses == ctx.formula.clauses@.len(),
            vs == views(ctx.formula.clauses@),
            hash == signature_of(vs.take(ci as int)),
        decreases nclauses - ci,
    {
        let lits = &ctx.formula.clauses[ci].literals;
        let m = lits.len();
        let mut d: Vec<u32> = Vec::new();
        let mut k: usize = 0;
        while k < m
            invariant
                k <= m,
                m == lits@.len(),
                d@ =~= lits@.take(k as int).map_values(|l: i32| l as u32),
            decreases m - k,
        {
            let l = lits[k];
            proof {
                assert(lits@.take(k + 1).drop_last() =~= lits@.take(k as int));
                assert(lits@.take(k + 1).map_values(|l: i32| l as u32).drop_last() =~= lits@.take(
                    k as int,
                ).map_values(|l: i32| l as u32));
            }
            d.push(#[verifier::truncate] (l as u32));
            k = k + 1;
        }
        proof {
            assert(lits@.take(m as int) =~= lits@);
        }
        sort_u32s(&mut d);
        proof {
            assert(d@ == clause_key(vs[ci as int]));
        }
        let ghost key = d@;
        let mut tmp: u64 = (d.len() as u64).wrapping_add(1).wrapping_mul(nonce_at(0));
        let mut ni: usize = 1;
        let dn = d.len();
        let mut k2: usize = 0;
        while k2 < dn
            invariant
                k2 <= dn,
                dn == d@.len(),
                key == d@,
                ni as int == (k2 as int + 1) % 16,
                ni < 16,
                clause_hash(key) == clause_hash_from(key, k2 as int, tmp),
            decreases dn - k2,
        {
            let u = d[k2];
            tmp = (tmp << 4) | (tmp >> 60);
            tmp = tmp.wrapping_add(u as u64);
            tmp = tmp.wrapping_mul(nonce_at(ni));
            ni = (ni + 1) % 16;
            k2 = k2 + 1;
        }
        hash = hash.wrapping_add(tmp);
        proof {
            assert(vs.take(ci + 1).drop_last() =~= vs.take(ci as int));
            assert(vs.take(ci + 1).last() == vs[ci as int]);
        }
        ci = ci + 1;
    }
    proof {
        assert(vs.take(nclauses as int) =~= vs);
    }
    hash
}

} // verus!

verus! {

/// Wrapping addition can be reordered: adding `b` then `c` equals adding
/// `c` then `b`.
pub proof fn lemma_wadd_shuffle(a: u64, b: u64, c: u64)
    ensures
        a.wrapping_add(b).wrapping_add(c) == a.wrapping_add(c).wrapping_add(b),
{
}

/// Removing a clause takes its hash out of the wrapping sum.
pub proof fn lemma_signature_remove(f: Seq<Seq<i32>>, k: int)
    requires
        0 <= k < f.len(),
    ensures
        signature_of(f) == signature_of(f.remove(k)).wrapping_add(clause_sig(f[k])),
    decreases f.len(),
{
    if k == f.len() - 1 {
        assert(f.remove(k) =~= f.drop_last());
    } else {
        let dl = f.drop_last();
        lemma_signature_remove(dl, k);
        assert(f.remove(k).drop_last() =~= dl.remove(k));
        assert(f.remove(k).last() == f.last());
        assert(f.remove(k).len() > 0);
        // sig(f) == (sig(dl.remove(k)) + sig(f[k])) + sig(f.last())
        // goal:     (sig(dl.remove(k)) + sig(f.last())) + sig(f[k])
        lemma_wadd_shuffle(
            signature_of(dl.remove(k)),
            clause_sig(f[k]),
            clause_sig(f.last()),
        );
        assert(dl[k] == f[k]);
    }
}

/// Reordering the clauses of a formula leaves the signature unchanged.
pub proof fn lemma_signature_clause_permutation(f1: Seq<Seq<i32>>, f2: Seq<Seq<i32>>)
    requires
        f1.to_multiset() == f2.to_multiset(),
    ensures
        signature_of(f1) == signature_of(f2),
    decreases f1.len(),
{
    vstd::seq_lib::to_multiset_len(f1);
    vstd::seq_lib::to_multiset_len(f2);
    if f1.len() > 0 {
        let x = f1.last();
        assert(f1.drop_last().push(x) =~= f1);
        vstd::seq_lib::to_multiset_build(f1.drop_last(), x);
        vstd::seq_lib::to_multiset_contains(f2, x);
        assert(f1.to_multiset().count(x) > 0);
        let k = choose|k: int| 0 <= k < f2.len() && f2[k] == x;
        vstd::seq_lib::to_multiset_remove(f2, k);
        assert(f1.drop_last().to_multiset() =~= f2.remove(k).to_multiset());
        lemma_signature_clause_permutation(f1.drop_last(), f2.remove(k));
        lemma_signature_remove(f2, k);
    }
}

/// Mapping literals to their bit patterns preserves multiset equality.
pub proof fn lemma_map_u32_multiset(s1: Seq<i32>, s2: Seq<i32>)
    requires
        s1.to_multiset() == s2.to_multiset(),
    ensures
        s1.map_values(|l: i32| l as u32).to_multiset() == s2.map_values(
            |l: i32| l as u32,
        ).to_multiset(),
{
    crate::formula::lemma_map_values_multiset(s1, s2, |l: i32| l as u32);
}

/// Reordering the literals inside a clause leaves its hash unchanged: the
/// sorted key is the same.
pub proof fn lemma_clause_sig_lit_permutation(c1: Seq<i32>, c2: Seq<i32>)
    requires
        c1.to_multiset() == c2.to_multiset(),
    ensures
        clause_sig(c1) == clause_sig(c2),
{
    let f = |l: i32| l as u32;
    lemma_map_u32_multiset(c1, c2);
    lemma_u32_le_total();
    c1.map_values(f).lemma_sort_by_ensures(u32_le());
    c2.map_values(f).lemma_sort_by_ensures(u32_le());
    assert(clause_key(c1).to_multiset() =~= clause_key(c2).to_multiset());
    vstd::seq_lib::lemma_sorted_unique(clause_key(c1), clause_key(c2), u32_le());
}

/// Reordering literals within each clause leaves the signature unchanged.
pub proof fn lemma_signature_literal_permutation(f1: Seq<Seq<i32>>, f2: Seq<Seq<i32>>)
    requires
        f1.len() == f2.len(),
        forall|i: int| 0 <= i < f1.len() ==> (#[trigger] f1[i]).to_multiset() == f2[i].to_multiset(),
    ensures
        signature_of(f1) == signature_of(f2),
    decreases f1.len(),
{
    if f1.len() > 0 {
        lemma_signature_literal_permutation(f1.drop_last(), f2.drop_last());
        lemma_clause_sig_lit_permutation(f1.last(), f2.last());
    }
}

} // verus!
