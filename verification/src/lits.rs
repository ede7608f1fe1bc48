//! Literals and clauses: the slot mapping that keys the mark array and the
//! occurrence matrix, and the specification-level vocabulary for clauses
//! (well-formedness, subsumption).
use vstd::prelude::*;

verus! {

/// Slot of a non-zero literal in the mark array and the occurrence matrix:
/// a positive literal `v` sits at `2v - 1`, a negative literal `-v` at
/// `2v - 2`, so the two polarities of a variable are adjacent and every
/// literal over `v` variables lands in `[0, 2v)`.
pub open spec fn slot_spec(l: int) -> int {
    if l < 0 {
        -2 * l - 2
    } else {
        2 * l - 1
    }
}

/// A literal admissible for a formula over `v` variables: non-zero, within
/// `[-v, v]`, and not `i32::MIN` (so that its negation is also an `i32`).
pub open spec fn lit_ok(l: i32, v: int) -> bool {
    &&& l != 0
    &&& l != i32::MIN
    &&& -v <= l as int <= v
}

pub open spec fn lits_ok(c: Seq<i32>, v: int) -> bool {
    forall|i: int| 0 <= i < c.len() ==> lit_ok(#[trigger] c[i], v)
}

/// No literal together with its negation: the clause is not a tautology.
pub open spec fn no_taut(c: Seq<i32>) -> bool {
    forall|i: int, j: int|
        0 <= i < c.len() && 0 <= j < c.len() ==> #[trigger] c[i] as int + #[trigger] c[j] as int
            != 0
}

/// A normalized clause over `v` variables: admissible literals, no
/// duplicates, no complementary pair.
pub open spec fn clause_ok(c: Seq<i32>, v: int) -> bool {
    &&& lits_ok(c, v)
    &&& c.no_duplicates()
    &&& no_taut(c)
}

/// Clause `a` subsumes clause `b`: every literal of `a` occurs in `b`.
pub open spec fn subsumes(a: Seq<i32>, b: Seq<i32>) -> bool {
    forall|i: int| 0 <= i < a.len() ==> b.contains(#[trigger] a[i])
}

/// The slot mapping is injective on non-zero literals.
pub proof fn lemma_slot_injective(l1: int, l2: int)
    requires
        l1 != 0,
        l2 != 0,
        slot_spec(l1) == slot_spec(l2),
    ensures
        l1 == l2,
{
}

/// An admissible literal's slot lies below `2v`.
pub proof fn lemma_slot_in_range(l: i32, v: int)
    requires
        lit_ok(l, v),
    ensures
        0 <= slot_spec(l as int) < 2 * v,
{
}

/// The negation of an admissible literal also has its slot below `2v`.
pub proof fn lemma_slot_neg_in_range(l: i32, v: int)
    requires
        lit_ok(l, v),
    ensures
        0 <= slot_spec(-(l as int)) < 2 * v,
{
}

pub proof fn lemma_subsumes_refl(a: Seq<i32>)
    ensures
        subsumes(a, a),
{
    assert forall|i: int| 0 <= i < a.len() implies a.contains(#[trigger] a[i]) by {
        assert(a[i] == a[i]);
    }
}

pub proof fn lemma_subsumes_trans(a: Seq<i32>, b: Seq<i32>, c: Seq<i32>)
    requires
        subsumes(a, b),
        subsumes(b, c),
    ensures
        subsumes(a, c),
{
    assert forall|i: int| 0 <= i < a.len() implies c.contains(#[trigger] a[i]) by {
        let j = choose|j: int| 0 <= j < b.len() && b[j] == a[i];
        assert(c.contains(b[j]));
    }
}

/// Subsumption is set inclusion of the literal sets.
pub proof fn lemma_subsumes_is_subset(a: Seq<i32>, b: Seq<i32>)
    ensures
        subsumes(a, b) <==> a.to_set().subset_of(b.to_set()),
{
    if subsumes(a, b) {
        assert forall|x: i32| a.to_set().contains(x) implies b.to_set().contains(x) by {
            let i = choose|i: int| 0 <= i < a.len() && a[i] == x;
            assert(b.contains(a[i]));
        }
    }
    if a.to_set().subset_of(b.to_set()) {
        assert forall|i: int| 0 <= i < a.len() implies b.contains(#[trigger] a[i]) by {
            assert(a.to_set().contains(a[i]));
        }
    }
}

/// Two duplicate-free clauses that subsume each other in one direction with
/// the subsumer at least as long are the same literal set, so each subsumes
/// the other.
pub proof fn lemma_subsumes_same_len(a: Seq<i32>, b: Seq<i32>)
    requires
        a.no_duplicates(),
        b.no_duplicates(),
        subsumes(a, b),
        a.len() >= b.len(),
    ensures
        subsumes(b, a),
{
    a.unique_seq_to_set();
    b.unique_seq_to_set();
    lemma_subsumes_is_subset(a, b);
    vstd::set_lib::lemma_len_subset(a.to_set(), b.to_set());
    assert(a.to_set().len() == b.to_set().len());
    if !b.to_set().subset_of(a.to_set()) {
        let x = choose|x: i32| b.to_set().contains(x) && !a.to_set().contains(x);
        a.to_set().lemma_subset_not_in_lt(b.to_set(), x);
        assert(false);
    }
    lemma_subsumes_is_subset(b, a);
}

} // verus!
