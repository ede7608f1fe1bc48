//! The clause store: an append-only ordered collection of clauses, each with
//! a garbage flag, together with the occurrence matrix and the mark array
//! sized once from the header's variable count.
use vstd::prelude::*;

use crate::lits::{clause_ok, slot_spec};
use crate::marks::Marks;
use crate::matrix::Matrix;

verus! {

pub struct Clause {
    pub garbage: bool,
    // The clause id is just the index in the formula's clauses vector
    pub literals: Vec<i32>,
}

impl Clone for Clause {
    fn clone(&self) -> (r: Clause)
        ensures
            r.garbage == self.garbage,
            r.literals@ == self.literals@,
    {
        let literals = self.literals.clone();
        proof {
            assert(literals@ =~= self.literals@);
        }
        Clause { garbage: self.garbage, literals }
    }
}

/// The literal sequences of a clause store, garbage flags forgotten.
pub open spec fn views(cs: Seq<Clause>) -> Seq<Seq<i32>> {
    cs.map_values(|c: Clause| c.literals@)
}

/// The literal sequences of the non-garbage clauses, in store order.
pub open spec fn live_views(cs: Seq<Clause>) -> Seq<Seq<i32>>
    decreases cs.len(),
{
    if cs.len() == 0 {
        Seq::empty()
    } else {
        let rest = live_views(cs.drop_last());
        if cs.last().garbage {
            rest
        } else {
            rest.push(cs.last().literals@)
        }
    }
}

/// How many clauses of the store are flagged garbage.
pub open spec fn garbage_count(cs: Seq<Clause>) -> int
    decreases cs.len(),
{
    if cs.len() == 0 {
        0
    } else {
        garbage_count(cs.drop_last()) + if cs.last().garbage {
            1int
        } else {
            0int
        }
    }
}

pub proof fn lemma_garbage_count_bounds(cs: Seq<Clause>)
    ensures
        0 <= garbage_count(cs) <= cs.len(),
        garbage_count(cs) + live_views(cs).len() == cs.len(),
    decreases cs.len(),
{
    if cs.len() > 0 {
        lemma_garbage_count_bounds(cs.drop_last());
    }
}

/// Flagging one live clause as garbage raises the count by exactly one.
pub proof fn lemma_garbage_count_update(cs: Seq<Clause>, i: int, c: Clause)
    requires
        0 <= i < cs.len(),
        !cs[i].garbage,
        c.garbage,
    ensures
        garbage_count(cs.update(i, c)) == garbage_count(cs) + 1,
    decreases cs.len(),
{
    if i == cs.len() - 1 {
        assert(cs.update(i, c).drop_last() =~= cs.drop_last());
    } else {
        assert(cs.update(i, c).drop_last() =~= cs.drop_last().update(i, c));
        lemma_garbage_count_update(cs.drop_last(), i, c);
    }
}

/// A store whose clauses are all live has garbage count zero.
pub proof fn lemma_garbage_count_all_live(cs: Seq<Clause>)
    requires
        forall|i: int| 0 <= i < cs.len() ==> !(#[trigger] cs[i]).garbage,
    ensures
        garbage_count(cs) == 0,
    decreases cs.len(),
{
    if cs.len() > 0 {
        lemma_garbage_count_all_live(cs.drop_last());
    }
}

/// Mapping a function over multiset-equal sequences yields multiset-equal
/// sequences.
pub proof fn lemma_map_values_multiset<A, B>(s1: Seq<A>, s2: Seq<A>, f: spec_fn(A) -> B)
    requires
        s1.to_multiset() == s2.to_multiset(),
    ensures
        s1.map_values(f).to_multiset() == s2.map_values(f).to_multiset(),
    decreases s1.len(),
{
    vstd::seq_lib::to_multiset_len(s1);
    vstd::seq_lib::to_multiset_len(s2);
    if s1.len() == 0 {
        assert(s1.map_values(f) =~= s2.map_values(f));
    } else {
        let x = s1.last();
        assert(s1.drop_last().push(x) =~= s1);
        vstd::seq_lib::to_multiset_build(s1.drop_last(), x);
        vstd::seq_lib::to_multiset_contains(s2, x);
        let k = choose|k: int| 0 <= k < s2.len() && s2[k] == x;
        vstd::seq_lib::to_multiset_remove(s2, k);
        assert(s1.drop_last().to_multiset() =~= s2.remove(k).to_multiset());
        lemma_map_values_multiset(s1.drop_last(), s2.remove(k), f);
        assert(s1.map_values(f) =~= s1.drop_last().map_values(f).push(f(x)));
        vstd::seq_lib::to_multiset_build(s1.drop_last().map_values(f), f(x));
        assert(s2.remove(k).map_values(f) =~= s2.map_values(f).remove(k));
        vstd::seq_lib::to_multiset_remove(s2.map_values(f), k);
        assert(s2.map_values(f)[k] == f(x));
        assert(s2.map_values(f).to_multiset().count(f(x)) > 0) by {
            vstd::seq_lib::to_multiset_contains(s2.map_values(f), f(x));
        }
        assert(s1.map_values(f).to_multiset() =~= s2.map_values(f).to_multiset()) by {
            assert(s1.map_values(f).to_multiset() == s1.drop_last().map_values(
                f,
            ).to_multiset().insert(f(x)));
            assert(s2.map_values(f).to_multiset().remove(f(x)).insert(f(x)) =~= s2.map_values(
                f,
            ).to_multiset());
        }
    }
}

pub struct CNFFormula {
    pub variables: usize,
    pub added_clauses: usize,
    pub clauses: Vec<Clause>,
    pub empty_clause_exists: bool,
    pub matrix: Matrix,
    pub marks: Marks,
}

impl CNFFormula {
    /// Structural invariant: marks and matrix are sized to two slots per
    /// variable, every stored clause is normalized over the variable count,
    /// the added-clauses counter dominates the store length, and without the
    /// empty-clause flag no stored clause is empty.
    pub open spec fn wf(&self) -> bool {
        &&& self.marks@.len() == 2 * self.variables as int
        &&& self.matrix.slots() == 2 * self.variables as int
        &&& forall|i: int|
            0 <= i < self.clauses@.len() ==> clause_ok(
                (#[trigger] self.clauses@[i]).literals@,
                self.variables as int,
            )
        &&& self.clauses@.len() <= self.added_clauses as int
        &&& !self.empty_clause_exists ==> forall|i: int|
            0 <= i < self.clauses@.len() ==> (#[trigger] self.clauses@[i]).literals@.len() > 0
    }

    pub fn new() -> (r: CNFFormula)
        ensures
            r.wf(),
            r.variables == 0,
            r.added_clauses == 0,
            r.clauses@.len() == 0,
            !r.empty_clause_exists,
            r.marks@.len() == 0,
            r.matrix.slots() == 0,
    {
        CNFFormula {
            variables: 0,
            added_clauses: 0,
            clauses: Vec::new(),
            empty_clause_exists: false,
            matrix: Matrix::new(),
            marks: Marks::new(),
        }
    }

    /// Append a normalized clause, live, and count it as added.
    pub fn add_clause(&mut self, clause: Vec<i32>)
        requires
            old(self).wf(),
            clause_ok(clause@, old(self).variables as int),
            old(self).added_clauses < usize::MAX,
            clause@.len() == 0 ==> old(self).empty_clause_exists,
        ensures
            final (self).wf(),
            final (self).clauses@ =~= old(self).clauses@.push(
                Clause { garbage: false, literals: clause },
            ),
            final (self).added_clauses == old(self).added_clauses + 1,
            final (self).variables == old(self).variables,
            final (self).empty_clause_exists == old(self).empty_clause_exists,
            final (self).marks@ == old(self).marks@,
            final (self).matrix == old(self).matrix,
    {
        let new_clause = Clause { garbage: false, literals: clause };
        self.added_clauses = self.added_clauses + 1;
        self.clauses.push(new_clause);
    }

    /// Connect a clause id on one literal: append it to that literal's
    /// occurrence list.
    pub fn connect_lit(&mut self, lit: i32, clause_id: usize)
        requires
            old(self).wf(),
            lit != 0,
            0 <= slot_spec(lit as int) < old(self).matrix.slots(),
        ensures
            final (self).wf(),
            final (self).matrix.slots() == old(self).matrix.slots(),
            final (self).matrix.occ(slot_spec(lit as int)) =~= old(self).matrix.occ(
                slot_spec(lit as int),
            ).push(clause_id),
            forall|s: int|
                0 <= s < old(self).matrix.slots() && s != slot_spec(lit as int) ==> final (self).matrix.occ(s) =~= old(self).matrix.occ(s),
            final (self).clauses@ == old(self).clauses@,
            final (self).marks@ == old(self).marks@,
            final (self).variables == old(self).variables,
            final (self).added_clauses == old(self).added_clauses,
            final (self).empty_clause_exists == old(self).empty_clause_exists,
    {
        self.matrix.push_occ(lit, clause_id);
    }

    /// Connect a clause id on every literal of clause `clause_id`.
    pub fn connect_clause(&mut self, clause_id: usize)
        requires
            old(self).wf(),
            clause_id < old(self).clauses@.len(),
        ensures
            final (self).wf(),
            final (self).matrix.slots() == old(self).matrix.slots(),
            forall|s: int|
                0 <= s < old(self).matrix.slots() ==> final (self).matrix.occ(s) =~= (
                if exists|q: int|
                    0 <= q < old(self).clauses@[clause_id as int].literals@.len() && slot_spec(
                        #[trigger] old(self).clauses@[clause_id as int].literals@[q] as int,
                    ) == s {
                    old(self).matrix.occ(s).push(clause_id)
                } else {
                    old(self).matrix.occ(s)
                }),
            final (self).clauses@ == old(self).clauses@,
            final (self).marks@ == old(self).marks@,
            final (self).variables == old(self).variables,
            final (self).added_clauses == old(self).added_clauses,
            final (self).empty_clause_exists == old(self).empty_clause_exists,
    {
        let ghost lits = self.clauses@[clause_id as int].literals@;
        let ghost orig = *self;
        let n = self.clauses[clause_id].literals.len();
        let mut i: usize = 0;
        while i < n
            invariant
                self.wf(),
                *old(self) == orig,
                i <= n,
                clause_id < self.clauses@.len(),
                self.clauses@ == orig.clauses@,
                self.marks@ == orig.marks@,
                self.variables == orig.variables,
                self.added_clauses == orig.added_clauses,
                self.empty_clause_exists == orig.empty_clause_exists,
                self.matrix.slots() == orig.matrix.slots(),
                lits == orig.clauses@[clause_id as int].literals@,
                n as int == lits.len(),
                clause_ok(lits, orig.variables as int),
                forall|s: int|
                    0 <= s < orig.matrix.slots() ==> self.matrix.occ(s) =~= (
                    if exists|q: int|
                        0 <= q < i as int && slot_spec(#[trigger] lits[q] as int) == s {
                        orig.matrix.occ(s).push(clause_id)
                    } else {
                        orig.matrix.occ(s)
                    }),
            decreases n - i,
        {
            let lit = self.clauses[clause_id].literals[i];
            proof {
                crate::lits::lemma_slot_in_range(lit, self.variables as int);
            }
            self.connect_lit(lit, clause_id);
            proof {
                assert forall|s: int| 0 <= s < orig.matrix.slots() implies self.matrix.occ(s) =~= (
                if exists|q: int|
                    0 <= q < i + 1 && slot_spec(#[trigger] lits[q] as int) == s {
                    orig.matrix.occ(s).push(clause_id)
                } else {
                    orig.matrix.occ(s)
                }) by {
                    if s == slot_spec(lits[i as int] as int) {
                        // this literal occurs only once in the clause, so its
                        // slot was untouched before this step
                        assert forall|q: int|
                            0 <= q < i as int implies slot_spec(#[trigger] lits[q] as int) != s by {
                            if slot_spec(lits[q] as int) == s {
                                crate::lits::lemma_slot_injective(
                                    lits[q] as int,
                                    lits[i as int] as int,
                                );
                            }
                        }
                    }
                }
            }
            i = i + 1;
        }
    }

    /// Rebuild the store from the non-garbage clauses, in their current
    /// order; ids are renumbered to the compacted positions.
    pub fn collect_garbage_clauses(&mut self)
        requires
            old(self).wf(),
        ensures
            final (self).wf(),
            views(final (self).clauses@) =~= live_views(old(self).clauses@),
            forall|i: int|
                0 <= i < final (self).clauses@.len() ==> !(#[trigger] final (self).clauses@[i]).garbage,
            final (self).marks@ == old(self).marks@,
            final (self).matrix == old(self).matrix,
            final (self).variables == old(self).variables,
            final (self).added_clauses == old(self).added_clauses,
            final (self).empty_clause_exists == old(self).empty_clause_exists,
    {
        let ghost orig = *self;
        let mut new_clauses: Vec<Clause> = Vec::new();
        let n = self.clauses.len();
        let mut i: usize = 0;
        while i < n
            invariant
                i <= n,
                n as int == self.clauses@.len(),
                *self == orig,
                views(new_clauses@) =~= live_views(orig.clauses@.take(i as int)),
                new_clauses@.len() <= i as int,
                forall|j: int|
                    0 <= j < new_clauses@.len() ==> !(#[trigger] new_clauses@[j]).garbage,
                forall|j: int|
                    0 <= j < new_clauses@.len() ==> exists|k: int|
                        0 <= k < orig.clauses@.len() && (#[trigger] new_clauses@[j]).literals@
                            == orig.clauses@[k].literals@,
            decreases n - i,
        {
            proof {
                assert(orig.clauses@.take(i + 1).drop_last() =~= orig.clauses@.take(i as int));
                assert(orig.clauses@.take(i + 1).last() == orig.clauses@[i as int]);
            }
            if !self.clauses[i].garbage {
                let c = self.clauses[i].clone();
                assert(c.literals@ == orig.clauses@[i as int].literals@);
                new_clauses.push(c);
            }
            i = i + 1;
        }
        proof {
            assert(orig.clauses@.take(n as int) =~= orig.clauses@);
            assert forall|j: int| 0 <= j < new_clauses@.len() implies clause_ok(
                (#[trigger] new_clauses@[j]).literals@,
                orig.variables as int,
            ) && (!orig.empty_clause_exists ==> new_clauses@[j].literals@.len() > 0) by {
                let k = choose|k: int|
                    0 <= k < orig.clauses@.len() && new_clauses@[j].literals@
                        == orig.clauses@[k].literals@;
                assert(clause_ok(orig.clauses@[k].literals@, orig.variables as int));
            }
        }
        self.clauses = new_clauses;
    }
}

} // verus!

verus! {

/// Every entry of `live_views` is the literal list of some live clause.
pub proof fn lemma_live_views_elem(cs: Seq<Clause>, i: int)
    requires
        0 <= i < live_views(cs).len(),
    ensures
        exists|k: int|
            0 <= k < cs.len() && !(#[trigger] cs[k]).garbage && cs[k].literals@ == live_views(
                cs,
            )[i],
    decreases cs.len(),
{
    let dl = cs.drop_last();
    if cs.last().garbage || i < live_views(dl).len() {
        lemma_live_views_elem(dl, i);
        let k = choose|k: int|
            0 <= k < dl.len() && !(#[trigger] dl[k]).garbage && dl[k].literals@ == live_views(
                dl,
            )[i];
        assert(cs[k] == dl[k]);
    } else {
        assert(cs[cs.len() - 1].literals@ == live_views(cs)[i]);
    }
}

/// Every live clause's literal list appears in `live_views`.
pub proof fn lemma_live_views_contains(cs: Seq<Clause>, k: int)
    requires
        0 <= k < cs.len(),
        !cs[k].garbage,
    ensures
        exists|i: int|
            0 <= i < live_views(cs).len() && live_views(cs)[i] == cs[k].literals@,
    decreases cs.len(),
{
    let dl = cs.drop_last();
    if k == cs.len() - 1 {
        assert(live_views(cs)[live_views(cs).len() - 1] == cs[k].literals@);
    } else {
        assert(dl[k] == cs[k]);
        lemma_live_views_contains(dl, k);
        let i = choose|i: int|
            0 <= i < live_views(dl).len() && live_views(dl)[i] == dl[k].literals@;
        assert(live_views(cs)[i] == cs[k].literals@);
    }
}

/// The live views are a sub-multiset of all views.
pub proof fn lemma_live_views_le(cs: Seq<Clause>)
    ensures
        live_views(cs).to_multiset().subset_of(views(cs).to_multiset()),
    decreases cs.len(),
{
    if cs.len() == 0 {
        assert forall|x: Seq<i32>|
            #[trigger] live_views(cs).to_multiset().count(x) <= views(
                cs,
            ).to_multiset().count(x) by {
            vstd::seq_lib::to_multiset_contains(live_views(cs), x);
            assert(!live_views(cs).contains(x));
        }
    } else {
        let dl = cs.drop_last();
        lemma_live_views_le(dl);
        let v = cs.last().literals@;
        assert(views(cs) =~= views(dl).push(v));
        vstd::seq_lib::to_multiset_build(views(dl), v);
        if cs.last().garbage {
            assert(live_views(cs) == live_views(dl));
            assert forall|x: Seq<i32>|
                #[trigger] live_views(cs).to_multiset().count(x) <= views(
                    cs,
                ).to_multiset().count(x) by {
                assert(live_views(dl).to_multiset().count(x) <= views(dl).to_multiset().count(x));
            }
        } else {
            vstd::seq_lib::to_multiset_build(live_views(dl), v);
            assert(live_views(cs) == live_views(dl).push(v));
            assert forall|x: Seq<i32>|
                #[trigger] live_views(cs).to_multiset().count(x) <= views(
                    cs,
                ).to_multiset().count(x) by {
                assert(live_views(dl).to_multiset().count(x) <= views(dl).to_multiset().count(x));
            }
        }
    }
}

} // verus!
