//! The subsumption engine: the forward and backward simplification drivers,
//! the single-clause checks they call, and the size-ordered driver around
//! them. A clause subsumes another when its literal set is a subset of the
//! other's; subsumed clauses are flagged garbage and compacted away.
use vstd::prelude::*;

use crate::context::SATContext;
use crate::formula::{garbage_count, live_views, views, CNFFormula, Clause};
use crate::lits::{clause_ok, lit_ok, slot_spec, subsumes};
use crate::marks::{all_clear, marks_exact};

verus! {

pub open spec fn lits_at(f: CNFFormula, i: int) -> Seq<i32> {
    f.clauses@[i].literals@
}

/// Clauses ordered by non-decreasing length.
pub open spec fn sorted_asc(cs: Seq<Clause>) -> bool {
    forall|i: int, j: int|
        0 <= i < j < cs.len() ==> (#[trigger] cs[i]).literals@.len() <= (
        #[trigger] cs[j]).literals@.len()
}

/// Clauses ordered by non-increasing length.
pub open spec fn sorted_desc(cs: Seq<Clause>) -> bool {
    forall|i: int, j: int|
        0 <= i < j < cs.len() ==> (#[trigger] cs[i]).literals@.len() >= (
        #[trigger] cs[j]).literals@.len()
}

/// Every garbage clause is subsumed by some live clause: dropping the
/// garbage preserves logical equivalence.
pub open spec fn garbage_covered(cs: Seq<Clause>) -> bool {
    forall|i: int|
        0 <= i < cs.len() && (#[trigger] cs[i]).garbage ==> exists|j: int|
            0 <= j < cs.len() && !(#[trigger] cs[j]).garbage && subsumes(
                cs[j].literals@,
                cs[i].literals@,
            )
}

/// Among the first `k` clauses, no live clause subsumes another live one.
pub open spec fn processed_free(cs: Seq<Clause>, k: int) -> bool {
    forall|i: int, j: int|
        0 <= i < k && 0 <= j < k && i != j && !(#[trigger] cs[i]).garbage && !(
        #[trigger] cs[j]).garbage ==> !subsumes(cs[i].literals@, cs[j].literals@)
}

/// Set the mark bit of every literal of clause `clause_id`. All bits must be
/// zero beforehand.
pub fn mark_clause(ctx: &mut SATContext, clause_id: usize)
    requires
        old(ctx).formula.wf(),
        clause_id < old(ctx).formula.clauses@.len(),
        all_clear(old(ctx).formula.marks@),
    ensures
        final (ctx).formula.wf(),
        final (ctx).formula.marks@.len() == old(ctx).formula.marks@.len(),
        marks_exact(final (ctx).formula.marks@, lits_at(old(ctx).formula, clause_id as int)),
        final (ctx).formula.clauses@ == old(ctx).formula.clauses@,
        final (ctx).formula.matrix == old(ctx).formula.matrix,
        final (ctx).formula.variables == old(ctx).formula.variables,
        final (ctx).formula.added_clauses == old(ctx).formula.added_clauses,
        final (ctx).formula.empty_clause_exists == old(ctx).formula.empty_clause_exists,
        final (ctx).stats == old(ctx).stats,
        final (ctx).config == old(ctx).config,
{
    let ghost c0 = *old(ctx);
    let ghost cl = lits_at(old(ctx).formula, clause_id as int);
    let n = ctx.formula.clauses[clause_id].literals.len();
    let mut i: usize = 0;
    while i < n
        invariant
            i <= n,
            c0 == *old(ctx),
            clause_id < ctx.formula.clauses@.len(),
            ctx.formula.wf(),
            cl == lits_at(ctx.formula, clause_id as int),
            n as int == cl.len(),
            ctx.formula.clauses@ == c0.formula.clauses@,
            ctx.formula.matrix == c0.formula.matrix,
            ctx.formula.variables == c0.formula.variables,
            ctx.formula.added_clauses == c0.formula.added_clauses,
            ctx.formula.empty_clause_exists == c0.formula.empty_clause_exists,
            ctx.stats == c0.stats,
            ctx.config == c0.config,
            ctx.formula.marks@.len() == c0.formula.marks@.len(),
            forall|s: int|
                0 <= s < ctx.formula.marks@.len() ==> (ctx.formula.marks@[s] <==> exists|q: int|
                    0 <= q < i as int && slot_spec(#[trigger] cl[q] as int) == s),
        decreases n - i,
    {
        let lit = ctx.formula.clauses[clause_id].literals[i];
        proof {
            assert(clause_ok(cl, ctx.formula.variables as int));
            crate::lits::lemma_slot_in_range(lit, ctx.formula.variables as int);
        }
        let ghost mk0 = ctx.formula.marks@;
        ctx.formula.marks.mark(lit);
        proof {
            assert forall|s: int| 0 <= s < ctx.formula.marks@.len() implies (ctx.formula.marks@[s]
                <==> exists|q: int|
                0 <= q < i + 1 && slot_spec(#[trigger] cl[q] as int) == s) by {
                if s == slot_spec(lit as int) {
                    assert(slot_spec(cl[i as int] as int) == s);
                } else {
                    assert(ctx.formula.marks@[s] == mk0[s]);
                }
            }
        }
        i = i + 1;
    }
}

/// Clear the mark bit of every literal of clause `clause_id`; the bits must
/// hold exactly that clause.
pub fn unmark_clause(ctx: &mut SATContext, clause_id: usize)
    requires
        old(ctx).formula.wf(),
        clause_id < old(ctx).formula.clauses@.len(),
        marks_exact(old(ctx).formula.marks@, lits_at(old(ctx).formula, clause_id as int)),
    ensures
        final (ctx).formula.wf(),
        final (ctx).formula.marks@.len() == old(ctx).formula.marks@.len(),
        all_clear(final (ctx).formula.marks@),
        final (ctx).formula.clauses@ == old(ctx).formula.clauses@,
        final (ctx).formula.matrix == old(ctx).formula.matrix,
        final (ctx).formula.variables == old(ctx).formula.variables,
        final (ctx).formula.added_clauses == old(ctx).formula.added_clauses,
        final (ctx).formula.empty_clause_exists == old(ctx).formula.empty_clause_exists,
        final (ctx).stats == old(ctx).stats,
        final (ctx).config == old(ctx).config,
{
    let ghost c0 = *old(ctx);
    let ghost cl = lits_at(old(ctx).formula, clause_id as int);
    let n = ctx.formula.clauses[clause_id].literals.len();
    let mut i: usize = 0;
    while i < n
        invariant
            i <= n,
            c0 == *old(ctx),
            clause_id < ctx.formula.clauses@.len(),
            ctx.formula.wf(),
            cl == lits_at(ctx.formula, clause_id as int),
            n as int == cl.len(),
            ctx.formula.clauses@ == c0.formula.clauses@,
            ctx.formula.matrix == c0.formula.matrix,
            ctx.formula.variables == c0.formula.variables,
            ctx.formula.added_clauses == c0.formula.added_clauses,
            ctx.formula.empty_clause_exists == c0.formula.empty_clause_exists,
            ctx.stats == c0.stats,
            ctx.config == c0.config,
            ctx.formula.marks@.len() == c0.formula.marks@.len(),
            forall|s: int|
                0 <= s < ctx.formula.marks@.len() ==> (ctx.formula.marks@[s] <==> exists|q: int|
                    i as int <= q < cl.len() && slot_spec(#[trigger] cl[q] as int) == s),
        decreases n - i,
    {
        let lit = ctx.formula.clauses[clause_id].literals[i];
        proof {
            assert(clause_ok(cl, ctx.formula.variables as int));
            crate::lits::lemma_slot_in_range(lit, ctx.formula.variables as int);
        }
        ctx.formula.marks.unmark(lit);
        proof {
            assert forall|s: int| 0 <= s < ctx.formula.marks@.len() implies (ctx.formula.marks@[s]
                <==> exists|q: int|
                i + 1 <= q < cl.len() && slot_spec(#[trigger] cl[q] as int) == s) by {
                if s == slot_spec(lit as int) {
                    if exists|q: int| i + 1 <= q < cl.len() && slot_spec(#[trigger] cl[q] as int)
                        == s {
                        let q = choose|q: int|
                            i + 1 <= q < cl.len() && slot_spec(#[trigger] cl[q] as int) == s;
                        crate::lits::lemma_slot_injective(cl[q] as int, cl[i as int] as int);
                        assert(cl[q] == cl[i as int]);
                        assert(false);
                    }
                } else {
                    if exists|q: int| i as int <= q < cl.len() && slot_spec(
                        #[trigger] cl[q] as int,
                    ) == s {
                        let q = choose|q: int|
                            i as int <= q < cl.len() && slot_spec(#[trigger] cl[q] as int) == s;
                        if q == i as int {
                            assert(false);
                        }
                    }
                }
            }
        }
        i = i + 1;
    }
}

/// Current occurrence-list length of a literal.
pub fn occurrences(ctx: &SATContext, lit: i32) -> (r: usize)
    requires
        ctx.formula.wf(),
        lit != 0,
        0 <= slot_spec(lit as int) < ctx.formula.matrix.slots(),
    ensures
        r as int == ctx.formula.matrix.occ(slot_spec(lit as int)).len(),
{
    ctx.formula.matrix.occ_len(lit)
}

/// The literal of clause `clause_id` whose occurrence list is currently
/// shortest (first one on a tie), together with that length through
/// `min_occs_ext`. Returns `0` (with length `usize::MAX`) for an empty
/// clause.
pub fn least_occuring(ctx: &SATContext, clause_id: usize, min_occs_ext: &mut usize) -> (r: i32)
    requires
        ctx.formula.wf(),
        clause_id < ctx.formula.clauses@.len(),
        forall|s: int|
            0 <= s < ctx.formula.matrix.slots() ==> #[trigger] ctx.formula.matrix.occ(s).len()
                < usize::MAX as int,
    ensures
        forall|p: int|
            0 <= p < lits_at(ctx.formula, clause_id as int).len()
                ==> ctx.formula.matrix.occ(
                slot_spec(#[trigger] lits_at(ctx.formula, clause_id as int)[p] as int),
            ).len() >= *final (min_occs_ext) as int,
        r == 0 ==> lits_at(ctx.formula, clause_id as int).len() == 0 && *final (min_occs_ext)
            == usize::MAX,
        r != 0 ==> exists|q: int|
            0 <= q < lits_at(ctx.formula, clause_id as int).len() && r == lits_at(
                ctx.formula,
                clause_id as int,
            )[q] && *final (min_occs_ext) as int == ctx.formula.matrix.occ(
                slot_spec(#[trigger] lits_at(ctx.formula, clause_id as int)[q] as int),
            ).len() && (forall|p: int|
                0 <= p < q ==> ctx.formula.matrix.occ(
                    slot_spec(#[trigger] lits_at(ctx.formula, clause_id as int)[p] as int),
                ).len() > *final (min_occs_ext) as int),
{
    let ghost cl = lits_at(ctx.formula, clause_id as int);
    let mut min_lit: i32 = 0;
    let mut min_occs: usize = usize::MAX;
    let n = ctx.formula.clauses[clause_id].literals.len();
    let mut i: usize = 0;
    while i < n && min_occs != 0
        invariant
            i <= n,
            ctx.formula.wf(),
            clause_id < ctx.formula.clauses@.len(),
            cl == lits_at(ctx.formula, clause_id as int),
            n as int == cl.len(),
            forall|s: int|
                0 <= s < ctx.formula.matrix.slots() ==> #[trigger] ctx.formula.matrix.occ(s).len()
                    < usize::MAX as int,
            forall|p: int|
                0 <= p < i as int ==> ctx.formula.matrix.occ(
                    slot_spec(#[trigger] cl[p] as int),
                ).len() >= min_occs as int,
            min_lit == 0 ==> i == 0 && min_occs == usize::MAX,
            min_lit != 0 ==> exists|q: int|
                0 <= q < i as int && min_lit == cl[q] && min_occs as int
                    == ctx.formula.matrix.occ(slot_spec(#[trigger] cl[q] as int)).len() && (
                forall|p: int|
                    0 <= p < q ==> ctx.formula.matrix.occ(
                        slot_spec(#[trigger] cl[p] as int),
                    ).len() > min_occs as int),
        decreases n - i,
    {
        let lit = ctx.formula.clauses[clause_id].literals[i];
        proof {
            assert(clause_ok(cl, ctx.formula.variables as int));
            crate::lits::lemma_slot_in_range(lit, ctx.formula.variables as int);
        }
        let occs = occurrences(ctx, lit);
        if occs < min_occs {
            min_occs = occs;
            min_lit = lit;
            proof {
                assert(cl[i as int] == lit);
            }
        }
        i = i + 1;
    }
    proof {
        if min_occs == 0 {
            assert forall|p: int| 0 <= p < cl.len() implies ctx.formula.matrix.occ(
                slot_spec(#[trigger] cl[p] as int),
            ).len() >= min_occs as int by {}
        }
        if min_lit == 0 && n > 0 {
            // the first literal's list is shorter than usize::MAX, so the
            // minimum was updated at least once
            assert(ctx.formula.matrix.occ(slot_spec(cl[0] as int)).len() >= min_occs as int);
            assert(clause_ok(cl, ctx.formula.variables as int));
            assert(lit_ok(cl[0], ctx.formula.variables as int)) by {
                assert(cl.len() > 0);
            }
            crate::lits::lemma_slot_in_range(cl[0], ctx.formula.variables as int);
            assert(false);
        }
    }
    *min_occs_ext = min_occs;
    min_lit
}

/// Connect a clause on its least-occurring literal only: the single list a
/// forward pass needs, since a superset of the clause contains that literal
/// too.
pub fn connect_least_occuring(ctx: &mut SATContext, clause_id: usize)
    requires
        old(ctx).formula.wf(),
        clause_id < old(ctx).formula.clauses@.len(),
        lits_at(old(ctx).formula, clause_id as int).len() > 0,
        forall|s: int|
            0 <= s < old(ctx).formula.matrix.slots() ==> #[trigger] old(
                ctx,
            ).formula.matrix.occ(s).len() < usize::MAX as int,
    ensures
        final (ctx).formula.wf(),
        final (ctx).formula.clauses@ == old(ctx).formula.clauses@,
        final (ctx).formula.marks@ == old(ctx).formula.marks@,
        final (ctx).formula.variables == old(ctx).formula.variables,
        final (ctx).formula.added_clauses == old(ctx).formula.added_clauses,
        final (ctx).formula.empty_clause_exists == old(ctx).formula.empty_clause_exists,
        final (ctx).stats == old(ctx).stats,
        final (ctx).config == old(ctx).config,
        final (ctx).formula.matrix.slots() == old(ctx).formula.matrix.slots(),
        exists|q: int|
            0 <= q < lits_at(old(ctx).formula, clause_id as int).len() && final (ctx).formula.matrix.occ(
                slot_spec(#[trigger] lits_at(old(ctx).formula, clause_id as int)[q] as int),
            ) =~= old(ctx).formula.matrix.occ(
                slot_spec(lits_at(old(ctx).formula, clause_id as int)[q] as int),
            ).push(clause_id) && (forall|s: int|
                0 <= s < old(ctx).formula.matrix.slots() && s != slot_spec(
                    lits_at(old(ctx).formula, clause_id as int)[q] as int,
                ) ==> final (ctx).formula.matrix.occ(s) =~= old(ctx).formula.matrix.occ(s)) && (
            forall|p: int|
                0 <= p < lits_at(old(ctx).formula, clause_id as int).len()
                    ==> old(ctx).formula.matrix.occ(
                    slot_spec(#[trigger] lits_at(old(ctx).formula, clause_id as int)[p] as int),
                ).len() >= old(ctx).formula.matrix.occ(
                    slot_spec(lits_at(old(ctx).formula, clause_id as int)[q] as int),
                ).len()) && (forall|p: int|
                0 <= p < q ==> old(ctx).formula.matrix.occ(
                    slot_spec(#[trigger] lits_at(old(ctx).formula, clause_id as int)[p] as int),
                ).len() > old(ctx).formula.matrix.occ(
                    slot_spec(lits_at(old(ctx).formula, clause_id as int)[q] as int),
                ).len()),
{
    let min_occs = &mut 0;
    let lit = least_occuring(ctx, clause_id, min_occs);
    proof {
        assert(lit != 0);
        let q = choose|q: int|
            0 <= q < lits_at(ctx.formula, clause_id as int).len() && lit == lits_at(
                ctx.formula,
                clause_id as int,
            )[q];
        assert(clause_ok(lits_at(ctx.formula, clause_id as int), ctx.formula.variables as int));
        assert(lit_ok(lits_at(ctx.formula, clause_id as int)[q], ctx.formula.variables as int));
        crate::lits::lemma_slot_in_range(lit, ctx.formula.variables as int);
    }
    ctx.formula.connect_lit(lit, clause_id);
}

/// Replace the whole store with a single empty clause: the minimal witness
/// of an unsatisfiable formula. Everything else ever added counts as
/// subsumed.
pub fn let_empty_clause_subsume_all_clauses(ctx: &mut SATContext)
    requires
        old(ctx).formula.wf(),
        old(ctx).formula.empty_clause_exists,
        old(ctx).formula.added_clauses >= 1,
    ensures
        final (ctx).formula.wf(),
        views(final (ctx).formula.clauses@) =~= seq![Seq::<i32>::empty()],
        final (ctx).formula.clauses@.len() == 1,
        !final (ctx).formula.clauses@[0].garbage,
        final (ctx).stats.subsumed == old(ctx).formula.added_clauses - 1,
        final (ctx).stats.checked == old(ctx).stats.checked,
        final (ctx).stats.parsed == old(ctx).stats.parsed,
        final (ctx).formula.marks@ == old(ctx).formula.marks@,
        final (ctx).formula.matrix == old(ctx).formula.matrix,
        final (ctx).formula.variables == old(ctx).formula.variables,
        final (ctx).formula.added_clauses == old(ctx).formula.added_clauses,
        final (ctx).formula.empty_clause_exists == old(ctx).formula.empty_clause_exists,
        final (ctx).config == old(ctx).config,
{
    let mut only: Vec<Clause> = Vec::new();
    only.push(Clause { garbage: false, literals: Vec::new() });
    ctx.formula.clauses = only;
    ctx.stats.subsumed = ctx.formula.added_clauses - 1;
}

} // verus!

verus! {

// ---------------------------------------------------------------------------
// Forward subsumption: is the current clause subsumed by an already
// connected clause? Each connected clause is indexed on one literal only.
// ---------------------------------------------------------------------------
/// Matrix shape during a forward pass over the first `k` clauses: every
/// listed id is a live clause among the first `k`, filed under the slot of
/// one of its own literals.
pub open spec fn fwd_matrix_ok(mx: crate::matrix::Matrix, cs: Seq<Clause>, k: int) -> bool {
    forall|s: int, p: int|
        0 <= s < mx.slots() && 0 <= p < mx.occ(s).len() ==> {
            let id = #[trigger] mx.occ(s)[p] as int;
            &&& 0 <= id < k
            &&& !cs[id].garbage
            &&& exists|q: int|
                0 <= q < cs[id].literals@.len() && slot_spec(
                    #[trigger] cs[id].literals@[q] as int,
                ) == s
        }
}

/// Every occurrence list holds at most `k` entries.
pub open spec fn occ_lens_le(mx: crate::matrix::Matrix, k: int) -> bool {
    forall|s: int| 0 <= s < mx.slots() ==> #[trigger] mx.occ(s).len() <= k
}

/// Every live clause among the first `k` is filed in the list of one of its
/// literals.
pub open spec fn fwd_connected(mx: crate::matrix::Matrix, cs: Seq<Clause>, k: int) -> bool {
    forall|id: int|
        0 <= id < k && !(#[trigger] cs[id]).garbage ==> exists|q: int|
            0 <= q < cs[id].literals@.len() && mx.occ(
                slot_spec(#[trigger] cs[id].literals@[q] as int),
            ).contains(id as usize)
}

/// The occurrence lists of the matrix as one sequence, slot by slot.
pub open spec fn occs_view(mx: crate::matrix::Matrix) -> Seq<Seq<usize>> {
    Seq::new(mx.slots() as nat, |s: int| mx.occ(s))
}

/// Index (within the clause, scanning from `j`) of the first literal whose
/// occurrence list is shortest.
pub open spec fn first_min_from(c: Seq<i32>, occs: Seq<Seq<usize>>, j: int) -> int
    decreases c.len() - j,
{
    if j >= c.len() - 1 {
        c.len() - 1
    } else {
        let r = first_min_from(c, occs, j + 1);
        if occs[slot_spec(c[j] as int)].len() <= occs[slot_spec(c[r] as int)].len() {
            j
        } else {
            r
        }
    }
}

pub open spec fn first_min_idx(c: Seq<i32>, occs: Seq<Seq<usize>>) -> int {
    first_min_from(c, occs, 0)
}

pub proof fn lemma_first_min_props(c: Seq<i32>, occs: Seq<Seq<usize>>, j: int)
    requires
        0 <= j < c.len(),
    ensures
        j <= first_min_from(c, occs, j) < c.len(),
        forall|m: int|
            j <= m < c.len() ==> occs[slot_spec(#[trigger] c[m] as int)].len() >= occs[slot_spec(
                c[first_min_from(c, occs, j)] as int,
            )].len(),
        forall|m: int|
            j <= m < first_min_from(c, occs, j) ==> occs[slot_spec(#[trigger] c[m] as int)].len()
                > occs[slot_spec(c[first_min_from(c, occs, j)] as int)].len(),
    decreases c.len() - j,
{
    if j < c.len() - 1 {
        lemma_first_min_props(c, occs, j + 1);
    }
}

/// The first least-occurring index is determined by its two defining
/// properties: minimal occurrence length, strictly beaten by every earlier
/// literal.
pub proof fn lemma_first_min_unique(c: Seq<i32>, occs: Seq<Seq<usize>>, q: int)
    requires
        0 <= q < c.len(),
        forall|p: int|
            0 <= p < c.len() ==> occs[slot_spec(#[trigger] c[p] as int)].len() >= occs[slot_spec(
                c[q] as int,
            )].len(),
        forall|p: int|
            0 <= p < q ==> occs[slot_spec(#[trigger] c[p] as int)].len() > occs[slot_spec(
                c[q] as int,
            )].len(),
    ensures
        first_min_idx(c, occs) == q,
{
    lemma_first_min_unique_from(c, occs, q, 0);
}

proof fn lemma_first_min_unique_from(c: Seq<i32>, occs: Seq<Seq<usize>>, q: int, j: int)
    requires
        0 <= j <= q < c.len(),
        forall|p: int|
            0 <= p < c.len() ==> occs[slot_spec(#[trigger] c[p] as int)].len() >= occs[slot_spec(
                c[q] as int,
            )].len(),
        forall|p: int|
            0 <= p < q ==> occs[slot_spec(#[trigger] c[p] as int)].len() > occs[slot_spec(
                c[q] as int,
            )].len(),
    ensures
        first_min_from(c, occs, j) == q,
    decreases q - j,
{
    if j == q {
        if q < c.len() - 1 {
            lemma_first_min_props(c, occs, q + 1);
            let r = first_min_from(c, occs, q + 1);
            assert(occs[slot_spec(c[r] as int)].len() >= occs[slot_spec(c[q] as int)].len());
        }
    } else {
        lemma_first_min_unique_from(c, occs, q, j + 1);
    }
}

/// Position of the first clause in an occurrence list whose literal set is
/// contained in `c` (the list's length when there is none).
pub open spec fn list_find(vs: Seq<Seq<i32>>, list: Seq<usize>, c: Seq<i32>) -> int
    decreases list.len(),
{
    if list.len() == 0 {
        0
    } else if subsumes(vs[list[0] as int], c) {
        0
    } else {
        1 + list_find(vs, list.drop_first(), c)
    }
}

proof fn lemma_list_find_at(vs: Seq<Seq<i32>>, list: Seq<usize>, c: Seq<i32>, p: int)
    requires
        0 <= p <= list.len(),
        forall|m: int| 0 <= m < p ==> !subsumes(vs[#[trigger] list[m] as int], c),
        p == list.len() || subsumes(vs[list[p] as int], c),
    ensures
        list_find(vs, list, c) == p,
    decreases p, list.len(),
{
    if p == 0 {
        if list.len() > 0 && !subsumes(vs[list[0] as int], c) {
            assert(false);
        }
    } else {
        assert(!subsumes(vs[list[0] as int], c));
        let rest = list.drop_first();
        assert(forall|m: int| 0 <= m < rest.len() ==> #[trigger] rest[m] == list[m + 1]);
        lemma_list_find_at(vs, rest, c, p - 1);
    }
}

/// How many matrix candidates the forward check of clause `c` examines: the
/// occurrence lists of `c`'s literals in order, stopping at (and counting)
/// the first subsumer.
pub open spec fn fwd_examined_from(
    vs: Seq<Seq<i32>>,
    occs: Seq<Seq<usize>>,
    c: Seq<i32>,
    j: int,
) -> int
    decreases c.len() - j,
{
    if j < 0 || j >= c.len() {
        0
    } else {
        let list = occs[slot_spec(c[j] as int)];
        let f = list_find(vs, list, c);
        if f < list.len() {
            f + 1
        } else {
            list.len() + fwd_examined_from(vs, occs, c, j + 1)
        }
    }
}

pub open spec fn fwd_examined(vs: Seq<Seq<i32>>, occs: Seq<Seq<usize>>, c: Seq<i32>) -> int {
    fwd_examined_from(vs, occs, c, 0)
}

pub proof fn lemma_list_find_nonneg(vs: Seq<Seq<i32>>, list: Seq<usize>, c: Seq<i32>)
    ensures
        0 <= list_find(vs, list, c),
    decreases list.len(),
{
    if list.len() > 0 && !subsumes(vs[list[0] as int], c) {
        lemma_list_find_nonneg(vs, list.drop_first(), c);
    }
}

pub proof fn lemma_fwd_examined_nonneg(
    vs: Seq<Seq<i32>>,
    occs: Seq<Seq<usize>>,
    c: Seq<i32>,
    j: int,
)
    ensures
        0 <= fwd_examined_from(vs, occs, c, j),
    decreases c.len() - j,
{
    if 0 <= j < c.len() {
        lemma_list_find_nonneg(vs, occs[slot_spec(c[j] as int)], c);
        lemma_fwd_examined_nonneg(vs, occs, c, j + 1);
    }
}

/// Saturating addition, the arithmetic of the `checked` statistic: the
/// counter sticks at `usize::MAX` instead of wrapping.
pub open spec fn sat_add(x: int, d: int) -> int {
    if x + d <= usize::MAX as int {
        x + d
    } else {
        usize::MAX as int
    }
}

/// Saturating counter bump for the `checked` statistic.
fn bump(x: usize) -> (r: usize)
    ensures
        r as int == if x < usize::MAX {
            x + 1
        } else {
            x as int
        },
{
    if x < usize::MAX {
        x + 1
    } else {
        x
    }
}

/// Are all literals of `lits` marked? With the marks holding exactly clause
/// `c`, this is the containment check `lits ⊆ c`.
fn all_lits_marked(
    marks: &crate::marks::Marks,
    lits: &Vec<i32>,
    Ghost(c): Ghost<Seq<i32>>,
) -> (r: bool)
    requires
        marks_exact(marks@, c),
        forall|i: int| 0 <= i < c.len() ==> #[trigger] c[i] != 0,
        forall|i: int|
            0 <= i < lits@.len() ==> #[trigger] lits@[i] != 0 && 0 <= slot_spec(lits@[i] as int)
                < marks@.len(),
    ensures
        r == subsumes(lits@, c),
{
    let n = lits.len();
    let mut i: usize = 0;
    while i < n
        invariant
            i <= n,
            n == lits@.len(),
            marks_exact(marks@, c),
            forall|i: int| 0 <= i < c.len() ==> #[trigger] c[i] != 0,
            forall|i: int|
                0 <= i < lits@.len() ==> #[trigger] lits@[i] != 0 && 0 <= slot_spec(
                    lits@[i] as int,
                ) < marks@.len(),
            forall|j: int| 0 <= j < i as int ==> c.contains(#[trigger] lits@[j]),
        decreases n - i,
    {
        let l = lits[i];
        proof {
            crate::marks::lemma_marks_exact_contains(marks@, c, l);
        }
        if !marks.is_marked(l) {
            proof {
                assert(!c.contains(lits@[i as int]));
            }
            return false;
        }
        i = i + 1;
    }
    true
}

/// Is clause `clause_id` subsumed by a clause already connected in the
/// matrix? If so it is flagged garbage. The containment test marks the
/// clause's literals and reads each candidate's literals off the mark array;
/// the marks are zero again on exit. Returns exactly whether a live
/// connected subsumer exists.
pub fn forward_subsumed(ctx: &mut SATContext, clause_id: usize) -> (r: bool)
    requires
        old(ctx).formula.wf(),
        clause_id < old(ctx).formula.clauses@.len(),
        all_clear(old(ctx).formula.marks@),
        sorted_asc(old(ctx).formula.clauses@),
        fwd_matrix_ok(old(ctx).formula.matrix, old(ctx).formula.clauses@, clause_id as int),
        fwd_connected(old(ctx).formula.matrix, old(ctx).formula.clauses@, clause_id as int),
        !old(ctx).formula.clauses@[clause_id as int].garbage,
        old(ctx).stats.subsumed as int == garbage_count(old(ctx).formula.clauses@),
    ensures
        final (ctx).formula.wf(),
        final (ctx).formula.marks@.len() == old(ctx).formula.marks@.len(),
        all_clear(final (ctx).formula.marks@),
        r == exists|d: int|
            0 <= d < clause_id as int && !(#[trigger] old(ctx).formula.clauses@[d]).garbage
                && subsumes(
                lits_at(old(ctx).formula, d),
                lits_at(old(ctx).formula, clause_id as int),
            ),
        final (ctx).formula.clauses@.len() == old(ctx).formula.clauses@.len(),
        forall|i: int|
            0 <= i < old(ctx).formula.clauses@.len() && i != clause_id as int
                ==> final (ctx).formula.clauses@[i] == old(ctx).formula.clauses@[i],
        lits_at(final (ctx).formula, clause_id as int) == lits_at(
            old(ctx).formula,
            clause_id as int,
        ),
        final (ctx).formula.clauses@[clause_id as int].garbage == r,
        !r ==> final (ctx).formula.clauses@ == old(ctx).formula.clauses@,
        final (ctx).formula.matrix == old(ctx).formula.matrix,
        final (ctx).formula.variables == old(ctx).formula.variables,
        final (ctx).formula.added_clauses == old(ctx).formula.added_clauses,
        final (ctx).formula.empty_clause_exists == old(ctx).formula.empty_clause_exists,
        final (ctx).config == old(ctx).config,
        final (ctx).stats.parsed == old(ctx).stats.parsed,
        final (ctx).stats.checked >= old(ctx).stats.checked,
        // one check per candidate examined, saturating
        final (ctx).stats.checked as int == sat_add(
            old(ctx).stats.checked as int,
            fwd_examined(
                views(old(ctx).formula.clauses@),
                occs_view(old(ctx).formula.matrix),
                lits_at(old(ctx).formula, clause_id as int),
            ),
        ),
        final (ctx).stats.subsumed as int == garbage_count(final (ctx).formula.clauses@),
    {
    let ghost c0 = *old(ctx);
    let ghost c = lits_at(old(ctx).formula, clause_id as int);
    let ghost vs = views(old(ctx).formula.clauses@);
    let ghost ov = occs_view(old(ctx).formula.matrix);
    let ghost mut examined: int = 0;
    mark_clause(ctx, clause_id);
    let mut found = false;
    let n = ctx.formula.clauses[clause_id].literals.len();
    let mut li: usize = 0;
    while li < n && !found
        invariant
            li <= n,
            c0 == *old(ctx),
            clause_id < ctx.formula.clauses@.len(),
            ctx.formula.wf(),
            c == lits_at(ctx.formula, clause_id as int),
            c == lits_at(c0.formula, clause_id as int),
            n as int == c.len(),
            ctx.formula.clauses@ == c0.formula.clauses@,
            ctx.formula.matrix == c0.formula.matrix,
            ctx.formula.variables == c0.formula.variables,
            ctx.formula.added_clauses == c0.formula.added_clauses,
            ctx.formula.empty_clause_exists == c0.formula.empty_clause_exists,
            ctx.config == c0.config,
            ctx.stats.parsed == c0.stats.parsed,
            ctx.stats.subsumed == c0.stats.subsumed,
            vs == views(c0.formula.clauses@),
            ov == occs_view(c0.formula.matrix),
            examined >= 0,
            ctx.stats.checked as int == sat_add(c0.stats.checked as int, examined),
            !found ==> fwd_examined(vs, ov, c) == examined + fwd_examined_from(
                vs,
                ov,
                c,
                li as int,
            ),
            found ==> fwd_examined(vs, ov, c) == examined,
            sorted_asc(ctx.formula.clauses@),
            fwd_matrix_ok(ctx.formula.matrix, ctx.formula.clauses@, clause_id as int),
            ctx.formula.marks@.len() == c0.formula.marks@.len(),
            marks_exact(ctx.formula.marks@, c),
            !found ==> forall|t: int, p: int|
                0 <= t < li as int && 0 <= p < ctx.formula.matrix.occ(
                    slot_spec(#[trigger] c[t] as int),
                ).len() ==> !subsumes(
                    lits_at(
                        ctx.formula,
                        #[trigger] ctx.formula.matrix.occ(slot_spec(c[t] as int))[p] as int,
                    ),
                    c,
                ),
            found ==> exists|d: int|
                0 <= d < clause_id as int && !(#[trigger] ctx.formula.clauses@[d]).garbage
                    && subsumes(lits_at(ctx.formula, d), c),
        decreases n - li,
    {
        let lit = ctx.formula.clauses[clause_id].literals[li];
        proof {
            assert(clause_ok(c, ctx.formula.variables as int));
            crate::lits::lemma_slot_in_range(lit, ctx.formula.variables as int);
        }
        let m = occurrences(ctx, lit);
        let ghost s = slot_spec(lit as int);
        let ghost ex0 = examined;
        let mut p: usize = 0;
        while p < m && !found
            invariant
                p <= m,
                c0 == *old(ctx),
                clause_id < ctx.formula.clauses@.len(),
                ctx.formula.wf(),
                li < n,
                c == lits_at(ctx.formula, clause_id as int),
                n as int == c.len(),
                lit == c[li as int],
                lit != 0,
                s == slot_spec(lit as int),
                0 <= s < ctx.formula.matrix.slots(),
                m as int == ctx.formula.matrix.occ(s).len(),
                ctx.formula.clauses@ == c0.formula.clauses@,
                ctx.formula.matrix == c0.formula.matrix,
                ctx.formula.variables == c0.formula.variables,
                ctx.formula.added_clauses == c0.formula.added_clauses,
                ctx.formula.empty_clause_exists == c0.formula.empty_clause_exists,
                ctx.config == c0.config,
                ctx.stats.parsed == c0.stats.parsed,
                ctx.stats.subsumed == c0.stats.subsumed,
                vs == views(c0.formula.clauses@),
                ov == occs_view(c0.formula.matrix),
                ex0 >= 0,
                examined == ex0 + p,
                ctx.stats.checked as int == sat_add(c0.stats.checked as int, examined),
                !found ==> fwd_examined(vs, ov, c) == ex0 + fwd_examined_from(
                    vs,
                    ov,
                    c,
                    li as int,
                ),
                found ==> fwd_examined(vs, ov, c) == examined,
                ov[s] == ctx.formula.matrix.occ(s),
                sorted_asc(ctx.formula.clauses@),
                fwd_matrix_ok(ctx.formula.matrix, ctx.formula.clauses@, clause_id as int),
                ctx.formula.marks@.len() == c0.formula.marks@.len(),
                marks_exact(ctx.formula.marks@, c),
                !found ==> forall|t: int, pp: int|
                    0 <= t < li as int && 0 <= pp < ctx.formula.matrix.occ(
                        slot_spec(#[trigger] c[t] as int),
                    ).len() ==> !subsumes(
                        lits_at(
                            ctx.formula,
                            #[trigger] ctx.formula.matrix.occ(slot_spec(c[t] as int))[pp] as int,
                        ),
                        c,
                    ),
                !found ==> forall|pp: int|
                    0 <= pp < p as int ==> !subsumes(
                        lits_at(ctx.formula, #[trigger] ctx.formula.matrix.occ(s)[pp] as int),
                        c,
                    ),
                found ==> exists|d: int|
                    0 <= d < clause_id as int && !(#[trigger] ctx.formula.clauses@[d]).garbage
                        && subsumes(lits_at(ctx.formula, d), c),
            decreases m - p,
        {
            let d_id = ctx.formula.matrix.occ_at(lit, p);
            proof {
                assert(ctx.formula.matrix.occ(s)[p as int] == d_id);
                // a candidate is a live, earlier clause, no longer than the
                // current one (the store is sorted ascending)
                assert(d_id < clause_id);
                assert(!ctx.formula.clauses@[d_id as int].garbage);
                assert(lits_at(ctx.formula, d_id as int).len() <= c.len());
            }
            ctx.stats.checked = bump(ctx.stats.checked);
            proof {
                examined = examined + 1;
            }
            let is_sub = all_lits_marked(
                &ctx.formula.marks,
                &ctx.formula.clauses[d_id].literals,
                Ghost(c),
            );
            proof {
                assert(forall|i: int| 0 <= i < c.len() ==> #[trigger] c[i] != 0) by {
                    assert(clause_ok(c, ctx.formula.variables as int));
                }
            }
            if is_sub {
                found = true;
                proof {
                    // this candidate is the first subsumer in the list
                    assert forall|mm: int| 0 <= mm < p as int implies !subsumes(
                        vs[#[trigger] ov[s][mm] as int],
                        c,
                    ) by {
                        assert(!subsumes(
                            lits_at(
                                ctx.formula,
                                ctx.formula.matrix.occ(slot_spec(c[li as int] as int))[mm] as int,
                            ),
                            c,
                        ));
                        assert(ov[s][mm] == ctx.formula.matrix.occ(s)[mm]);
                        assert(vs[ov[s][mm] as int] == lits_at(ctx.formula, ov[s][mm] as int));
                    }
                    assert(vs[ov[s][p as int] as int] == lits_at(ctx.formula, d_id as int));
                    assert(subsumes(vs[ov[s][p as int] as int], c));
                    lemma_list_find_at(vs, ov[s], c, p as int);
                    assert(fwd_examined_from(vs, ov, c, li as int) == p + 1);
                }
            }
            p = p + 1;
        }
        proof {
            if !found {
                // the whole list held no subsumer
                assert(p == m);
                assert forall|mm: int| 0 <= mm < m as int implies !subsumes(
                    vs[#[trigger] ov[s][mm] as int],
                    c,
                ) by {
                    assert(!subsumes(
                        lits_at(
                            ctx.formula,
                            ctx.formula.matrix.occ(slot_spec(c[li as int] as int))[mm] as int,
                        ),
                        c,
                    ));
                    assert(ov[s][mm] == ctx.formula.matrix.occ(s)[mm]);
                    assert(vs[ov[s][mm] as int] == lits_at(ctx.formula, ov[s][mm] as int));
                }
                lemma_list_find_at(vs, ov[s], c, m as int);
                assert(fwd_examined_from(vs, ov, c, li as int) == m + fwd_examined_from(
                    vs,
                    ov,
                    c,
                    li + 1,
                ));
            }
        }
        li = li + 1;
    }
    proof {
        if !found {
            assert(fwd_examined_from(vs, ov, c, c.len() as int) == 0);
            assert(fwd_examined(vs, ov, c) == examined);
        }
        if !found {
            assert forall|d: int|
                0 <= d < clause_id as int && !(#[trigger] ctx.formula.clauses@[d]).garbage implies
                !subsumes(lits_at(ctx.formula, d), c) by {
                if subsumes(lits_at(ctx.formula, d), c) {
                    // d is connected under the slot of one of its literals,
                    // and that literal occurs in c, so the search saw d
                    let q = choose|q: int|
                        0 <= q < lits_at(ctx.formula, d).len() && ctx.formula.matrix.occ(
                            slot_spec(#[trigger] lits_at(ctx.formula, d)[q] as int),
                        ).contains((d as usize));
                    let dl = lits_at(ctx.formula, d)[q];
                    assert(c.contains(dl));
                    let t = choose|t: int| 0 <= t < c.len() && c[t] == dl;
                    let occs = ctx.formula.matrix.occ(slot_spec(c[t] as int));
                    let pp = choose|pp: int| 0 <= pp < occs.len() && occs[pp] == (d as usize);
                    assert(!subsumes(lits_at(ctx.formula, occs[pp] as int), c));
                    assert(false);
                }
            }
        }
    }
    if found {
        let ghost pre = ctx.formula.clauses@;
        let garbage_ref = &mut ctx.formula.clauses[clause_id].garbage;
        *garbage_ref = true;
        proof {
            assert(ctx.formula.clauses@[clause_id as int].garbage);
            assert(ctx.formula.clauses@ =~= pre.update(
                clause_id as int,
                Clause {
                    garbage: true,
                    literals: pre[clause_id as int].literals,
                },
            ));
            crate::formula::lemma_garbage_count_update(
                pre,
                clause_id as int,
                ctx.formula.clauses@[clause_id as int],
            );
            crate::formula::lemma_garbage_count_bounds(ctx.formula.clauses@);
            assert(ctx.formula.clauses@.len() <= usize::MAX as int);
        }
        ctx.stats.subsumed = ctx.stats.subsumed + 1;
    }
    unmark_clause(ctx, clause_id);
    found
}

} // verus!

verus! {

/// Sort the clause store by clause length, ascending or descending, with a
/// straightforward insertion sort. The store holds the same clauses
/// afterwards (as a multiset).
pub fn sort_clauses_by_len(clauses: &mut Vec<Clause>, descending: bool)
    ensures
        final (clauses)@ == stable_sort_by_len(old(clauses)@, descending),
        final (clauses)@.len() == old(clauses)@.len(),
        final (clauses)@.to_multiset() == old(clauses)@.to_multiset(),
        !descending ==> sorted_asc(final (clauses)@),
        descending ==> sorted_desc(final (clauses)@),
        forall|x: Clause| final (clauses)@.contains(x) ==> old(clauses)@.contains(x),
{
    let ghost orig = old(clauses)@;
    let n = clauses.len();
    proof {
        if n > 0 {
            let t1 = orig.take(1);
            assert(t1.drop_last() =~= Seq::<Clause>::empty());
            assert(stable_sort_by_len(Seq::<Clause>::empty(), descending) =~= Seq::<
                Clause,
            >::empty());
            assert(stable_sort_by_len(t1, descending) == insert_stable(
                t1.last(),
                stable_sort_by_len(t1.drop_last(), descending),
                descending,
            ));
            assert(insert_stable(t1.last(), Seq::<Clause>::empty(), descending) =~= seq![
                t1.last(),
            ]);
            assert(t1.last() == orig[0]);
            assert(clauses@ =~= stable_sort_by_len(orig.take(1), descending) + orig.skip(1));
        }
    }
    let mut i: usize = 1;
    while i < n
        invariant
            1 <= i,
            n == 0 || i <= n,
            n == clauses@.len(),
            n as int == orig.len(),
            i as int <= n as int ==> clauses@ == stable_sort_by_len(orig.take(i as int), descending)
                + orig.skip(i as int),
            clauses@.to_multiset() == orig.to_multiset(),
            !descending ==> forall|a: int, b: int|
                0 <= a < b < i as int ==> (#[trigger] clauses@[a]).literals@.len() <= (
                #[trigger] clauses@[b]).literals@.len(),
            descending ==> forall|a: int, b: int|
                0 <= a < b < i as int ==> (#[trigger] clauses@[a]).literals@.len() >= (
                #[trigger] clauses@[b]).literals@.len(),
        decreases n - i,
    {
        let ghost before = clauses@;
        let c = clauses.remove(i);
        let ghost removed = clauses@;
        proof {
            vstd::seq_lib::to_multiset_remove(before, i as int);
            assert(forall|q: int|
                0 <= q < i as int ==> #[trigger] removed[q] == before[q]);
        }
        let key = c.literals.len();
        let mut p: usize = i;
        if descending {
            while p > 0 && clauses[p - 1].literals.len() < key
                invariant
                    p <= i,
                    i < n,
                    n == clauses@.len() + 1,
                    clauses@ == removed,
                    key == c.literals@.len(),
                    forall|q: int|
                        p as int <= q < i as int ==> (#[trigger] clauses@[q]).literals@.len()
                            < key as int,
                decreases p,
            {
                p = p - 1;
            }
        } else {
            while p > 0 && clauses[p - 1].literals.len() > key
                invariant
                    p <= i,
                    i < n,
                    n == clauses@.len() + 1,
                    clauses@ == removed,
                    key == c.literals@.len(),
                    forall|q: int|
                        p as int <= q < i as int ==> (#[trigger] clauses@[q]).literals@.len()
                            > key as int,
                decreases p,
            {
                p = p - 1;
            }
        }
        clauses.insert(p, c);
        proof {
            // the insertion position is the stable one
            let sorted_prefix = stable_sort_by_len(orig.take(i as int), descending);
            assert(sorted_prefix.len() == i as int) by {
                assert(before =~= sorted_prefix + orig.skip(i as int));
            }
            assert(forall|m: int| 0 <= m < i as int ==> #[trigger] removed[m] == sorted_prefix[m]);
            assert(c == orig[i as int]) by {
                assert(before[i as int] == orig.skip(i as int)[0]);
            }
            assert forall|m: int| p as int <= m < sorted_prefix.len() implies (if descending {
                (#[trigger] sorted_prefix[m]).literals@.len() < c.literals@.len()
            } else {
                (#[trigger] sorted_prefix[m]).literals@.len() > c.literals@.len()
            }) by {
                assert(removed[m] == sorted_prefix[m]);
            }
            lemma_insert_stable_at(c, sorted_prefix, p as int, descending);
            assert(orig.take(i + 1).drop_last() =~= orig.take(i as int));
            assert(orig.take(i + 1).last() == orig[i as int]);
            assert(stable_sort_by_len(orig.take(i + 1), descending) =~= sorted_prefix.take(
                p as int,
            ) + seq![c] + sorted_prefix.skip(p as int));
            assert(clauses@ =~= stable_sort_by_len(orig.take(i + 1), descending) + orig.skip(
                i + 1,
            )) by {
                assert(clauses@ =~= removed.insert(p as int, c));
                assert(forall|m: int|
                    0 <= m < p as int ==> #[trigger] sorted_prefix.take(p as int)[m]
                        == removed[m]);
                assert(forall|m: int|
                    0 <= m < sorted_prefix.len() - p as int
                        ==> #[trigger] sorted_prefix.skip(p as int)[m] == removed[m + p]);
            }
            vstd::seq_lib::to_multiset_insert(removed, p as int, c);
            assert(before[i as int] == c);
            assert(before.contains(c));
            vstd::seq_lib::to_multiset_contains(before, c);
            assert(before.to_multiset().count(c) > 0);
            assert(clauses@.to_multiset() =~= before.to_multiset());
            let now = clauses@;
            // the first i + 1 entries are ordered
            if !descending {
                assert forall|a: int, b: int|
                    0 <= a < b < i + 1 implies (#[trigger] now[a]).literals@.len() <= (
                    #[trigger] now[b]).literals@.len() by {
                    assert(forall|q: int|
                        0 <= q < p as int ==> #[trigger] now[q] == removed[q]);
                    assert(now[p as int] == c);
                    assert(forall|q: int|
                        (p as int) < q && q < i + 1 ==> #[trigger] now[q] == removed[q - 1]);
                    if b < p as int {
                    } else if b == p as int {
                        // now[a] is an entry of the sorted prefix left of p
                        if p > 0 {
                            assert(now[a].literals@.len() <= removed[p - 1].literals@.len());
                        }
                    } else {
                        if a == p as int {
                        } else if a < p as int {
                            assert(now[b].literals@.len() >= key as int || removed[b - 1]
                                == before[b - 1]);
                        }
                    }
                }
            } else {
                assert forall|a: int, b: int|
                    0 <= a < b < i + 1 implies (#[trigger] now[a]).literals@.len() >= (
                    #[trigger] now[b]).literals@.len() by {
                    assert(forall|q: int|
                        0 <= q < p as int ==> #[trigger] now[q] == removed[q]);
                    assert(now[p as int] == c);
                    assert(forall|q: int|
                        (p as int) < q && q < i + 1 ==> #[trigger] now[q] == removed[q - 1]);
                    if b < p as int {
                    } else if b == p as int {
                        if p > 0 {
                            assert(now[a].literals@.len() >= removed[p - 1].literals@.len());
                        }
                    } else {
                        if a == p as int {
                        } else if a < p as int {
                            assert(now[b].literals@.len() <= key as int || removed[b - 1]
                                == before[b - 1]);
                        }
                    }
                }
            }
        }
        i = i + 1;
    }
    proof {
        assert forall|x: Clause| clauses@.contains(x) implies orig.contains(x) by {
            vstd::seq_lib::to_multiset_contains(clauses@, x);
            vstd::seq_lib::to_multiset_contains(orig, x);
        }
        if n == 0 {
            assert(clauses@.len() == 0);
            assert(clauses@ =~= stable_sort_by_len(orig, descending));
        } else {
            assert(orig.take(n as int) =~= orig);
            assert(orig.skip(n as int) =~= Seq::<Clause>::empty());
            assert(clauses@ =~= stable_sort_by_len(orig, descending));
        }
    }
}

} // verus!

verus! {

/// The insertion step of a stable sort by clause length: `c` goes after
/// every clause it need not precede (ascending: after every no-longer one).
pub open spec fn insert_stable(c: Clause, s: Seq<Clause>, descending: bool) -> Seq<Clause>
    decreases s.len(),
{
    if s.len() == 0 {
        seq![c]
    } else if (if descending {
        s.last().literals@.len() < c.literals@.len()
    } else {
        s.last().literals@.len() > c.literals@.len()
    }) {
        insert_stable(c, s.drop_last(), descending).push(s.last())
    } else {
        s.push(c)
    }
}

/// The stable sort of the store by clause length: clauses of equal length
/// keep their relative order.
pub open spec fn stable_sort_by_len(cs: Seq<Clause>, descending: bool) -> Seq<Clause>
    decreases cs.len(),
{
    if cs.len() == 0 {
        Seq::empty()
    } else {
        insert_stable(cs.last(), stable_sort_by_len(cs.drop_last(), descending), descending)
    }
}

/// Inserting at the position `p` that the scan found is the stable
/// insertion: everything from `p` on must come after `c`, and the element
/// before `p` (if any) need not.
proof fn lemma_insert_stable_at(c: Clause, s: Seq<Clause>, p: int, descending: bool)
    requires
        0 <= p <= s.len(),
        forall|m: int|
            p <= m < s.len() ==> (if descending {
                (#[trigger] s[m]).literals@.len() < c.literals@.len()
            } else {
                (#[trigger] s[m]).literals@.len() > c.literals@.len()
            }),
        p > 0 ==> (if descending {
            s[p - 1].literals@.len() >= c.literals@.len()
        } else {
            s[p - 1].literals@.len() <= c.literals@.len()
        }),
    ensures
        insert_stable(c, s, descending) =~= s.take(p) + seq![c] + s.skip(p),
    decreases s.len() - p,
{
    if p == s.len() {
        if s.len() > 0 {
            assert(s.take(p) + seq![c] + s.skip(p) =~= s.push(c));
        }
    } else {
        let dl = s.drop_last();
        assert(forall|m: int| p <= m < dl.len() ==> dl[m] == s[m]);
        lemma_insert_stable_at(c, dl, p, descending);
        assert(insert_stable(c, s, descending) =~= (dl.take(p) + seq![c] + dl.skip(p)).push(
            s.last(),
        ));
        assert(dl.take(p) =~= s.take(p));
        assert(dl.skip(p).push(s.last()) =~= s.skip(p));
        assert((dl.take(p) + seq![c] + dl.skip(p)).push(s.last()) =~= s.take(p) + seq![c] + s.skip(
            p,
        ));
    }
}

/// Frame: same number of clauses with the same literal lists (the garbage
/// flags may differ).
pub open spec fn same_lits(a: Seq<Clause>, b: Seq<Clause>) -> bool {
    &&& a.len() == b.len()
    &&& forall|i: int| 0 <= i < a.len() ==> (#[trigger] a[i]).literals@ == b[i].literals@
}

/// Garbage flags after a forward pass has processed the first `k` clauses
/// of the (sorted) store: a clause is flagged exactly when some earlier
/// clause that itself stayed live is contained in it.
#[verifier::opaque]
pub open spec fn fwd_flags(vs: Seq<Seq<i32>>, k: int) -> Seq<bool>
    decreases k,
{
    if k <= 0 {
        Seq::new(vs.len(), |i: int| false)
    } else {
        let prev = fwd_flags(vs, k - 1);
        let garb = exists|d: int|
            0 <= d < k - 1 && !prev[d] && subsumes(#[trigger] vs[d], vs[k - 1]);
        prev.update(k - 1, garb)
    }
}

pub proof fn lemma_fwd_flags_frame(vs: Seq<Seq<i32>>, k: int)
    requires
        k <= vs.len(),
    ensures
        fwd_flags(vs, k).len() == vs.len(),
        forall|i: int| 0 <= i < vs.len() && k <= i ==> !(#[trigger] fwd_flags(vs, k)[i]),
    decreases k,
{
    reveal_with_fuel(fwd_flags, 1);
    if k <= 0 {
        assert(fwd_flags(vs, k) =~= Seq::new(vs.len(), |i: int| false));
    } else {
        lemma_fwd_flags_frame(vs, k - 1);
        assert forall|i: int| 0 <= i < vs.len() && k <= i implies !(
        #[trigger] fwd_flags(vs, k)[i]) by {
            assert(fwd_flags(vs, k)[i] == fwd_flags(vs, k - 1)[i]);
        }
    }
}

pub open spec fn empty_occs(slots: int) -> Seq<Seq<usize>> {
    Seq::new(slots as nat, |s: int| Seq::<usize>::empty())
}

/// Occurrence lists after a forward pass has processed `k` clauses: each
/// survivor was filed, at its turn, under its then first least-occurring
/// literal.
#[verifier::opaque]
pub open spec fn fwd_occs(vs: Seq<Seq<i32>>, slots: int, k: int) -> Seq<Seq<usize>>
    decreases k,
{
    if k <= 0 {
        empty_occs(slots)
    } else {
        let prev = fwd_occs(vs, slots, k - 1);
        if fwd_flags(vs, k)[k - 1] || vs[k - 1].len() == 0 {
            prev
        } else {
            let q = first_min_idx(vs[k - 1], prev);
            let sl = slot_spec(vs[k - 1][q] as int);
            prev.update(sl, prev[sl].push((k - 1) as usize))
        }
    }
}

/// Total candidates a forward pass examines over the first `k` clauses.
#[verifier::opaque]
pub open spec fn fwd_examined_total(vs: Seq<Seq<i32>>, slots: int, k: int) -> int
    decreases k,
{
    if k <= 0 {
        0
    } else {
        fwd_examined_total(vs, slots, k - 1) + fwd_examined(
            vs,
            fwd_occs(vs, slots, k - 1),
            vs[k - 1],
        )
    }
}

pub proof fn lemma_fwd_examined_total_nonneg(vs: Seq<Seq<i32>>, slots: int, k: int)
    ensures
        0 <= fwd_examined_total(vs, slots, k),
    decreases k,
{
    reveal_with_fuel(fwd_examined_total, 1);
    if k > 0 {
        lemma_fwd_examined_total_nonneg(vs, slots, k - 1);
        lemma_fwd_examined_nonneg(vs, fwd_occs(vs, slots, k - 1), vs[k - 1], 0);
    }
}

proof fn lemma_sat_chain(a: int, t: int, e: int)
    requires
        0 <= a <= usize::MAX as int,
        t >= 0,
        e >= 0,
    ensures
        sat_add(sat_add(a, t), e) == sat_add(a, t + e),
{
}

/// What connecting the live clause `k` does to the matrix: its id is pushed
/// onto the list of its literal `q`, the first least-occurring one, and no
/// other list changes.
pub open spec fn fwd_step_connected(
    svs: Seq<Seq<i32>>,
    slots0: int,
    k: int,
    pre_mx: crate::matrix::Matrix,
    now_mx: crate::matrix::Matrix,
    q: int,
) -> bool {
    &&& 0 <= q < svs[k].len()
    &&& now_mx.occ(slot_spec(svs[k][q] as int)) == pre_mx.occ(
        slot_spec(svs[k][q] as int),
    ).push(k as usize)
    &&& forall|ss: int|
        0 <= ss < slots0 && ss != slot_spec(svs[k][q] as int) ==> now_mx.occ(ss) == pre_mx.occ(ss)
    &&& forall|p: int|
        0 <= p < svs[k].len() ==> pre_mx.occ(slot_spec(#[trigger] svs[k][p] as int)).len()
            >= pre_mx.occ(slot_spec(svs[k][q] as int)).len()
    &&& forall|p: int|
        0 <= p < q ==> pre_mx.occ(slot_spec(#[trigger] svs[k][p] as int)).len() > pre_mx.occ(
            slot_spec(svs[k][q] as int),
        ).len()
}

/// One step of the forward pass agrees with the model: the new flag is the
/// model's, the matrix becomes the model's, and the counter grows by the
/// model's examined count.
proof fn lemma_fwd_model_step(
    svs: Seq<Seq<i32>>,
    slots0: int,
    k: int,
    pcs: Seq<Clause>,
    cs: Seq<Clause>,
    pre_mx: crate::matrix::Matrix,
    now_mx: crate::matrix::Matrix,
    r: bool,
)
    requires
        0 <= k < svs.len(),
        pcs.len() == svs.len(),
        cs.len() == svs.len(),
        forall|i: int| 0 <= i < pcs.len() ==> (#[trigger] pcs[i]).literals@ == svs[i],
        forall|i: int|
            0 <= i < pcs.len() ==> (#[trigger] fwd_flags(svs, k)[i]) == pcs[i].garbage,
        occs_view(pre_mx) == fwd_occs(svs, slots0, k),
        pre_mx.slots() == slots0,
        now_mx.slots() == slots0,
        forall|p: int|
            0 <= p < svs[k].len() ==> 0 <= slot_spec(#[trigger] svs[k][p] as int) < slots0,
        r == exists|d: int|
            0 <= d < k && !(#[trigger] pcs[d]).garbage && subsumes(pcs[d].literals@, svs[k]),
        cs[k].garbage == r,
        forall|i: int| 0 <= i < cs.len() && i != k ==> #[trigger] cs[i] == pcs[i],
        r ==> now_mx == pre_mx,
        !r ==> svs[k].len() > 0 && exists|q: int|
            fwd_step_connected(svs, slots0, k, pre_mx, now_mx, q),
    ensures
        forall|i: int| 0 <= i < cs.len() ==> (#[trigger] cs[i]).garbage == fwd_flags(svs, k + 1)[i],
        occs_view(now_mx) == fwd_occs(svs, slots0, k + 1),
        fwd_examined_total(svs, slots0, k + 1) == fwd_examined_total(svs, slots0, k)
            + fwd_examined(svs, fwd_occs(svs, slots0, k), svs[k]),
        0 <= fwd_examined_total(svs, slots0, k),
        0 <= fwd_examined(svs, fwd_occs(svs, slots0, k), svs[k]),
{
    reveal_with_fuel(fwd_flags, 1);
    reveal_with_fuel(fwd_occs, 1);
    reveal_with_fuel(fwd_examined_total, 1);
    let prev_occs = fwd_occs(svs, slots0, k);
    lemma_fwd_flags_frame(svs, k);
    lemma_fwd_flags_frame(svs, k + 1);
    let garb_model = exists|d: int|
        0 <= d < k && !fwd_flags(svs, k)[d] && subsumes(#[trigger] svs[d], svs[k]);
    assert(fwd_flags(svs, k + 1) == fwd_flags(svs, k).update(k, garb_model));
    assert(garb_model == r) by {
        if r {
            let d = choose|d: int|
                0 <= d < k && !(#[trigger] pcs[d]).garbage && subsumes(pcs[d].literals@, svs[k]);
            assert(!fwd_flags(svs, k)[d]);
            assert(subsumes(svs[d], svs[k]));
        }
        if garb_model {
            let d = choose|d: int|
                0 <= d < k && !fwd_flags(svs, k)[d] && subsumes(#[trigger] svs[d], svs[k]);
            assert(!pcs[d].garbage);
            assert(subsumes(pcs[d].literals@, svs[k]));
        }
    }
    assert forall|i: int| 0 <= i < cs.len() implies (#[trigger] cs[i]).garbage == fwd_flags(
        svs,
        k + 1,
    )[i] by {
        if i == k {
        } else {
            assert(cs[i] == pcs[i]);
            assert(fwd_flags(svs, k + 1)[i] == fwd_flags(svs, k)[i]);
        }
    }
    if r {
        assert(fwd_flags(svs, k + 1)[k]);
        assert(fwd_occs(svs, slots0, k + 1) == prev_occs);
    } else {
        assert(!fwd_flags(svs, k + 1)[k]);
        let q = choose|q: int| fwd_step_connected(svs, slots0, k, pre_mx, now_mx, q);
        assert forall|p: int| 0 <= p < svs[k].len() implies prev_occs[slot_spec(
            #[trigger] svs[k][p] as int,
        )].len() >= prev_occs[slot_spec(svs[k][q] as int)].len() by {
            assert(prev_occs[slot_spec(svs[k][p] as int)] == pre_mx.occ(
                slot_spec(svs[k][p] as int),
            ));
            assert(prev_occs[slot_spec(svs[k][q] as int)] == pre_mx.occ(
                slot_spec(svs[k][q] as int),
            ));
        }
        assert forall|p: int| 0 <= p < q implies prev_occs[slot_spec(
            #[trigger] svs[k][p] as int,
        )].len() > prev_occs[slot_spec(svs[k][q] as int)].len() by {
            assert(prev_occs[slot_spec(svs[k][p] as int)] == pre_mx.occ(
                slot_spec(svs[k][p] as int),
            ));
            assert(prev_occs[slot_spec(svs[k][q] as int)] == pre_mx.occ(
                slot_spec(svs[k][q] as int),
            ));
        }
        lemma_first_min_unique(svs[k], prev_occs, q);
        let sl = slot_spec(svs[k][q] as int);
        assert(fwd_occs(svs, slots0, k + 1) == prev_occs.update(sl, prev_occs[sl].push(
            (k) as usize,
        )));
        assert(occs_view(now_mx) =~= prev_occs.update(sl, prev_occs[sl].push((k) as usize))) by {
            assert forall|ss: int| 0 <= ss < slots0 implies occs_view(now_mx)[ss]
                == prev_occs.update(sl, prev_occs[sl].push((k) as usize))[ss] by {
                assert(occs_view(now_mx)[ss] == now_mx.occ(ss));
                assert(prev_occs[ss] == pre_mx.occ(ss));
                if ss != sl {
                    assert(now_mx.occ(ss) == pre_mx.occ(ss));
                } else {
                    assert(now_mx.occ(sl) == pre_mx.occ(sl).push((k) as usize));
                }
            }
        }
    }
    lemma_fwd_examined_total_nonneg(svs, slots0, k);
    lemma_fwd_examined_nonneg(svs, prev_occs, svs[k], 0);
}

/// One step of the forward driver maintains the pass invariants: the matrix
/// shape and full connection at `k + 1`, soundness (garbage covered by a
/// live subsumer) and freeness among the processed clauses.
#[verifier::spinoff_prover]
#[verifier::rlimit(100)]
proof fn lemma_fwd_pass_step(pre: SATContext, now: SATContext, k0: usize, r: bool)
    requires
        pre.formula.wf(),
        now.formula.wf(),
        (k0 as int) < pre.formula.clauses@.len(),
        now.formula.clauses@.len() == pre.formula.clauses@.len(),
        sorted_asc(pre.formula.clauses@),
        fwd_matrix_ok(pre.formula.matrix, pre.formula.clauses@, k0 as int),
        occ_lens_le(pre.formula.matrix, k0 as int),
        fwd_connected(pre.formula.matrix, pre.formula.clauses@, k0 as int),
        garbage_covered(pre.formula.clauses@),
        processed_free(pre.formula.clauses@, k0 as int),
        forall|i: int|
            k0 as int <= i < pre.formula.clauses@.len() ==> !(
            #[trigger] pre.formula.clauses@[i]).garbage,
        now.formula.variables == pre.formula.variables,
        // what the check and the optional connection did
        r == exists|d: int|
            0 <= d < k0 as int && !(#[trigger] pre.formula.clauses@[d]).garbage && subsumes(
                lits_at(pre.formula, d),
                lits_at(pre.formula, k0 as int),
            ),
        now.formula.clauses@[k0 as int].garbage == r,
        lits_at(now.formula, k0 as int) == lits_at(pre.formula, k0 as int),
        forall|i: int|
            0 <= i < pre.formula.clauses@.len() && i != k0 as int
                ==> #[trigger] now.formula.clauses@[i] == pre.formula.clauses@[i],
        !r ==> now.formula.clauses@ == pre.formula.clauses@,
        r ==> now.formula.matrix == pre.formula.matrix,
        now.formula.matrix.slots() == pre.formula.matrix.slots(),
        !r ==> lits_at(pre.formula, k0 as int).len() > 0 && exists|q: int|
            0 <= q < lits_at(pre.formula, k0 as int).len() && now.formula.matrix.occ(
                slot_spec(#[trigger] lits_at(pre.formula, k0 as int)[q] as int),
            ) =~= pre.formula.matrix.occ(
                slot_spec(lits_at(pre.formula, k0 as int)[q] as int),
            ).push(k0) && (forall|ss: int|
                0 <= ss < pre.formula.matrix.slots() && ss != slot_spec(
                    lits_at(pre.formula, k0 as int)[q] as int,
                ) ==> now.formula.matrix.occ(ss) =~= pre.formula.matrix.occ(ss)),
    ensures
        fwd_matrix_ok(now.formula.matrix, now.formula.clauses@, k0 as int + 1),
        occ_lens_le(now.formula.matrix, k0 as int + 1),
        fwd_connected(now.formula.matrix, now.formula.clauses@, k0 as int + 1),
        garbage_covered(now.formula.clauses@),
        processed_free(now.formula.clauses@, k0 as int + 1),
        sorted_asc(now.formula.clauses@),
{
            let cs = now.formula.clauses@;
            let pcs = pre.formula.clauses@;
            let mx = now.formula.matrix;
            let k = k0 as int;
            let c = lits_at(pre.formula, k);
            if r {
                // the clause was flagged garbage; the matrix is unchanged
                assert(now.formula.matrix == pre.formula.matrix);
                assert forall|s: int, p: int|
                    0 <= s < mx.slots() && 0 <= p < mx.occ(s).len() implies {
                    let id = #[trigger] mx.occ(s)[p] as int;
                    &&& 0 <= id < k + 1
                    &&& !cs[id].garbage
                    &&& exists|q: int|
                        0 <= q < cs[id].literals@.len() && slot_spec(
                            #[trigger] cs[id].literals@[q] as int,
                        ) == s
                } by {
                    let id = mx.occ(s)[p] as int;
                    assert(0 <= id < k);
                    assert(!pcs[id].garbage);
                    assert(cs[id] == pcs[id]);
                }
                assert forall|id: int| 0 <= id < k + 1 && !(#[trigger] cs[id]).garbage implies
                    exists|q: int|
                    0 <= q < cs[id].literals@.len() && mx.occ(
                        slot_spec(#[trigger] cs[id].literals@[q] as int),
                    ).contains(id as usize) by {
                    assert(id != k);
                    assert(cs[id] == pcs[id]);
                }
                // soundness: the new garbage clause has a live subsumer; old
                // garbage keeps one (its old witness, or the new subsumer by
                // transitivity)
                let d = choose|d: int|
                    0 <= d < k && !(#[trigger] pcs[d]).garbage && subsumes(lits_at(pre.formula, d), c);
                assert forall|i: int| 0 <= i < cs.len() && (#[trigger] cs[i]).garbage implies
                    exists|j: int|
                    0 <= j < cs.len() && !(#[trigger] cs[j]).garbage && subsumes(
                        cs[j].literals@,
                        cs[i].literals@,
                    ) by {
                    if i == k {
                        assert(!cs[d].garbage);
                        assert(subsumes(cs[d].literals@, cs[i].literals@));
                    } else {
                        assert(pcs[i].garbage);
                        let j = choose|j: int|
                            0 <= j < pcs.len() && !(#[trigger] pcs[j]).garbage && subsumes(
                                pcs[j].literals@,
                                pcs[i].literals@,
                            );
                        if j == k {
                            crate::lits::lemma_subsumes_trans(
                                cs[d].literals@,
                                c,
                                cs[i].literals@,
                            );
                            assert(!cs[d].garbage);
                        } else {
                            assert(!cs[j].garbage);
                            assert(subsumes(cs[j].literals@, cs[i].literals@));
                        }
                    }
                }
                assert(processed_free(cs, k + 1)) by {
                    assert forall|i: int, j: int|
                        0 <= i < k + 1 && 0 <= j < k + 1 && i != j && !(#[trigger] cs[i]).garbage
                            && !(#[trigger] cs[j]).garbage implies !subsumes(
                        cs[i].literals@,
                        cs[j].literals@,
                    ) by {
                        assert(i != k && j != k);
                        assert(cs[i] == pcs[i] && cs[j] == pcs[j]);
                    }
                }
            } else {
                // the clause stayed live and was connected on one literal
                assert(pre.formula.clauses@ == cs);
                let q0 = choose|q: int|
                    0 <= q < c.len() && mx.occ(slot_spec(#[trigger] c[q] as int)) =~= pre.formula.matrix.occ(
                        slot_spec(c[q] as int),
                    ).push(k0) && (forall|s: int|
                        0 <= s < pre.formula.matrix.slots() && s != slot_spec(c[q] as int)
                            ==> mx.occ(s) =~= pre.formula.matrix.occ(s));
                let s0 = slot_spec(c[q0] as int);
                assert forall|s: int, p: int|
                    0 <= s < mx.slots() && 0 <= p < mx.occ(s).len() implies {
                    let id = #[trigger] mx.occ(s)[p] as int;
                    &&& 0 <= id < k + 1
                    &&& !cs[id].garbage
                    &&& exists|q: int|
                        0 <= q < cs[id].literals@.len() && slot_spec(
                            #[trigger] cs[id].literals@[q] as int,
                        ) == s
                } by {
                    let id = mx.occ(s)[p] as int;
                    if s == s0 && p == mx.occ(s).len() - 1 {
                        assert(id == k);
                        assert(!cs[k].garbage);
                        assert(slot_spec(cs[k].literals@[q0] as int) == s);
                    } else {
                        if s == s0 {
                            assert(mx.occ(s)[p] == pre.formula.matrix.occ(s)[p]);
                        }
                        assert(0 <= id < k);
                    }
                }
                assert(occ_lens_le(mx, k + 1)) by {
                    assert forall|s: int| 0 <= s < mx.slots() implies #[trigger] mx.occ(s).len()
                        <= k + 1 by {
                        if s != s0 {
                            assert(mx.occ(s) =~= pre.formula.matrix.occ(s));
                        }
                    }
                }
                assert forall|id: int| 0 <= id < k + 1 && !(#[trigger] cs[id]).garbage implies
                    exists|q: int|
                    0 <= q < cs[id].literals@.len() && mx.occ(
                        slot_spec(#[trigger] cs[id].literals@[q] as int),
                    ).contains(id as usize) by {
                    if id == k {
                        assert(mx.occ(s0)[mx.occ(s0).len() - 1] == k0);
                        assert(mx.occ(slot_spec(cs[k].literals@[q0] as int)).contains(
                            (k as usize),
                        ));
                    } else {
                        let q = choose|q: int|
                            0 <= q < cs[id].literals@.len() && pre.formula.matrix.occ(
                                slot_spec(#[trigger] cs[id].literals@[q] as int),
                            ).contains(id as usize);
                        let so = slot_spec(cs[id].literals@[q] as int);
                        assert(0 <= so < mx.slots()) by {
                            assert(clause_ok(cs[id].literals@, now.formula.variables as int));
                            crate::lits::lemma_slot_in_range(
                                cs[id].literals@[q],
                                now.formula.variables as int,
                            );
                        }
                        if so == s0 {
                            let pp = choose|pp: int|
                                0 <= pp < pre.formula.matrix.occ(so).len()
                                    && pre.formula.matrix.occ(so)[pp] == (id as usize);
                            assert(mx.occ(so)[pp] == (id as usize));
                        } else {
                            assert(mx.occ(so) =~= pre.formula.matrix.occ(so));
                        }
                        assert(mx.occ(so).contains(id as usize));
                    }
                }
                // freeness: nothing live below subsumes the new clause, and
                // it subsumes nothing live below (lengths and sets)
                assert(processed_free(cs, k + 1)) by {
                    assert forall|i: int, j: int|
                        0 <= i < k + 1 && 0 <= j < k + 1 && i != j && !(#[trigger] cs[i]).garbage
                            && !(#[trigger] cs[j]).garbage implies !subsumes(
                        cs[i].literals@,
                        cs[j].literals@,
                    ) by {
                        if j == k {
                            assert(!(exists|d: int|
                                0 <= d < k && !(#[trigger] pcs[d]).garbage && subsumes(
                                    lits_at(pre.formula, d),
                                    c,
                                )));
                            assert(!subsumes(cs[i].literals@, c));
                        } else if i == k {
                            if subsumes(c, cs[j].literals@) {
                                assert(cs[j].literals@.len() <= c.len());
                                assert(clause_ok(c, now.formula.variables as int));
                                assert(clause_ok(cs[j].literals@, now.formula.variables as int));
                                crate::lits::lemma_subsumes_same_len(c, cs[j].literals@);
                                assert(subsumes(cs[j].literals@, c));
                                assert(false);
                            }
                        }
                    }
                }
            }
    assert(sorted_asc(now.formula.clauses@)) by {
        assert forall|i: int, j: int|
            0 <= i < j < now.formula.clauses@.len() implies (
        #[trigger] now.formula.clauses@[i]).literals@.len() <= (
        #[trigger] now.formula.clauses@[j]).literals@.len() by {
            if i != k0 as int {
                assert(now.formula.clauses@[i] == pre.formula.clauses@[i]);
            }
            if j != k0 as int {
                assert(now.formula.clauses@[j] == pre.formula.clauses@[j]);
            }
        }
    }
}

/// The forward driver: sort ascending by length, then try to subsume each
/// clause by the already connected shorter ones, connecting each survivor on
/// its least-occurring literal. Afterwards every garbage clause is subsumed
/// by a live one, and no live clause subsumes another.
#[verifier::rlimit(100)]
pub fn forward_subsumption(ctx: &mut SATContext)
    requires
        old(ctx).formula.wf(),
        all_clear(old(ctx).formula.marks@),
        old(ctx).formula.matrix.all_empty(),
        forall|i: int|
            0 <= i < old(ctx).formula.clauses@.len() ==> !(#[trigger] old(
                ctx,
            ).formula.clauses@[i]).garbage,
        !old(ctx).formula.empty_clause_exists,
        old(ctx).stats.subsumed == 0,
    ensures
        final (ctx).formula.wf(),
        final (ctx).formula.marks@.len() == old(ctx).formula.marks@.len(),
        all_clear(final (ctx).formula.marks@),
        final (ctx).formula.clauses@.len() == old(ctx).formula.clauses@.len(),
        views(final (ctx).formula.clauses@).to_multiset() == views(
            old(ctx).formula.clauses@,
        ).to_multiset(),
        sorted_asc(final (ctx).formula.clauses@),
        garbage_covered(final (ctx).formula.clauses@),
        processed_free(final (ctx).formula.clauses@, final (ctx).formula.clauses@.len() as int),
        final (ctx).stats.subsumed as int == garbage_count(final (ctx).formula.clauses@),
        // the store is the stable sort of the input, flags set exactly per
        // the pass; the matrix and the check counter are the pass's too
        same_lits(
            final (ctx).formula.clauses@,
            stable_sort_by_len(old(ctx).formula.clauses@, false),
        ),
        forall|i: int|
            0 <= i < final (ctx).formula.clauses@.len()
                ==> (#[trigger] final (ctx).formula.clauses@[i]).garbage == fwd_flags(
                views(stable_sort_by_len(old(ctx).formula.clauses@, false)),
                old(ctx).formula.clauses@.len() as int,
            )[i],
        occs_view(final (ctx).formula.matrix) == fwd_occs(
            views(stable_sort_by_len(old(ctx).formula.clauses@, false)),
            old(ctx).formula.matrix.slots(),
            old(ctx).formula.clauses@.len() as int,
        ),
        final (ctx).stats.checked as int == sat_add(
            old(ctx).stats.checked as int,
            fwd_examined_total(
                views(stable_sort_by_len(old(ctx).formula.clauses@, false)),
                old(ctx).formula.matrix.slots(),
                old(ctx).formula.clauses@.len() as int,
            ),
        ),
        fwd_matrix_ok(
            final (ctx).formula.matrix,
            final (ctx).formula.clauses@,
            final (ctx).formula.clauses@.len() as int,
        ),
        occ_lens_le(final (ctx).formula.matrix, final (ctx).formula.clauses@.len() as int),
        fwd_connected(
            final (ctx).formula.matrix,
            final (ctx).formula.clauses@,
            final (ctx).formula.clauses@.len() as int,
        ),
        final (ctx).formula.variables == old(ctx).formula.variables,
        final (ctx).formula.added_clauses == old(ctx).formula.added_clauses,
        final (ctx).formula.empty_clause_exists == old(ctx).formula.empty_clause_exists,
        final (ctx).config == old(ctx).config,
        final (ctx).stats.parsed == old(ctx).stats.parsed,
        final (ctx).stats.checked >= old(ctx).stats.checked,
{
    let ghost c0 = *old(ctx);
    // sort ascending by clause size
    sort_clauses_by_len(&mut ctx.formula.clauses, false);
    proof {
        assert forall|i: int| 0 <= i < ctx.formula.clauses@.len() implies clause_ok(
            (#[trigger] ctx.formula.clauses@[i]).literals@,
            ctx.formula.variables as int,
        ) && !ctx.formula.clauses@[i].garbage && ctx.formula.clauses@[i].literals@.len() > 0 by {
            assert(ctx.formula.clauses@.contains(ctx.formula.clauses@[i]));
            assert(c0.formula.clauses@.contains(ctx.formula.clauses@[i]));
            let k = choose|k: int|
                0 <= k < c0.formula.clauses@.len() && c0.formula.clauses@[k]
                    == ctx.formula.clauses@[i];
            assert(clause_ok(c0.formula.clauses@[k].literals@, c0.formula.variables as int));
        }
        crate::formula::lemma_garbage_count_all_live(ctx.formula.clauses@);
        crate::formula::lemma_map_values_multiset(
            ctx.formula.clauses@,
            c0.formula.clauses@,
            |c: Clause| c.literals@,
        );
    }
    let ghost sorted0 = ctx.formula.clauses@;
    let ghost svs = views(sorted0);
    let ghost slots0 = c0.formula.matrix.slots();
    proof {
        reveal_with_fuel(fwd_occs, 1);
        reveal_with_fuel(fwd_examined_total, 1);
        lemma_fwd_flags_frame(svs, 0);
        assert forall|ss: int| 0 <= ss < slots0 implies occs_view(ctx.formula.matrix)[ss]
            == empty_occs(slots0)[ss] by {
            assert(ctx.formula.matrix.occ(ss) =~= Seq::<usize>::empty());
        }
        assert(occs_view(ctx.formula.matrix) =~= fwd_occs(svs, slots0, 0));
        assert(sat_add(c0.stats.checked as int, 0) == c0.stats.checked as int);
    }
    let total = ctx.formula.clauses.len();
    let mut clause_id: usize = 0;
    while clause_id < total
        invariant
            clause_id <= total,
            c0 == *old(ctx),
            total as int == ctx.formula.clauses@.len(),
            ctx.formula.wf(),
            ctx.formula.marks@.len() == c0.formula.marks@.len(),
            all_clear(ctx.formula.marks@),
            same_lits(ctx.formula.clauses@, sorted0),
            sorted0 == stable_sort_by_len(c0.formula.clauses@, false),
            svs == views(sorted0),
            svs.len() == total as int,
            slots0 == c0.formula.matrix.slots(),
            slots0 == ctx.formula.matrix.slots(),
            forall|i: int|
                0 <= i < total as int ==> (#[trigger] ctx.formula.clauses@[i]).garbage
                    == fwd_flags(svs, clause_id as int)[i],
            occs_view(ctx.formula.matrix) == fwd_occs(svs, slots0, clause_id as int),
            ctx.stats.checked as int == sat_add(
                c0.stats.checked as int,
                fwd_examined_total(svs, slots0, clause_id as int),
            ),
            !ctx.formula.empty_clause_exists,
            views(sorted0).to_multiset() == views(c0.formula.clauses@).to_multiset(),
            sorted_asc(ctx.formula.clauses@),
            forall|i: int|
                clause_id as int <= i < total as int ==> !(
                #[trigger] ctx.formula.clauses@[i]).garbage,
            fwd_matrix_ok(ctx.formula.matrix, ctx.formula.clauses@, clause_id as int),
            occ_lens_le(ctx.formula.matrix, clause_id as int),
            fwd_connected(ctx.formula.matrix, ctx.formula.clauses@, clause_id as int),
            garbage_covered(ctx.formula.clauses@),
            processed_free(ctx.formula.clauses@, clause_id as int),
            ctx.stats.subsumed as int == garbage_count(ctx.formula.clauses@),
            ctx.formula.variables == c0.formula.variables,
            ctx.formula.added_clauses == c0.formula.added_clauses,
            ctx.formula.empty_clause_exists == c0.formula.empty_clause_exists,
            ctx.config == c0.config,
            ctx.stats.parsed == c0.stats.parsed,
            ctx.stats.checked >= c0.stats.checked,
        decreases total - clause_id,
    {
        let ghost pre = *ctx;
        let r = forward_subsumed(ctx, clause_id);
        if !r {
            proof {
                assert(lits_at(ctx.formula, clause_id as int).len() > 0);
                assert forall|s: int|
                    0 <= s < ctx.formula.matrix.slots() implies #[trigger] ctx.formula.matrix.occ(
                    s,
                ).len() < usize::MAX as int by {
                    assert(ctx.formula.matrix.occ(s).len() <= clause_id as int);
                }
            }
            connect_least_occuring(ctx, clause_id);
        }
        proof {
            lemma_fwd_pass_step(pre, *ctx, clause_id, r);
        }
        proof {
            // the step agrees with the pass model: flags, matrix, counter
            let k = clause_id as int;
            let c = lits_at(pre.formula, k);
            assert(views(pre.formula.clauses@) =~= svs) by {
                assert(forall|i: int|
                    0 <= i < pre.formula.clauses@.len() ==> (
                    #[trigger] pre.formula.clauses@[i]).literals@ == sorted0[i].literals@);
            }
            assert(c == svs[k]);
            assert forall|p: int| 0 <= p < svs[k].len() implies 0 <= slot_spec(
                #[trigger] svs[k][p] as int,
            ) < slots0 by {
                assert(clause_ok(c, pre.formula.variables as int));
                crate::lits::lemma_slot_in_range(c[p], pre.formula.variables as int);
            }
            if !r {
                let q = choose|q: int|
                    0 <= q < c.len() && ctx.formula.matrix.occ(
                        slot_spec(#[trigger] c[q] as int),
                    ) =~= pre.formula.matrix.occ(slot_spec(c[q] as int)).push(clause_id) && (
                    forall|ss: int|
                        0 <= ss < pre.formula.matrix.slots() && ss != slot_spec(c[q] as int)
                            ==> ctx.formula.matrix.occ(ss) =~= pre.formula.matrix.occ(ss)) && (
                    forall|p: int|
                        0 <= p < c.len() ==> pre.formula.matrix.occ(
                            slot_spec(#[trigger] c[p] as int),
                        ).len() >= pre.formula.matrix.occ(slot_spec(c[q] as int)).len()) && (
                    forall|p: int|
                        0 <= p < q ==> pre.formula.matrix.occ(
                            slot_spec(#[trigger] c[p] as int),
                        ).len() > pre.formula.matrix.occ(slot_spec(c[q] as int)).len());
                assert(fwd_step_connected(
                    svs,
                    slots0,
                    k,
                    pre.formula.matrix,
                    ctx.formula.matrix,
                    q,
                ));
            }
            lemma_fwd_model_step(
                svs,
                slots0,
                k,
                pre.formula.clauses@,
                ctx.formula.clauses@,
                pre.formula.matrix,
                ctx.formula.matrix,
                r,
            );
            lemma_sat_chain(
                c0.stats.checked as int,
                fwd_examined_total(svs, slots0, k),
                fwd_examined(svs, fwd_occs(svs, slots0, k), svs[k]),
            );
        }
        clause_id = clause_id + 1;
    }
    proof {
        assert(views(ctx.formula.clauses@) =~= views(sorted0));
    }
}

} // verus!

verus! {

// ---------------------------------------------------------------------------
// Backward subsumption: does the current clause subsume an already connected
// one? Connected clauses are indexed on all their literals.
// ---------------------------------------------------------------------------
/// Matrix shape during a backward pass: every listed id is among the first
/// `k` clauses (garbage or not), filed under the slot of one of its
/// literals.
pub open spec fn bwd_matrix_ok(mx: crate::matrix::Matrix, cs: Seq<Clause>, k: int) -> bool {
    forall|s: int, p: int|
        0 <= s < mx.slots() && 0 <= p < mx.occ(s).len() ==> {
            let id = #[trigger] mx.occ(s)[p] as int;
            &&& 0 <= id < k
            &&& exists|q: int|
                0 <= q < cs[id].literals@.len() && slot_spec(
                    #[trigger] cs[id].literals@[q] as int,
                ) == s
        }
}

/// Every clause among the first `k` is filed under every one of its
/// literals.
pub open spec fn bwd_connected(mx: crate::matrix::Matrix, cs: Seq<Clause>, k: int) -> bool {
    forall|id: int, q: int|
        0 <= id < k && 0 <= q < cs[id].literals@.len() ==> mx.occ(
            slot_spec(#[trigger] cs[id].literals@[q] as int),
        ).contains(id as usize)
}

/// How many entries of `s` lie in `c`.
pub open spec fn count_in(s: Seq<i32>, c: Seq<i32>) -> int
    decreases s.len(),
{
    if s.len() == 0 {
        0
    } else {
        count_in(s.drop_last(), c) + if c.contains(s.last()) {
            1int
        } else {
            0int
        }
    }
}

/// For a duplicate-free `s`, the count is the size of the set intersection.
pub proof fn lemma_count_in_inter(s: Seq<i32>, c: Seq<i32>)
    requires
        s.no_duplicates(),
    ensures
        s.to_set().intersect(c.to_set()).finite(),
        count_in(s, c) == s.to_set().intersect(c.to_set()).len(),
    decreases s.len(),
{
    if s.len() == 0 {
        assert(s.to_set() =~= Set::<i32>::empty());
        assert(s.to_set().intersect(c.to_set()) =~= Set::<i32>::empty());
    } else {
        let dl = s.drop_last();
        let x = s.last();
        assert(dl.no_duplicates());
        lemma_count_in_inter(dl, c);
        assert forall|a: i32| #![auto] s.contains(a) implies dl.contains(a) || a == x by {
            let i = choose|i: int| 0 <= i < s.len() && s[i] == a;
            if i < s.len() - 1 {
                assert(dl[i] == a);
            }
        }
        assert forall|a: i32| #![auto] dl.contains(a) implies s.contains(a) by {
            let i = choose|i: int| 0 <= i < dl.len() && dl[i] == a;
            assert(s[i] == a);
        }
        assert(s.contains(x)) by {
            assert(s[s.len() - 1] == x);
        }
        assert(s.to_set() =~= dl.to_set().insert(x));
        assert(!dl.contains(x));
        assert(!dl.to_set().contains(x));
        if c.contains(x) {
            assert(c.to_set().contains(x));
            assert(s.to_set().intersect(c.to_set()) =~= dl.to_set().intersect(
                c.to_set(),
            ).insert(x));
            assert(!dl.to_set().intersect(c.to_set()).contains(x));
        } else {
            assert(!c.to_set().contains(x));
            assert(s.to_set().intersect(c.to_set()) =~= dl.to_set().intersect(c.to_set()));
        }
    }
}

/// For duplicate-free `s` and `c`, the count reaches `|c|` exactly when `c`
/// is contained in `s`.
pub proof fn lemma_count_in_full(s: Seq<i32>, c: Seq<i32>)
    requires
        s.no_duplicates(),
        c.no_duplicates(),
    ensures
        0 <= count_in(s, c) <= c.len(),
        count_in(s, c) == c.len() <==> subsumes(c, s),
{
    lemma_count_in_inter(s, c);
    c.unique_seq_to_set();
    let inter = s.to_set().intersect(c.to_set());
    assert(inter.subset_of(c.to_set()));
    vstd::set_lib::lemma_len_subset(inter, c.to_set());
    crate::lits::lemma_subsumes_is_subset(c, s);
    if count_in(s, c) == c.len() {
        if !c.to_set().subset_of(s.to_set()) {
            let x = choose|x: i32| c.to_set().contains(x) && !s.to_set().contains(x);
            assert(!inter.contains(x));
            inter.lemma_subset_not_in_lt(c.to_set(), x);
            assert(false);
        }
    }
    if subsumes(c, s) {
        assert(inter =~= c.to_set());
    }
}

/// Containment in a prefix extends to the whole sequence.
pub proof fn lemma_subsumes_take(c: Seq<i32>, s: Seq<i32>, t: int)
    requires
        0 <= t <= s.len(),
        subsumes(c, s.take(t)),
    ensures
        subsumes(c, s),
{
    assert forall|i: int| 0 <= i < c.len() implies s.contains(#[trigger] c[i]) by {
        let j = choose|j: int| 0 <= j < t && s.take(t)[j] == c[i];
        assert(s[j] == c[i]);
    }
}

/// Does clause `clause_id` subsume clauses already connected? Every live
/// connected clause whose literal set contains this clause's is flagged
/// garbage. The marks hold this clause during the scan and are zero again
/// on exit.
pub fn backward_subsume(ctx: &mut SATContext, clause_id: usize)
    requires
        old(ctx).formula.wf(),
        clause_id < old(ctx).formula.clauses@.len(),
        all_clear(old(ctx).formula.marks@),
        sorted_desc(old(ctx).formula.clauses@),
        bwd_matrix_ok(old(ctx).formula.matrix, old(ctx).formula.clauses@, clause_id as int),
        occ_lens_le(old(ctx).formula.matrix, clause_id as int),
        bwd_connected(old(ctx).formula.matrix, old(ctx).formula.clauses@, clause_id as int),
        forall|i: int|
            clause_id as int <= i < old(ctx).formula.clauses@.len() ==> !(#[trigger] old(
                ctx,
            ).formula.clauses@[i]).garbage,
        old(ctx).stats.subsumed as int == garbage_count(old(ctx).formula.clauses@),
    ensures
        final (ctx).formula.wf(),
        final (ctx).formula.marks@.len() == old(ctx).formula.marks@.len(),
        all_clear(final (ctx).formula.marks@),
        final (ctx).formula.matrix == old(ctx).formula.matrix,
        same_lits(final (ctx).formula.clauses@, old(ctx).formula.clauses@),
        final (ctx).formula.clauses@[clause_id as int] == old(
            ctx,
        ).formula.clauses@[clause_id as int],
        forall|d: int|
            0 <= d < old(ctx).formula.clauses@.len() && (#[trigger] old(
                ctx,
            ).formula.clauses@[d]).garbage ==> final (ctx).formula.clauses@[d].garbage,
        forall|d: int|
            0 <= d < old(ctx).formula.clauses@.len() && final (ctx).formula.clauses@[d].garbage
                && !(#[trigger] old(ctx).formula.clauses@[d]).garbage ==> 0 <= d
                < clause_id as int && subsumes(
                lits_at(old(ctx).formula, clause_id as int),
                lits_at(old(ctx).formula, d),
            ),
        lits_at(old(ctx).formula, clause_id as int).len() > 0 ==> forall|d: int|
            0 <= d < clause_id as int && !(#[trigger] old(ctx).formula.clauses@[d]).garbage
                && subsumes(
                lits_at(old(ctx).formula, clause_id as int),
                lits_at(old(ctx).formula, d),
            ) ==> final (ctx).formula.clauses@[d].garbage,
        lits_at(old(ctx).formula, clause_id as int).len() == 0 ==> *final (ctx) == *old(ctx),
        final (ctx).stats.subsumed as int == garbage_count(final (ctx).formula.clauses@),
        // the check counter grows by exactly the length of the scanned list:
        // the occurrence list of the clause's first least-occurring literal
        lits_at(old(ctx).formula, clause_id as int).len() > 0 ==> exists|q: int|
            0 <= q < lits_at(old(ctx).formula, clause_id as int).len() && (forall|p: int|
                0 <= p < lits_at(old(ctx).formula, clause_id as int).len()
                    ==> old(ctx).formula.matrix.occ(
                    slot_spec(#[trigger] lits_at(old(ctx).formula, clause_id as int)[p] as int),
                ).len() >= old(ctx).formula.matrix.occ(
                    slot_spec(lits_at(old(ctx).formula, clause_id as int)[q] as int),
                ).len()) && (forall|p: int|
                0 <= p < q ==> old(ctx).formula.matrix.occ(
                    slot_spec(#[trigger] lits_at(old(ctx).formula, clause_id as int)[p] as int),
                ).len() > old(ctx).formula.matrix.occ(
                    slot_spec(lits_at(old(ctx).formula, clause_id as int)[q] as int),
                ).len()) && final (ctx).stats.checked as int == sat_add(
                old(ctx).stats.checked as int,
                old(ctx).formula.matrix.occ(
                    slot_spec(#[trigger] lits_at(old(ctx).formula, clause_id as int)[q] as int),
                ).len() as int,
            ),
        final (ctx).stats.checked >= old(ctx).stats.checked,
        final (ctx).stats.parsed == old(ctx).stats.parsed,
        final (ctx).formula.variables == old(ctx).formula.variables,
        final (ctx).formula.added_clauses == old(ctx).formula.added_clauses,
        final (ctx).formula.empty_clause_exists == old(ctx).formula.empty_clause_exists,
        final (ctx).config == old(ctx).config,
{
    let ghost c0 = *old(ctx);
    let ghost c = lits_at(old(ctx).formula, clause_id as int);
    let mut min_occs: usize = usize::MAX;
    proof {
        assert forall|s: int| 0 <= s < ctx.formula.matrix.slots() implies
            #[trigger] ctx.formula.matrix.occ(s).len() < usize::MAX as int by {
            assert(ctx.formula.matrix.occ(s).len() <= clause_id as int);
        }
    }
    let min_lit = least_occuring(ctx, clause_id, &mut min_occs);
    if min_lit == 0 {
        // the clause is empty: nothing to mark, nothing to scan
        return ;
    }
    if min_occs == 0 {
        // the least-occurring literal has an empty list, and a connected
        // superset of this clause would be filed there; nothing is scanned
        proof {
            let q = choose|q: int|
                0 <= q < c.len() && min_lit == c[q] && min_occs as int
                    == ctx.formula.matrix.occ(slot_spec(#[trigger] c[q] as int)).len() && (forall|
                p: int,
            |
                0 <= p < q ==> ctx.formula.matrix.occ(slot_spec(#[trigger] c[p] as int)).len()
                    > min_occs as int);
            assert(sat_add(ctx.stats.checked as int, 0) == ctx.stats.checked as int);
            assert forall|d: int|
                0 <= d < clause_id as int && !(#[trigger] ctx.formula.clauses@[d]).garbage
                    && subsumes(c, lits_at(ctx.formula, d)) implies false by {
                assert(c.contains(c[q]));
                assert(lits_at(ctx.formula, d).contains(min_lit));
                let qd = choose|qd: int|
                    0 <= qd < lits_at(ctx.formula, d).len() && lits_at(ctx.formula, d)[qd]
                        == min_lit;
                assert(ctx.formula.matrix.occ(
                    slot_spec(ctx.formula.clauses@[d].literals@[qd] as int),
                ).contains(d as usize));
                assert(ctx.formula.matrix.occ(slot_spec(min_lit as int)).len() > 0);
                assert(ctx.formula.matrix.occ(slot_spec(c[q] as int)).len() >= min_occs as int);
            }
        }
        return ;
    }
    mark_clause(ctx, clause_id);
    let ghost s = slot_spec(min_lit as int);
    proof {
        let q = choose|q: int| 0 <= q < c.len() && min_lit == c[q];
        assert(clause_ok(c, ctx.formula.variables as int));
        assert(lit_ok(c[q], ctx.formula.variables as int));
        crate::lits::lemma_slot_in_range(min_lit, ctx.formula.variables as int);
    }
    let m = ctx.formula.matrix.occ_len(min_lit);
    let clen = ctx.formula.clauses[clause_id].literals.len();
    let mut p: usize = 0;
    while p < m
        invariant
            p <= m,
            c0 == *old(ctx),
            clause_id < ctx.formula.clauses@.len(),
            ctx.formula.wf(),
            c == lits_at(c0.formula, clause_id as int),
            c == lits_at(ctx.formula, clause_id as int),
            clen as int == c.len(),
            c.len() > 0,
            min_lit != 0,
            s == slot_spec(min_lit as int),
            0 <= s < ctx.formula.matrix.slots(),
            m as int == ctx.formula.matrix.occ(s).len(),
            ctx.formula.matrix == c0.formula.matrix,
            same_lits(ctx.formula.clauses@, c0.formula.clauses@),
            sorted_desc(c0.formula.clauses@),
            bwd_matrix_ok(c0.formula.matrix, c0.formula.clauses@, clause_id as int),
            ctx.formula.clauses@[clause_id as int] == c0.formula.clauses@[clause_id as int],
            forall|d: int|
                0 <= d < c0.formula.clauses@.len() && (#[trigger] c0.formula.clauses@[d]).garbage
                    ==> ctx.formula.clauses@[d].garbage,
            forall|d: int|
                0 <= d < c0.formula.clauses@.len() && ctx.formula.clauses@[d].garbage && !(
                #[trigger] c0.formula.clauses@[d]).garbage ==> 0 <= d < clause_id as int
                    && subsumes(c, lits_at(c0.formula, d)),
            forall|pp: int|
                0 <= pp < p as int ==> ((!(#[trigger] c0.formula.clauses@[ctx.formula.matrix.occ(
                    s,
                )[pp] as int]).garbage && subsumes(
                    c,
                    lits_at(c0.formula, ctx.formula.matrix.occ(s)[pp] as int),
                )) ==> ctx.formula.clauses@[ctx.formula.matrix.occ(s)[pp] as int].garbage),
            ctx.formula.marks@.len() == c0.formula.marks@.len(),
            marks_exact(ctx.formula.marks@, c),
            ctx.stats.subsumed as int == garbage_count(ctx.formula.clauses@),
            ctx.stats.checked as int == sat_add(c0.stats.checked as int, p as int),
            ctx.stats.parsed == c0.stats.parsed,
            ctx.formula.variables == c0.formula.variables,
            ctx.formula.added_clauses == c0.formula.added_clauses,
            ctx.formula.empty_clause_exists == c0.formula.empty_clause_exists,
            ctx.config == c0.config,
        decreases m - p,
    {
        let d_id = ctx.formula.matrix.occ_at(min_lit, p);
        proof {
            assert(ctx.formula.matrix.occ(s)[p as int] == d_id);
            assert(0 <= (d_id as int) < clause_id as int);
        }
        ctx.stats.checked = bump(ctx.stats.checked);
        if ctx.formula.clauses[d_id].garbage {
            p = p + 1;
        } else {
            let ghost dlits = lits_at(c0.formula, d_id as int);
            proof {
                assert(dlits == lits_at(ctx.formula, d_id as int));
                // an earlier clause of the descending order is at least as
                // long as the current one
                assert(c.len() <= dlits.len());
            }
            let dn = ctx.formula.clauses[d_id].literals.len();
            let mut marked: usize = 0;
            let mut t: usize = 0;
            proof {
                assert(dlits.take(0) =~= Seq::<i32>::empty());
            }
            while t < dn && marked < clen
                invariant
                    t <= dn,
                    marked <= clen,
                    clause_id < ctx.formula.clauses@.len(),
                    d_id < ctx.formula.clauses@.len(),
                    ctx.formula.wf(),
                    c == lits_at(ctx.formula, clause_id as int),
                    dlits == lits_at(ctx.formula, d_id as int),
                    dn as int == dlits.len(),
                    clen as int == c.len(),
                    marks_exact(ctx.formula.marks@, c),
                    marked as int == count_in(dlits.take(t as int), c),
                decreases dn - t,
            {
                let l = ctx.formula.clauses[d_id].literals[t];
                proof {
                    assert(clause_ok(dlits, ctx.formula.variables as int));
                    crate::lits::lemma_slot_in_range(l, ctx.formula.variables as int);
                    assert(forall|i: int| 0 <= i < c.len() ==> #[trigger] c[i] != 0) by {
                        assert(clause_ok(c, ctx.formula.variables as int));
                    }
                    crate::marks::lemma_marks_exact_contains(ctx.formula.marks@, c, l);
                    assert(dlits.take(t + 1).drop_last() =~= dlits.take(t as int));
                    assert(dlits.take(t + 1).last() == dlits[t as int]);
                }
                if ctx.formula.marks.is_marked(l) {
                    marked = marked + 1;
                }
                t = t + 1;
            }
            proof {
                assert(clause_ok(dlits, ctx.formula.variables as int));
                assert(clause_ok(c, ctx.formula.variables as int));
                assert(dlits.take(t as int).no_duplicates()) by {
                    assert(forall|a: int, b: int|
                        0 <= a < b < t as int ==> dlits.take(t as int)[a] == dlits[a]
                            && dlits.take(t as int)[b] == dlits[b]);
                }
                lemma_count_in_full(dlits.take(t as int), c);
            }
            if marked == clen {
                proof {
                    assert(subsumes(c, dlits.take(t as int)));
                    lemma_subsumes_take(c, dlits, t as int);
                    assert(subsumes(c, dlits));
                }
                let ghost pre_cs = ctx.formula.clauses@;
                let garbage_ref = &mut ctx.formula.clauses[d_id].garbage;
                *garbage_ref = true;
                proof {
                    assert(ctx.formula.clauses@ =~= pre_cs.update(
                        d_id as int,
                        Clause { garbage: true, literals: pre_cs[d_id as int].literals },
                    ));
                    crate::formula::lemma_garbage_count_update(
                        pre_cs,
                        d_id as int,
                        ctx.formula.clauses@[d_id as int],
                    );
                    crate::formula::lemma_garbage_count_bounds(ctx.formula.clauses@);
                    assert(ctx.formula.clauses@.len() <= usize::MAX as int);
                }
                ctx.stats.subsumed = ctx.stats.subsumed + 1;
            } else {
                proof {
                    assert(t == dn);
                    assert(dlits.take(t as int) =~= dlits);
                    assert(count_in(dlits, c) < c.len());
                    assert(!subsumes(c, dlits));
                }
            }
            p = p + 1;
        }
    }
    unmark_clause(ctx, clause_id);
    proof {
        // the whole list was scanned, one check per entry
        let q = choose|q: int|
            0 <= q < c.len() && min_lit == c[q] && min_occs as int == c0.formula.matrix.occ(
                slot_spec(#[trigger] c[q] as int),
            ).len() && (forall|p: int|
                0 <= p < q ==> c0.formula.matrix.occ(slot_spec(#[trigger] c[p] as int)).len()
                    > min_occs as int);
        assert(ctx.stats.checked as int == sat_add(
            c0.stats.checked as int,
            c0.formula.matrix.occ(slot_spec(c[q] as int)).len() as int,
        ));
        // completeness: every live connected superset sits in the scanned
        // list and was flagged
        assert forall|d: int|
            0 <= d < clause_id as int && !(#[trigger] c0.formula.clauses@[d]).garbage && subsumes(
                c,
                lits_at(c0.formula, d),
            ) implies ctx.formula.clauses@[d].garbage by {
            let q = choose|q: int| 0 <= q < c.len() && min_lit == c[q];
            assert(c.contains(c[q]));
            assert(lits_at(c0.formula, d).contains(min_lit));
            let qd = choose|qd: int|
                0 <= qd < lits_at(c0.formula, d).len() && lits_at(c0.formula, d)[qd] == min_lit;
            assert(c0.formula.matrix.occ(
                slot_spec(c0.formula.clauses@[d].literals@[qd] as int),
            ).contains(d as usize));
            let pp = choose|pp: int|
                0 <= pp < c0.formula.matrix.occ(s).len() && c0.formula.matrix.occ(s)[pp] == (
                d as usize);
            assert(ctx.formula.matrix.occ(s)[pp] == (d as usize));
        }
    }
}

} // verus!

verus! {

/// A clause of the backward pass ends up garbage exactly when some later
/// clause of the (sorted) store is contained in it.
pub open spec fn bwd_flag(vs: Seq<Seq<i32>>, i: int) -> bool {
    exists|cc: int| i < cc < vs.len() && subsumes(#[trigger] vs[cc], vs[i])
}

/// Occurrence lists after a backward pass has processed `k` clauses: every
/// clause, garbage or not, is filed under every one of its literals.
#[verifier::opaque]
pub open spec fn bwd_occs(vs: Seq<Seq<i32>>, slots: int, k: int) -> Seq<Seq<usize>>
    decreases k,
{
    if k <= 0 {
        empty_occs(slots)
    } else {
        let prev = bwd_occs(vs, slots, k - 1);
        Seq::new(
            slots as nat,
            |s: int|
                if exists|q: int|
                    0 <= q < vs[k - 1].len() && slot_spec(#[trigger] vs[k - 1][q] as int) == s {
                    prev[s].push((k - 1) as usize)
                } else {
                    prev[s]
                },
        )
    }
}

/// Total candidates a backward pass examines over the first `k` clauses: for
/// each clause, the whole list of its first least-occurring literal.
#[verifier::opaque]
pub open spec fn bwd_checked_total(vs: Seq<Seq<i32>>, slots: int, k: int) -> int
    decreases k,
{
    if k <= 0 {
        0
    } else {
        let prev = bwd_occs(vs, slots, k - 1);
        bwd_checked_total(vs, slots, k - 1) + (if vs[k - 1].len() == 0 {
            0
        } else {
            prev[slot_spec(vs[k - 1][first_min_idx(vs[k - 1], prev)] as int)].len() as int
        })
    }
}

pub proof fn lemma_bwd_checked_total_nonneg(vs: Seq<Seq<i32>>, slots: int, k: int)
    ensures
        0 <= bwd_checked_total(vs, slots, k),
    decreases k,
{
    reveal_with_fuel(bwd_checked_total, 1);
    if k > 0 {
        lemma_bwd_checked_total_nonneg(vs, slots, k - 1);
    }
}

/// One step of the backward pass agrees with the model: connecting the
/// clause on all its literals yields the model's lists, and the scan
/// examined exactly the model's count.
proof fn lemma_bwd_model_step(
    svs: Seq<Seq<i32>>,
    slots0: int,
    k: int,
    pre_mx: crate::matrix::Matrix,
    now_mx: crate::matrix::Matrix,
    q: int,
)
    requires
        0 <= k < svs.len(),
        occs_view(pre_mx) == bwd_occs(svs, slots0, k),
        pre_mx.slots() == slots0,
        now_mx.slots() == slots0,
        forall|p: int|
            0 <= p < svs[k].len() ==> 0 <= slot_spec(#[trigger] svs[k][p] as int) < slots0,
        svs[k].len() > 0,
        0 <= q < svs[k].len(),
        forall|p: int|
            0 <= p < svs[k].len() ==> pre_mx.occ(slot_spec(#[trigger] svs[k][p] as int)).len()
                >= pre_mx.occ(slot_spec(svs[k][q] as int)).len(),
        forall|p: int|
            0 <= p < q ==> pre_mx.occ(slot_spec(#[trigger] svs[k][p] as int)).len() > pre_mx.occ(
                slot_spec(svs[k][q] as int),
            ).len(),
        forall|ss: int|
            0 <= ss < slots0 ==> #[trigger] now_mx.occ(ss) == (if exists|qq: int|
                0 <= qq < svs[k].len() && slot_spec(#[trigger] svs[k][qq] as int) == ss {
                pre_mx.occ(ss).push(k as usize)
            } else {
                pre_mx.occ(ss)
            }),
    ensures
        occs_view(now_mx) == bwd_occs(svs, slots0, k + 1),
        bwd_checked_total(svs, slots0, k + 1) == bwd_checked_total(svs, slots0, k) + pre_mx.occ(
            slot_spec(svs[k][q] as int),
        ).len(),
        0 <= bwd_checked_total(svs, slots0, k),
{
    reveal_with_fuel(bwd_occs, 1);
    reveal_with_fuel(bwd_checked_total, 1);
    let prev = bwd_occs(svs, slots0, k);
    assert forall|p: int| 0 <= p < svs[k].len() implies prev[slot_spec(
        #[trigger] svs[k][p] as int,
    )].len() >= prev[slot_spec(svs[k][q] as int)].len() by {
        assert(prev[slot_spec(svs[k][p] as int)] == pre_mx.occ(slot_spec(svs[k][p] as int)));
        assert(prev[slot_spec(svs[k][q] as int)] == pre_mx.occ(slot_spec(svs[k][q] as int)));
    }
    assert forall|p: int| 0 <= p < q implies prev[slot_spec(#[trigger] svs[k][p] as int)].len()
        > prev[slot_spec(svs[k][q] as int)].len() by {
        assert(prev[slot_spec(svs[k][p] as int)] == pre_mx.occ(slot_spec(svs[k][p] as int)));
        assert(prev[slot_spec(svs[k][q] as int)] == pre_mx.occ(slot_spec(svs[k][q] as int)));
    }
    lemma_first_min_unique(svs[k], prev, q);
    assert(bwd_checked_total(svs, slots0, k + 1) == bwd_checked_total(svs, slots0, k) + prev[
        slot_spec(svs[k][q] as int)].len());
    assert(prev[slot_spec(svs[k][q] as int)] == pre_mx.occ(slot_spec(svs[k][q] as int)));
    lemma_bwd_checked_total_nonneg(svs, slots0, k);
    assert(occs_view(now_mx) =~= bwd_occs(svs, slots0, k + 1)) by {
        assert forall|ss: int| 0 <= ss < slots0 implies occs_view(now_mx)[ss] == bwd_occs(
            svs,
            slots0,
            k + 1,
        )[ss] by {
            assert(occs_view(now_mx)[ss] == now_mx.occ(ss));
            assert(prev[ss] == pre_mx.occ(ss));
        }
    }
}

/// The backward driver: sort descending by length; each clause first flags
/// every connected superset of itself as garbage, then is connected on all
/// its literals. Afterwards every garbage clause is subsumed by a live one,
/// and no live clause subsumes another.
pub fn backward_subsumption(ctx: &mut SATContext)
    requires
        old(ctx).formula.wf(),
        all_clear(old(ctx).formula.marks@),
        old(ctx).formula.matrix.all_empty(),
        forall|i: int|
            0 <= i < old(ctx).formula.clauses@.len() ==> !(#[trigger] old(
                ctx,
            ).formula.clauses@[i]).garbage,
        !old(ctx).formula.empty_clause_exists,
        old(ctx).stats.subsumed == 0,
    ensures
        final (ctx).formula.wf(),
        final (ctx).formula.marks@.len() == old(ctx).formula.marks@.len(),
        all_clear(final (ctx).formula.marks@),
        final (ctx).formula.clauses@.len() == old(ctx).formula.clauses@.len(),
        views(final (ctx).formula.clauses@).to_multiset() == views(
            old(ctx).formula.clauses@,
        ).to_multiset(),
        sorted_desc(final (ctx).formula.clauses@),
        garbage_covered(final (ctx).formula.clauses@),
        processed_free(final (ctx).formula.clauses@, final (ctx).formula.clauses@.len() as int),
        final (ctx).stats.subsumed as int == garbage_count(final (ctx).formula.clauses@),
        // the store is the stable sort of the input, each clause flagged
        // exactly when a later one is contained in it; the matrix holds the
        // full indexing and the counter the pass's scan lengths
        same_lits(
            final (ctx).formula.clauses@,
            stable_sort_by_len(old(ctx).formula.clauses@, true),
        ),
        forall|i: int|
            0 <= i < final (ctx).formula.clauses@.len()
                ==> (#[trigger] final (ctx).formula.clauses@[i]).garbage == bwd_flag(
                views(stable_sort_by_len(old(ctx).formula.clauses@, true)),
                i,
            ),
        occs_view(final (ctx).formula.matrix) == bwd_occs(
            views(stable_sort_by_len(old(ctx).formula.clauses@, true)),
            old(ctx).formula.matrix.slots(),
            old(ctx).formula.clauses@.len() as int,
        ),
        final (ctx).stats.checked as int == sat_add(
            old(ctx).stats.checked as int,
            bwd_checked_total(
                views(stable_sort_by_len(old(ctx).formula.clauses@, true)),
                old(ctx).formula.matrix.slots(),
                old(ctx).formula.clauses@.len() as int,
            ),
        ),
        bwd_matrix_ok(
            final (ctx).formula.matrix,
            final (ctx).formula.clauses@,
            final (ctx).formula.clauses@.len() as int,
        ),
        occ_lens_le(final (ctx).formula.matrix, final (ctx).formula.clauses@.len() as int),
        bwd_connected(
            final (ctx).formula.matrix,
            final (ctx).formula.clauses@,
            final (ctx).formula.clauses@.len() as int,
        ),
        final (ctx).formula.variables == old(ctx).formula.variables,
        final (ctx).formula.added_clauses == old(ctx).formula.added_clauses,
        final (ctx).formula.empty_clause_exists == old(ctx).formula.empty_clause_exists,
        final (ctx).config == old(ctx).config,
        final (ctx).stats.parsed == old(ctx).stats.parsed,
        final (ctx).stats.checked >= old(ctx).stats.checked,
{
    let ghost c0 = *old(ctx);
    // sort descending by clause size
    sort_clauses_by_len(&mut ctx.formula.clauses, true);
    proof {
        assert forall|i: int| 0 <= i < ctx.formula.clauses@.len() implies clause_ok(
            (#[trigger] ctx.formula.clauses@[i]).literals@,
            ctx.formula.variables as int,
        ) && !ctx.formula.clauses@[i].garbage && ctx.formula.clauses@[i].literals@.len() > 0 by {
            assert(ctx.formula.clauses@.contains(ctx.formula.clauses@[i]));
            assert(c0.formula.clauses@.contains(ctx.formula.clauses@[i]));
            let k = choose|k: int|
                0 <= k < c0.formula.clauses@.len() && c0.formula.clauses@[k]
                    == ctx.formula.clauses@[i];
            assert(clause_ok(c0.formula.clauses@[k].literals@, c0.formula.variables as int));
        }
        crate::formula::lemma_garbage_count_all_live(ctx.formula.clauses@);
        crate::formula::lemma_map_values_multiset(
            ctx.formula.clauses@,
            c0.formula.clauses@,
            |c: Clause| c.literals@,
        );
    }
    let ghost sorted0 = ctx.formula.clauses@;
    let ghost svs = views(sorted0);
    let ghost slots0 = c0.formula.matrix.slots();
    proof {
        reveal_with_fuel(bwd_occs, 1);
        reveal_with_fuel(bwd_checked_total, 1);
        assert forall|ss: int| 0 <= ss < slots0 implies occs_view(ctx.formula.matrix)[ss]
            == empty_occs(slots0)[ss] by {
            assert(ctx.formula.matrix.occ(ss) =~= Seq::<usize>::empty());
        }
        assert(occs_view(ctx.formula.matrix) =~= bwd_occs(svs, slots0, 0));
        assert(sat_add(c0.stats.checked as int, 0) == c0.stats.checked as int);
    }
    let total = ctx.formula.clauses.len();
    let mut clause_id: usize = 0;
    while clause_id < total
        invariant
            clause_id <= total,
            c0 == *old(ctx),
            total as int == ctx.formula.clauses@.len(),
            ctx.formula.wf(),
            ctx.formula.marks@.len() == c0.formula.marks@.len(),
            all_clear(ctx.formula.marks@),
            same_lits(ctx.formula.clauses@, sorted0),
            sorted0 == stable_sort_by_len(c0.formula.clauses@, true),
            svs == views(sorted0),
            svs.len() == total as int,
            slots0 == c0.formula.matrix.slots(),
            slots0 == ctx.formula.matrix.slots(),
            forall|i: int|
                0 <= i < total as int ==> (#[trigger] ctx.formula.clauses@[i]).garbage == exists|
                    cc: int,
                | i < cc < clause_id as int && subsumes(#[trigger] svs[cc], svs[i]),
            occs_view(ctx.formula.matrix) == bwd_occs(svs, slots0, clause_id as int),
            ctx.stats.checked as int == sat_add(
                c0.stats.checked as int,
                bwd_checked_total(svs, slots0, clause_id as int),
            ),
            !ctx.formula.empty_clause_exists,
            views(sorted0).to_multiset() == views(c0.formula.clauses@).to_multiset(),
            sorted_desc(ctx.formula.clauses@),
            forall|i: int|
                clause_id as int <= i < total as int ==> !(
                #[trigger] ctx.formula.clauses@[i]).garbage,
            bwd_matrix_ok(ctx.formula.matrix, ctx.formula.clauses@, clause_id as int),
            occ_lens_le(ctx.formula.matrix, clause_id as int),
            bwd_connected(ctx.formula.matrix, ctx.formula.clauses@, clause_id as int),
            garbage_covered(ctx.formula.clauses@),
            processed_free(ctx.formula.clauses@, clause_id as int),
            ctx.stats.subsumed as int == garbage_count(ctx.formula.clauses@),
            ctx.formula.variables == c0.formula.variables,
            ctx.formula.added_clauses == c0.formula.added_clauses,
            ctx.formula.empty_clause_exists == c0.formula.empty_clause_exists,
            ctx.config == c0.config,
            ctx.stats.parsed == c0.stats.parsed,
            ctx.stats.checked >= c0.stats.checked,
        decreases total - clause_id,
    {
        let ghost pre = *ctx;
        backward_subsume(ctx, clause_id);
        let ghost mid = *ctx;
        ctx.formula.connect_clause(clause_id);
        proof {
            let k = clause_id as int;
            let cs = ctx.formula.clauses@;
            let mx = ctx.formula.matrix;
            let c = lits_at(pre.formula, k);
            assert(cs == mid.formula.clauses@);
            assert(lits_at(mid.formula, k) == c);
            // the entries already present keep their shape
            assert forall|s: int, p: int|
                0 <= s < mid.formula.matrix.slots() && 0 <= p < mid.formula.matrix.occ(s).len()
                    implies {
                let id = #[trigger] mid.formula.matrix.occ(s)[p] as int;
                &&& 0 <= id < k
                &&& exists|q: int|
                    0 <= q < cs[id].literals@.len() && slot_spec(
                        #[trigger] cs[id].literals@[q] as int,
                    ) == s
            } by {
                let id = mid.formula.matrix.occ(s)[p] as int;
                assert(pre.formula.matrix.occ(s)[p] == mid.formula.matrix.occ(s)[p]);
                assert(0 <= (pre.formula.matrix.occ(s)[p] as int) < k);
                let q = choose|q: int|
                    0 <= q < pre.formula.clauses@[id].literals@.len() && slot_spec(
                        #[trigger] pre.formula.clauses@[id].literals@[q] as int,
                    ) == s;
                assert(cs[id].literals@ == pre.formula.clauses@[id].literals@);
                assert(slot_spec(cs[id].literals@[q] as int) == s);
            }
            // matrix shape for k + 1
            assert forall|s: int, p: int|
                0 <= s < mx.slots() && 0 <= p < mx.occ(s).len() implies {
                let id = #[trigger] mx.occ(s)[p] as int;
                &&& 0 <= id < k + 1
                &&& exists|q: int|
                    0 <= q < cs[id].literals@.len() && slot_spec(
                        #[trigger] cs[id].literals@[q] as int,
                    ) == s
            } by {
                if exists|q: int|
                    0 <= q < lits_at(mid.formula, k).len() && slot_spec(
                        #[trigger] lits_at(mid.formula, k)[q] as int,
                    ) == s {
                    let q = choose|q: int|
                        0 <= q < lits_at(mid.formula, k).len() && slot_spec(
                            #[trigger] lits_at(mid.formula, k)[q] as int,
                        ) == s;
                    assert(mx.occ(s) =~= mid.formula.matrix.occ(s).push(clause_id));
                    if p < mx.occ(s).len() - 1 {
                        assert(mx.occ(s)[p] == mid.formula.matrix.occ(s)[p]);
                    } else {
                        assert(mx.occ(s)[p] == clause_id);
                        assert(slot_spec(cs[k].literals@[q] as int) == s);
                    }
                } else {
                    assert(mx.occ(s) =~= mid.formula.matrix.occ(s));
                }
            }
            assert(occ_lens_le(mx, k + 1)) by {
                assert forall|s: int| 0 <= s < mx.slots() implies #[trigger] mx.occ(s).len() <= k
                    + 1 by {
                    if exists|q: int|
                        0 <= q < lits_at(mid.formula, k).len() && slot_spec(
                            #[trigger] lits_at(mid.formula, k)[q] as int,
                        ) == s {
                        assert(mx.occ(s) =~= mid.formula.matrix.occ(s).push(clause_id));
                    } else {
                        assert(mx.occ(s) =~= mid.formula.matrix.occ(s));
                    }
                }
            }
            // full connection for k + 1
            assert forall|id: int, q: int|
                0 <= id < k + 1 && 0 <= q < cs[id].literals@.len() implies mx.occ(
                slot_spec(#[trigger] cs[id].literals@[q] as int),
            ).contains(id as usize) by {
                let so = slot_spec(cs[id].literals@[q] as int);
                assert(0 <= so < mx.slots()) by {
                    assert(clause_ok(cs[id].literals@, ctx.formula.variables as int));
                    crate::lits::lemma_slot_in_range(
                        cs[id].literals@[q],
                        ctx.formula.variables as int,
                    );
                }
                if id == k {
                    assert(slot_spec(lits_at(mid.formula, k)[q] as int) == so);
                    assert(mx.occ(so) =~= mid.formula.matrix.occ(so).push(clause_id));
                    assert(mx.occ(so)[mx.occ(so).len() - 1] == clause_id);
                } else {
                    assert(mid.formula.matrix.occ(so).contains(id as usize));
                    let pp = choose|pp: int|
                        0 <= pp < mid.formula.matrix.occ(so).len() && mid.formula.matrix.occ(
                            so,
                        )[pp] == (id as usize);
                    if exists|qq: int|
                        0 <= qq < lits_at(mid.formula, k).len() && slot_spec(
                            #[trigger] lits_at(mid.formula, k)[qq] as int,
                        ) == so {
                        assert(mx.occ(so) =~= mid.formula.matrix.occ(so).push(clause_id));
                        assert(mx.occ(so)[pp] == (id as usize));
                    } else {
                        assert(mx.occ(so) =~= mid.formula.matrix.occ(so));
                    }
                }
            }
            // soundness: new garbage is subsumed by the current clause,
            // which stays live; older garbage keeps a live subsumer by
            // transitivity
            assert forall|i: int| 0 <= i < cs.len() && (#[trigger] cs[i]).garbage implies exists|
                j: int,
            |
                0 <= j < cs.len() && !(#[trigger] cs[j]).garbage && subsumes(
                    cs[j].literals@,
                    cs[i].literals@,
                ) by {
                if !pre.formula.clauses@[i].garbage {
                    // flagged in this step: the current clause subsumes it
                    assert(subsumes(c, lits_at(pre.formula, i)));
                    assert(!cs[k].garbage);
                    assert(cs[k].literals@ == c);
                    assert(cs[i].literals@ == lits_at(pre.formula, i));
                } else {
                    let j = choose|j: int|
                        0 <= j < pre.formula.clauses@.len() && !(
                        #[trigger] pre.formula.clauses@[j]).garbage && subsumes(
                            pre.formula.clauses@[j].literals@,
                            pre.formula.clauses@[i].literals@,
                        );
                    if cs[j].garbage {
                        // j was flagged in this step, so the current clause
                        // subsumes j, hence i
                        assert(subsumes(c, lits_at(pre.formula, j)));
                        crate::lits::lemma_subsumes_trans(
                            c,
                            pre.formula.clauses@[j].literals@,
                            pre.formula.clauses@[i].literals@,
                        );
                        assert(!cs[k].garbage);
                    } else {
                        assert(subsumes(cs[j].literals@, cs[i].literals@));
                    }
                }
            }
            // freeness among the first k + 1
            assert(processed_free(cs, k + 1)) by {
                assert forall|i: int, j: int|
                    0 <= i < k + 1 && 0 <= j < k + 1 && i != j && !(#[trigger] cs[i]).garbage && !(
                    #[trigger] cs[j]).garbage implies !subsumes(
                    cs[i].literals@,
                    cs[j].literals@,
                ) by {
                    if i == k {
                        // j < k is live, so it was not subsumed by the
                        // current clause
                        assert(!pre.formula.clauses@[j].garbage);
                        assert(!subsumes(c, lits_at(pre.formula, j)));
                    } else if j == k {
                        if subsumes(cs[i].literals@, c) {
                            assert(cs[i].literals@.len() >= c.len());
                            assert(clause_ok(cs[i].literals@, ctx.formula.variables as int));
                            assert(clause_ok(c, ctx.formula.variables as int));
                            crate::lits::lemma_subsumes_same_len(cs[i].literals@, c);
                            assert(subsumes(c, cs[i].literals@));
                            assert(!pre.formula.clauses@[i].garbage);
                            assert(cs[i].garbage);
                            assert(false);
                        }
                    } else {
                        assert(!pre.formula.clauses@[i].garbage);
                        assert(!pre.formula.clauses@[j].garbage);
                        assert(!subsumes(
                            pre.formula.clauses@[i].literals@,
                            pre.formula.clauses@[j].literals@,
                        ));
                    }
                }
            }
        }
        proof {
            // the step agrees with the pass model: flags, matrix, counter
            let k = clause_id as int;
            let c = lits_at(pre.formula, k);
            assert(views(pre.formula.clauses@) =~= svs) by {
                assert(forall|i: int|
                    0 <= i < pre.formula.clauses@.len() ==> (
                    #[trigger] pre.formula.clauses@[i]).literals@ == sorted0[i].literals@);
            }
            assert(c == svs[k]);
            assert forall|p: int| 0 <= p < svs[k].len() implies 0 <= slot_spec(
                #[trigger] svs[k][p] as int,
            ) < slots0 by {
                assert(clause_ok(c, pre.formula.variables as int));
                crate::lits::lemma_slot_in_range(c[p], pre.formula.variables as int);
            }
            assert(svs[k].len() > 0);
            let cs_now = ctx.formula.clauses@;
            assert forall|i: int|
                0 <= i < total as int implies (#[trigger] cs_now[i]).garbage == exists|cc: int|
                i < cc < k + 1 && subsumes(#[trigger] svs[cc], svs[i]) by {
                if i >= k {
                    assert(!cs_now[i].garbage);
                    if exists|cc: int| i < cc < k + 1 && subsumes(#[trigger] svs[cc], svs[i]) {
                        let cc = choose|cc: int|
                            i < cc < k + 1 && subsumes(#[trigger] svs[cc], svs[i]);
                        assert(false);
                    }
                } else {
                    if cs_now[i].garbage {
                        if pre.formula.clauses@[i].garbage {
                            let cc = choose|cc: int|
                                i < cc < k && subsumes(#[trigger] svs[cc], svs[i]);
                            assert(subsumes(svs[cc], svs[i]));
                        } else {
                            assert(subsumes(c, lits_at(pre.formula, i)));
                            assert(lits_at(pre.formula, i) == svs[i]);
                            assert(subsumes(svs[k], svs[i]));
                        }
                    }
                    if exists|cc: int| i < cc < k + 1 && subsumes(#[trigger] svs[cc], svs[i]) {
                        let cc = choose|cc: int|
                            i < cc < k + 1 && subsumes(#[trigger] svs[cc], svs[i]);
                        if cc < k {
                            assert(pre.formula.clauses@[i].garbage);
                            assert(cs_now[i].garbage);
                        } else {
                            assert(cc == k);
                            if !pre.formula.clauses@[i].garbage {
                                assert(subsumes(c, lits_at(pre.formula, i)));
                                assert(mid.formula.clauses@[i].garbage);
                            }
                            assert(cs_now[i].garbage);
                        }
                    }
                }
            }
            // the matrix and the counter follow the model
            let q = choose|q: int|
                0 <= q < c.len() && (forall|p: int|
                    0 <= p < c.len() ==> pre.formula.matrix.occ(
                        slot_spec(#[trigger] c[p] as int),
                    ).len() >= pre.formula.matrix.occ(slot_spec(c[q] as int)).len()) && (forall|
                    p: int,
                |
                    0 <= p < q ==> pre.formula.matrix.occ(slot_spec(#[trigger] c[p] as int)).len()
                        > pre.formula.matrix.occ(slot_spec(c[q] as int)).len())
                    && mid.stats.checked as int == sat_add(
                    pre.stats.checked as int,
                    pre.formula.matrix.occ(slot_spec(#[trigger] c[q] as int)).len() as int,
                );
            assert forall|ss: int| 0 <= ss < slots0 implies #[trigger] ctx.formula.matrix.occ(ss)
                == (if exists|qq: int|
                0 <= qq < svs[k].len() && slot_spec(#[trigger] svs[k][qq] as int) == ss {
                pre.formula.matrix.occ(ss).push(k as usize)
            } else {
                pre.formula.matrix.occ(ss)
            }) by {
                assert(lits_at(mid.formula, k) == svs[k]);
                if exists|qq: int|
                    0 <= qq < svs[k].len() && slot_spec(#[trigger] svs[k][qq] as int) == ss {
                    assert(ctx.formula.matrix.occ(ss) =~= mid.formula.matrix.occ(ss).push(
                        clause_id,
                    ));
                } else {
                    assert(ctx.formula.matrix.occ(ss) =~= mid.formula.matrix.occ(ss));
                }
            }
            lemma_bwd_model_step(svs, slots0, k, pre.formula.matrix, ctx.formula.matrix, q);
            lemma_sat_chain(
                c0.stats.checked as int,
                bwd_checked_total(svs, slots0, k),
                pre.formula.matrix.occ(slot_spec(c[q] as int)).len() as int,
            );
        }
        clause_id = clause_id + 1;
    }
    proof {
        assert(views(ctx.formula.clauses@) =~= views(sorted0));
    }
}

} // verus!

verus! {

/// Clause views ordered by non-decreasing length.
pub open spec fn views_sorted_asc(vs: Seq<Seq<i32>>) -> bool {
    forall|i: int, j: int|
        0 <= i < j < vs.len() ==> (#[trigger] vs[i]).len() <= (#[trigger] vs[j]).len()
}

/// Clause views ordered by non-increasing length.
pub open spec fn views_sorted_desc(vs: Seq<Seq<i32>>) -> bool {
    forall|i: int, j: int|
        0 <= i < j < vs.len() ==> (#[trigger] vs[i]).len() >= (#[trigger] vs[j]).len()
}

/// No clause of the list subsumes another one.
pub open spec fn subsumption_free(vs: Seq<Seq<i32>>) -> bool {
    forall|i: int, j: int|
        0 <= i < vs.len() && 0 <= j < vs.len() && i != j ==> !subsumes(
            #[trigger] vs[i],
            #[trigger] vs[j],
        )
}

/// Some clause of `outv` subsumes `v`.
pub open spec fn covers_one(outv: Seq<Seq<i32>>, v: Seq<i32>) -> bool {
    exists|i: int| 0 <= i < outv.len() && subsumes(#[trigger] outv[i], v)
}

/// Every clause of `inv` is subsumed by some clause of `outv`: together with
/// soundness this makes the two clause lists logically equivalent.
pub open spec fn covered_by(outv: Seq<Seq<i32>>, inv: Seq<Seq<i32>>) -> bool {
    forall|j: int| 0 <= j < inv.len() ==> covers_one(outv, #[trigger] inv[j])
}

/// If no live clause subsumes another, the compacted clause list is
/// subsumption-free.
pub proof fn lemma_live_views_free(cs: Seq<Clause>)
    requires
        processed_free(cs, cs.len() as int),
    ensures
        forall|i: int, j: int|
            0 <= i < live_views(cs).len() && 0 <= j < live_views(cs).len() && i != j
                ==> !subsumes(#[trigger] live_views(cs)[i], #[trigger] live_views(cs)[j]),
    decreases cs.len(),
{
    if cs.len() > 0 {
        let dl = cs.drop_last();
        assert(processed_free(dl, dl.len() as int)) by {
            assert forall|a: int, b: int|
                0 <= a < dl.len() && 0 <= b < dl.len() && a != b && !(#[trigger] dl[a]).garbage
                    && !(#[trigger] dl[b]).garbage implies !subsumes(
                dl[a].literals@,
                dl[b].literals@,
            ) by {
                assert(cs[a] == dl[a] && cs[b] == dl[b]);
            }
        }
        lemma_live_views_free(dl);
        let lv = live_views(cs);
        assert forall|i: int, j: int|
            0 <= i < lv.len() && 0 <= j < lv.len() && i != j implies !subsumes(
            #[trigger] lv[i],
            #[trigger] lv[j],
        ) by {
            let lvd = live_views(dl);
            if cs.last().garbage {
                assert(lv == lvd);
            } else {
                assert(lv == lvd.push(cs.last().literals@));
                if i < lvd.len() && j < lvd.len() {
                    assert(lv[i] == lvd[i] && lv[j] == lvd[j]);
                } else if j == lvd.len() {
                    // lv[i] is the view of a live clause strictly before the
                    // last one
                    assert(lv[i] == lvd[i]);
                    crate::formula::lemma_live_views_elem(dl, i);
                    let k = choose|k: int|
                        0 <= k < dl.len() && !(#[trigger] dl[k]).garbage && dl[k].literals@
                            == lvd[i];
                    assert(cs[k] == dl[k]);
                    assert(!subsumes(cs[k].literals@, cs[cs.len() - 1].literals@));
                } else {
                    assert(i == lvd.len());
                    assert(lv[j] == lvd[j]);
                    crate::formula::lemma_live_views_elem(dl, j);
                    let k = choose|k: int|
                        0 <= k < dl.len() && !(#[trigger] dl[k]).garbage && dl[k].literals@
                            == lvd[j];
                    assert(cs[k] == dl[k]);
                    assert(!subsumes(cs[cs.len() - 1].literals@, cs[k].literals@));
                }
            }
        }
    }
}

/// Compaction keeps the store order, so a length-sorted store compacts to a
/// length-sorted clause list.
pub proof fn lemma_live_views_sorted(cs: Seq<Clause>, descending: bool)
    requires
        !descending ==> sorted_asc(cs),
        descending ==> sorted_desc(cs),
    ensures
        !descending ==> views_sorted_asc(live_views(cs)),
        descending ==> views_sorted_desc(live_views(cs)),
    decreases cs.len(),
{
    if cs.len() > 0 {
        let dl = cs.drop_last();
        assert(!descending ==> sorted_asc(dl)) by {
            if !descending {
                assert(forall|i: int, j: int|
                    0 <= i < j < dl.len() ==> dl[i] == cs[i] && dl[j] == cs[j]);
            }
        }
        assert(descending ==> sorted_desc(dl)) by {
            if descending {
                assert(forall|i: int, j: int|
                    0 <= i < j < dl.len() ==> dl[i] == cs[i] && dl[j] == cs[j]);
            }
        }
        lemma_live_views_sorted(dl, descending);
        let lv = live_views(cs);
        let lvd = live_views(dl);
        if !cs.last().garbage {
            assert forall|i: int, j: int| 0 <= i < j < lv.len() implies (!descending ==> (
            #[trigger] lv[i]).len() <= (#[trigger] lv[j]).len()) && (descending ==> lv[i].len()
                >= lv[j].len()) by {
                if j < lv.len() - 1 {
                    assert(lv[i] == lvd[i] && lv[j] == lvd[j]);
                } else {
                    assert(lv[i] == lvd[i]);
                    crate::formula::lemma_live_views_elem(dl, i);
                    let k = choose|k: int|
                        0 <= k < dl.len() && !(#[trigger] dl[k]).garbage && dl[k].literals@
                            == lvd[i];
                    assert(cs[k] == dl[k]);
                    assert(lv[j] == cs[cs.len() - 1].literals@);
                }
            }
        } else {
            assert(lv == lvd);
        }
    }
}

/// The garbage flags a whole pass assigns to the sorted clause views.
pub open spec fn simplify_flags(vs: Seq<Seq<i32>>, backward: bool) -> Seq<bool> {
    if backward {
        Seq::new(vs.len(), |i: int| bwd_flag(vs, i))
    } else {
        fwd_flags(vs, vs.len() as int)
    }
}

/// The clause views that survive: the unflagged ones, in order.
pub open spec fn keep_unflagged(vs: Seq<Seq<i32>>, flags: Seq<bool>) -> Seq<Seq<i32>>
    decreases vs.len(),
{
    if vs.len() == 0 {
        Seq::empty()
    } else {
        let rest = keep_unflagged(vs.drop_last(), flags);
        if flags[vs.len() - 1] {
            rest
        } else {
            rest.push(vs.last())
        }
    }
}

/// Compaction yields exactly the unflagged views, in store order.
pub proof fn lemma_live_views_keep(cs: Seq<Clause>, flags: Seq<bool>)
    requires
        forall|i: int| 0 <= i < cs.len() ==> (#[trigger] flags[i]) == cs[i].garbage,
    ensures
        live_views(cs) == keep_unflagged(views(cs), flags),
    decreases cs.len(),
{
    if cs.len() > 0 {
        let dl = cs.drop_last();
        lemma_live_views_keep(dl, flags);
        assert(views(cs).drop_last() =~= views(dl));
        assert(views(cs).last() == cs.last().literals@);
        assert(flags[cs.len() - 1] == cs.last().garbage);
        if cs.last().garbage {
            assert(keep_unflagged(views(cs), flags) == keep_unflagged(views(dl), flags));
        } else {
            assert(keep_unflagged(views(cs), flags) == keep_unflagged(views(dl), flags).push(
                cs.last().literals@,
            ));
        }
    } else {
        assert(views(cs) =~= Seq::<Seq<i32>>::empty());
        assert(keep_unflagged(views(cs), flags) =~= Seq::<Seq<i32>>::empty());
        assert(live_views(cs) =~= Seq::<Seq<i32>>::empty());
    }
}

/// Simplify the formula. With an empty clause present the store collapses to
/// that single clause; otherwise the chosen pass flags every subsumed clause
/// and compaction drops them. The surviving clauses are a sub-multiset of
/// the input clauses, every input clause is subsumed by a survivor (so the
/// two formulae are logically equivalent), and no survivor subsumes another.
pub fn simplify(ctx: &mut SATContext)
    requires
        old(ctx).formula.wf(),
        all_clear(old(ctx).formula.marks@),
        old(ctx).formula.matrix.all_empty(),
        forall|i: int|
            0 <= i < old(ctx).formula.clauses@.len() ==> !(#[trigger] old(
                ctx,
            ).formula.clauses@[i]).garbage,
        old(ctx).stats.subsumed == 0,
        old(ctx).formula.empty_clause_exists ==> exists|i: int|
            0 <= i < old(ctx).formula.clauses@.len()
                && (#[trigger] old(ctx).formula.clauses@[i]).literals@.len() == 0,
    ensures
        final (ctx).formula.wf(),
        all_clear(final (ctx).formula.marks@),
        forall|i: int|
            0 <= i < final (ctx).formula.clauses@.len()
                ==> !(#[trigger] final (ctx).formula.clauses@[i]).garbage,
        final (ctx).formula.variables == old(ctx).formula.variables,
        final (ctx).formula.added_clauses == old(ctx).formula.added_clauses,
        final (ctx).formula.empty_clause_exists == old(ctx).formula.empty_clause_exists,
        final (ctx).config == old(ctx).config,
        final (ctx).stats.parsed == old(ctx).stats.parsed,
        old(ctx).formula.clauses@.len() == 0 && !old(ctx).formula.empty_clause_exists
            ==> final (ctx).stats.checked == old(ctx).stats.checked,
        old(ctx).formula.empty_clause_exists ==> views(final (ctx).formula.clauses@) =~= seq![
            Seq::<i32>::empty(),
        ] && final (ctx).stats.subsumed == old(ctx).formula.added_clauses - 1
            && final (ctx).stats.checked == old(ctx).stats.checked,
        !old(ctx).formula.empty_clause_exists ==> {
            &&& views(final (ctx).formula.clauses@).to_multiset().subset_of(
                views(old(ctx).formula.clauses@).to_multiset(),
            )
            &&& covered_by(
                views(final (ctx).formula.clauses@),
                views(old(ctx).formula.clauses@),
            )
            &&& subsumption_free(views(final (ctx).formula.clauses@))
            &&& old(ctx).config.backward_mode ==> views_sorted_desc(
                views(final (ctx).formula.clauses@),
            )
            &&& !old(ctx).config.backward_mode ==> views_sorted_asc(
                views(final (ctx).formula.clauses@),
            )
            &&& final (ctx).stats.subsumed as int == old(ctx).formula.clauses@.len() - final (ctx).formula.clauses@.len()
            &&& views(final (ctx).formula.clauses@) == keep_unflagged(
                views(stable_sort_by_len(old(ctx).formula.clauses@, old(ctx).config.backward_mode)),
                simplify_flags(
                    views(
                        stable_sort_by_len(
                            old(ctx).formula.clauses@,
                            old(ctx).config.backward_mode,
                        ),
                    ),
                    old(ctx).config.backward_mode,
                ),
            )
            &&& final (ctx).stats.checked as int == sat_add(
                old(ctx).stats.checked as int,
                if old(ctx).config.backward_mode {
                    bwd_checked_total(
                        views(stable_sort_by_len(old(ctx).formula.clauses@, true)),
                        old(ctx).formula.matrix.slots(),
                        old(ctx).formula.clauses@.len() as int,
                    )
                } else {
                    fwd_examined_total(
                        views(stable_sort_by_len(old(ctx).formula.clauses@, false)),
                        old(ctx).formula.matrix.slots(),
                        old(ctx).formula.clauses@.len() as int,
                    )
                },
            )
        },
{
    let ghost c0 = *old(ctx);
    if ctx.formula.empty_clause_exists {
        proof {
            let i = choose|i: int|
                0 <= i < c0.formula.clauses@.len() && (#[trigger] c0.formula.clauses@[i]).literals@.len() == 0;
            assert(c0.formula.clauses@.len() >= 1);
        }
        let_empty_clause_subsume_all_clauses(ctx);
        proof {
            assert(views(ctx.formula.clauses@) =~= seq![Seq::<i32>::empty()]);
        }
    } else {
        if ctx.config.backward_mode {
            backward_subsumption(ctx);
        } else {
            forward_subsumption(ctx);
        }
        let ghost drv = *ctx;
        ctx.formula.collect_garbage_clauses();
        proof {
            let dcs = drv.formula.clauses@;
            let outv = views(ctx.formula.clauses@);
            let inv = views(c0.formula.clauses@);
            assert(outv == live_views(dcs));
            // sub-multiset of the driver's clause views, which are a
            // permutation of the input's
            crate::formula::lemma_live_views_le(dcs);
            assert(outv.to_multiset().subset_of(inv.to_multiset()));
            // every input clause is subsumed by a survivor
            assert forall|j: int| 0 <= j < inv.len() implies covers_one(
                outv,
                #[trigger] inv[j],
            ) by {
                let v = inv[j];
                assert(inv.contains(v));
                vstd::seq_lib::to_multiset_contains(inv, v);
                vstd::seq_lib::to_multiset_contains(views(dcs), v);
                assert(views(dcs).contains(v));
                let a = choose|a: int| 0 <= a < views(dcs).len() && views(dcs)[a] == v;
                assert(dcs[a].literals@ == v);
                if !dcs[a].garbage {
                    crate::formula::lemma_live_views_contains(dcs, a);
                    let i = choose|i: int|
                        0 <= i < live_views(dcs).len() && live_views(dcs)[i] == dcs[a].literals@;
                    crate::lits::lemma_subsumes_refl(v);
                    assert(subsumes(outv[i], v));
                } else {
                    let b = choose|b: int|
                        0 <= b < dcs.len() && !(#[trigger] dcs[b]).garbage && subsumes(
                            dcs[b].literals@,
                            dcs[a].literals@,
                        );
                    crate::formula::lemma_live_views_contains(dcs, b);
                    let i = choose|i: int|
                        0 <= i < live_views(dcs).len() && live_views(dcs)[i] == dcs[b].literals@;
                    assert(subsumes(outv[i], v));
                }
            }
            // no survivor subsumes another
            lemma_live_views_free(dcs);
            // the survivors keep the pass's length order
            lemma_live_views_sorted(dcs, c0.config.backward_mode);
            // the subsumed counter is the number of dropped clauses
            crate::formula::lemma_garbage_count_bounds(dcs);
            // the survivors are exactly the pass model's unflagged views
            let svs = views(stable_sort_by_len(c0.formula.clauses@, c0.config.backward_mode));
            let mflags = simplify_flags(svs, c0.config.backward_mode);
            assert(views(dcs) =~= svs) by {
                assert(forall|i: int|
                    0 <= i < dcs.len() ==> (#[trigger] dcs[i]).literals@ == stable_sort_by_len(
                        c0.formula.clauses@,
                        c0.config.backward_mode,
                    )[i].literals@);
            }
            assert forall|i: int| 0 <= i < dcs.len() implies (#[trigger] mflags[i])
                == dcs[i].garbage by {
                if c0.config.backward_mode {
                    assert(mflags[i] == bwd_flag(svs, i));
                } else {
                    lemma_fwd_flags_frame(svs, svs.len() as int);
                    assert(mflags[i] == fwd_flags(svs, svs.len() as int)[i]);
                }
            }
            lemma_live_views_keep(dcs, mflags);
            assert(views(ctx.formula.clauses@) == keep_unflagged(svs, mflags));
            if c0.formula.clauses@.len() == 0 {
                reveal_with_fuel(fwd_examined_total, 1);
                reveal_with_fuel(bwd_checked_total, 1);
                assert(ctx.stats.checked == c0.stats.checked);
            }
        }
    }
}

} // verus!

verus! {

/// A subsumption-free clause list has no repeated clause.
pub proof fn lemma_free_no_duplicates(s: Seq<Seq<i32>>)
    requires
        subsumption_free(s),
    ensures
        s.no_duplicates(),
{
    assert forall|i: int, j: int| 0 <= i < j < s.len() implies s[i] != s[j] by {
        if s[i] == s[j] {
            crate::lits::lemma_subsumes_refl(s[i]);
            assert(subsumes(s[i], s[j]));
        }
    }
}

/// Simplifying an already simplified clause set changes nothing: a second
/// run's output is the same clause multiset, so also the same signature.
/// The hypotheses are exactly what `simplify` guarantees of one run on a
/// subsumption-free input.
pub proof fn lemma_simplify_idempotent(s: Seq<Seq<i32>>, t: Seq<Seq<i32>>)
    requires
        subsumption_free(s),
        t.to_multiset().subset_of(s.to_multiset()),
        covered_by(t, s),
    ensures
        t.to_multiset() == s.to_multiset(),
        crate::signature::signature_of(t) == crate::signature::signature_of(s),
{
    lemma_free_no_duplicates(s);
    s.lemma_multiset_has_no_duplicates();
    assert forall|x: Seq<i32>|
        #[trigger] t.to_multiset().count(x) == s.to_multiset().count(x) by {
        vstd::seq_lib::to_multiset_contains(s, x);
        vstd::seq_lib::to_multiset_contains(t, x);
        if s.contains(x) {
            let j = choose|j: int| 0 <= j < s.len() && s[j] == x;
            assert(covers_one(t, s[j]));
            let i = choose|i: int| 0 <= i < t.len() && subsumes(#[trigger] t[i], s[j]);
            assert(t.contains(t[i]));
            vstd::seq_lib::to_multiset_contains(t, t[i]);
            assert(s.to_multiset().count(t[i]) > 0);
            vstd::seq_lib::to_multiset_contains(s, t[i]);
            assert(s.contains(t[i]));
            let k = choose|k: int| 0 <= k < s.len() && s[k] == t[i];
            if k != j {
                assert(subsumes(s[k], s[j]));
                assert(false);
            }
            assert(t[i] == x);
            assert(t.to_multiset().count(x) >= 1);
            assert(s.to_multiset().count(x) == 1);
        } else {
            assert(s.to_multiset().count(x) == 0);
            assert(t.to_multiset().count(x) <= 0);
        }
    }
    assert(t.to_multiset() =~= s.to_multiset());
    crate::signature::lemma_signature_clause_permutation(t, s);
}

/// If one input clause properly subsumes another, the subsumed one does not
/// survive simplification: anything that covers the subsumer would otherwise
/// subsume it in the output. The hypotheses are what `simplify` guarantees.
pub proof fn lemma_proper_subsumed_removed(
    inv: Seq<Seq<i32>>,
    outv: Seq<Seq<i32>>,
    ci: int,
    dj: int,
)
    requires
        outv.to_multiset().subset_of(inv.to_multiset()),
        covered_by(outv, inv),
        subsumption_free(outv),
        0 <= ci < inv.len(),
        0 <= dj < inv.len(),
        subsumes(inv[ci], inv[dj]),
        !subsumes(inv[dj], inv[ci]),
    ensures
        forall|k: int| 0 <= k < outv.len() ==> outv[k] != inv[dj],
{
    assert forall|k: int| 0 <= k < outv.len() implies outv[k] != inv[dj] by {
        if outv[k] == inv[dj] {
            assert(covers_one(outv, inv[ci]));
            let m = choose|m: int| 0 <= m < outv.len() && subsumes(#[trigger] outv[m], inv[ci]);
            crate::lits::lemma_subsumes_trans(outv[m], inv[ci], inv[dj]);
            if m == k {
                assert(subsumes(inv[dj], inv[ci]));
                assert(false);
            } else {
                assert(subsumes(outv[m], outv[k]));
                assert(false);
            }
        }
    }
}

} // verus!
