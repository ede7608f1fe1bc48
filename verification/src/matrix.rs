//! The occurrence matrix: for every literal slot, the ids of the clauses
//! connected on that literal. Forward subsumption connects each clause on a
//! single literal, backward subsumption on all of them.
use vstd::prelude::*;

use crate::lits::slot_spec;

verus! {

pub struct Matrix {
    pub matrix: Vec<Vec<usize>>,
}

impl Matrix {
    /// The occurrence list of slot `s`.
    pub open spec fn occ(&self, s: int) -> Seq<usize> {
        self.matrix@[s]@
    }

    pub open spec fn slots(&self) -> int {
        self.matrix@.len() as int
    }

    /// All occurrence lists are empty.
    pub open spec fn all_empty(&self) -> bool {
        forall|s: int| 0 <= s < self.slots() ==> self.occ(s).len() == 0
    }

    pub fn new() -> (r: Matrix)
        ensures
            r.slots() == 0,
    {
        Matrix { matrix: Vec::new() }
    }

    /// Slot of a non-zero literal; positive and negative polarity of a
    /// variable land on adjacent slots.
    pub fn map_literal_to_index(&self, literal: i32) -> (r: usize)
        requires
            literal != 0,
            slot_spec(literal as int) <= usize::MAX as int,
        ensures
            r as int == slot_spec(literal as int),
    {
        if literal < 0 {
            ((-(literal as i64)) as u64 * 2 - 2) as usize
        } else {
            (literal as u64 * 2 - 1) as usize
        }
    }

    /// Size the matrix to two slots per variable, every list empty.
    pub fn init(&mut self, variables: usize)
        requires
            2 * variables as int <= usize::MAX as int,
        ensures
            final (self).slots() == 2 * variables as int,
            final (self).all_empty(),
    {
        let n: usize = 2 * variables;
        let mut lists: Vec<Vec<usize>> = Vec::new();
        let mut i: usize = 0;
        while i < n
            invariant
                i <= n,
                lists@.len() == i as int,
                forall|s: int| 0 <= s < i as int ==> lists@[s]@.len() == 0,
            decreases n - i,
        {
            lists.push(Vec::new());
            i = i + 1;
        }
        self.matrix = lists;
    }

    /// Append a clause id to the occurrence list of `literal`.
    pub fn push_occ(&mut self, literal: i32, clause_id: usize)
        requires
            literal != 0,
            0 <= slot_spec(literal as int) < old(self).slots(),
        ensures
            final (self).slots() == old(self).slots(),
            final (self).occ(slot_spec(literal as int)) =~= old(self).occ(
                slot_spec(literal as int),
            ).push(clause_id),
            forall|s: int|
                0 <= s < old(self).slots() && s != slot_spec(literal as int) ==> final (self).occ(s)
                    =~= old(self).occ(s),
    {
        let idx = self.map_literal_to_index(literal);
        self.matrix[idx].push(clause_id);
    }

    /// Length of the occurrence list of `literal`.
    pub fn occ_len(&self, literal: i32) -> (r: usize)
        requires
            literal != 0,
            0 <= slot_spec(literal as int) < self.slots(),
        ensures
            r as int == self.occ(slot_spec(literal as int)).len(),
    {
        let idx = self.map_literal_to_index(literal);
        self.matrix[idx].len()
    }

    /// The clause id at position `p` of the occurrence list of `literal`.
    pub fn occ_at(&self, literal: i32, p: usize) -> (r: usize)
        requires
            literal != 0,
            0 <= slot_spec(literal as int) < self.slots(),
            p < self.occ(slot_spec(literal as int)).len(),
        ensures
            r == self.occ(slot_spec(literal as int))[p as int],
    {
        let idx = self.map_literal_to_index(literal);
        self.matrix[idx][p]
    }
}

} // verus!
