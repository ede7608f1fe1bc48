//! The mark array: one bit per literal slot, used as a scratch set while a
//! clause is normalized or held as the candidate of a subsumption check.
//! Every engine operation leaves the array all-zero on exit.
use vstd::prelude::*;

use crate::lits::slot_spec;

verus! {

pub struct Marks {
    pub marks: Vec<bool>,
}

impl View for Marks {
    type V = Seq<bool>;

    open spec fn view(&self) -> Seq<bool> {
        self.marks@
    }
}

/// Every bit of the mark array is zero.
pub open spec fn all_clear(bits: Seq<bool>) -> bool {
    forall|s: int| 0 <= s < bits.len() ==> !bits[s]
}

/// The set bits are exactly the slots of the literals of `c`.
pub open spec fn marks_exact(bits: Seq<bool>, c: Seq<i32>) -> bool {
    forall|s: int|
        0 <= s < bits.len() ==> (bits[s] <==> exists|q: int|
            0 <= q < c.len() && slot_spec(#[trigger] c[q] as int) == s)
}

/// With the marks holding exactly clause `c`, a literal's bit reads as
/// membership in `c`.
pub proof fn lemma_marks_exact_contains(bits: Seq<bool>, c: Seq<i32>, l: i32)
    requires
        marks_exact(bits, c),
        forall|q: int| 0 <= q < c.len() ==> #[trigger] c[q] != 0,
        l != 0,
        0 <= slot_spec(l as int) < bits.len(),
    ensures
        bits[slot_spec(l as int)] <==> c.contains(l),
{
    if bits[slot_spec(l as int)] {
        let q = choose|q: int| 0 <= q < c.len() && slot_spec(#[trigger] c[q] as int) == slot_spec(
            l as int,
        );
        crate::lits::lemma_slot_injective(c[q] as int, l as int);
        assert(c[q] == l);
    }
    if c.contains(l) {
        let q = choose|q: int| 0 <= q < c.len() && c[q] == l;
        assert(slot_spec(c[q] as int) == slot_spec(l as int));
    }
}

impl Marks {
    pub fn new() -> (r: Marks)
        ensures
            r@ =~= Seq::<bool>::empty(),
    {
        Marks { marks: Vec::new() }
    }

    /// Slot of a non-zero literal; positive and negative polarity of a
    /// variable land on adjacent slots.
    pub fn map_literal_to_index(&self, literal: i32) -> (r: usize)
        requires
            literal != 0,
            slot_spec(literal as int) <= usize::MAX as int,
        ensures
            r as int == slot_spec(literal as int),
    {
        if literal < 0 {
            ((-(literal as i64)) as u64 * 2 - 2) as usize
        } else {
            (literal as u64 * 2 - 1) as usize
        }
    }

    /// Size the array to two slots per variable, all clear.
    pub fn init(&mut self, variables: usize)
        requires
            2 * variables as int <= usize::MAX as int,
        ensures
            final (self)@.len() == 2 * variables as int,
            all_clear(final (self)@),
    {
        let n: usize = 2 * variables;
        let mut bits: Vec<bool> = Vec::new();
        let mut i: usize = 0;
        while i < n
            invariant
                i <= n,
                bits@.len() == i as int,
                all_clear(bits@),
            decreases n - i,
        {
            bits.push(false);
            i = i + 1;
        }
        self.marks = bits;
    }

    pub fn mark(&mut self, literal: i32)
        requires
            literal != 0,
            0 <= slot_spec(literal as int) < old(self)@.len(),
        ensures
            final (self)@ =~= old(self)@.update(slot_spec(literal as int), true),
    {
        let idx = self.map_literal_to_index(literal);
        self.marks[idx] = true;
    }

    pub fn unmark(&mut self, literal: i32)
        requires
            literal != 0,
            0 <= slot_spec(literal as int) < old(self)@.len(),
        ensures
            final (self)@ =~= old(self)@.update(slot_spec(literal as int), false),
    {
        let idx = self.map_literal_to_index(literal);
        self.marks[idx] = false;
    }

    pub fn is_marked(&self, literal: i32) -> (r: bool)
        requires
            literal != 0,
            0 <= slot_spec(literal as int) < self@.len(),
        ensures
            r == self@[slot_spec(literal as int)],
    {
        let idx = self.map_literal_to_index(literal);
        self.marks[idx]
    }
}

} // verus!
