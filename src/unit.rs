use vstd::prelude::*;
use crate::error::SolveError;
use crate::rules::{count_true, lemma_count_true_update, lemma_count_true_bound, lemma_count_true_none};

verus! {

/// Index of the 3x3 box that holds the cell at row `r`, column `c`.
pub open spec fn box_index(r: int, c: int) -> int {
    (r / 3) * 3 + c / 3
}

/// Returns the box (numbered row-major, 0 to 8) that holds cell (`r`, `c`).
pub fn row_column_to_box(r: usize, c: usize) -> (b: usize)
    requires
        r < 9,
        c < 9,
    ensures
        b == box_index(r as int, c as int),
        b < 9,
{
    (r / 3 * 3) + (c / 3)
}

/// The values already committed to one row, column or box.
pub struct Axis {
    /// How many values are present.
    pub len: usize,
    /// Which unit of its kind this is.
    pub i: usize,
    /// `present[v - 1]` holds when value `v` is committed.
    pub present: Vec<bool>,
}

impl Axis {
    pub open spec fn wf(&self) -> bool {
        self.present@.len() == 9 && self.len == count_true(self.present@)
    }

    /// Value `v` (1 to 9) is committed to this unit.
    pub open spec fn has(&self, v: int) -> bool {
        self.present@[v - 1]
    }

    /// An empty unit with index `i`.
    pub fn new(i: usize) -> (a: Axis)
        ensures
            a.wf(),
            a.i == i,
            a.len == 0,
            forall|v: int| 1 <= v <= 9 ==> !#[trigger] a.has(v),
    {
        let present = vec![false, false, false, false, false, false, false, false, false];
        proof {
            lemma_count_true_none(present@);
        }
        Axis { len: 0, i, present }
    }

    /// Whether `val` is already committed to this unit.
    pub fn contains(&self, val: u8) -> (r: bool)
        requires
            self.wf(),
            1 <= val <= 9,
        ensures
            r == self.has(val as int),
    {
        self.present[(val - 1) as usize]
    }

    /// Commits `val` to this unit; a value committed twice is a contradiction,
    /// and leaves the unit as it was.
    pub fn add(&mut self, val: u8) -> (r: Result<(), SolveError>)
        requires
            old(self).wf(),
            1 <= val <= 9,
        ensures
            final(self).wf(),
            final(self).i == old(self).i,
            old(self).has(val as int) ==> r == Err::<(), SolveError>(
                SolveError::Contradiction { value: val },
            ) && *final(self) == *old(self),
            !old(self).has(val as int) ==> r is Ok && final(self).present@ == old(
                self,
            ).present@.update(val - 1, true) && final(self).len == old(self).len + 1,
    {
        let k = (val - 1) as usize;
        if self.present[k] {
            return Err(SolveError::Contradiction { value: val });
        }
        proof {
            lemma_count_true_update(self.present@, k as int);
            lemma_count_true_bound(self.present@.update(k as int, true));
        }
        self.present.set(k, true);
        self.len = self.len + 1;
        Ok(())
    }

    /// Clears in `possibilities` every value committed to this unit.
    pub fn mark_possibilities(&self, possibilities: &mut Vec<bool>)
        requires
            self.wf(),
            old(possibilities)@.len() == 9,
        ensures
            final(possibilities)@.len() == 9,
            forall|k: int|
                0 <= k < 9 ==> #[trigger] final(possibilities)@[k] == (old(possibilities)@[k]
                    && !self.present@[k]),
    {
        let mut i: usize = 0;
        while i < 9
            invariant
                0 <= i <= 9,
                self.wf(),
                possibilities@.len() == 9,
                forall|k: int|
                    0 <= k < i ==> #[trigger] possibilities@[k] == (old(possibilities)@[k]
                        && !self.present@[k]),
                forall|k: int| i <= k < 9 ==> #[trigger] possibilities@[k] == old(possibilities)@[k],
            decreases 9 - i,
        {
            if self.present[i] {
                possibilities.set(i, false);
            }
            i = i + 1;
        }
    }
}

} // verus!
