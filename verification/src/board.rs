//! The board: a square grid of candidate masks, the sole shared mutable
//! resource of a solve.  Cells are addressed by a flat index
//! `0..size * size`.  Each mutator reports `false` exactly when it left
//! the touched cell with an empty mask.

use crate::mask::lemma_has_and;
use crate::mask::lemma_has_diff;
use crate::mask::lemma_has_value_bit;
use crate::mask::mask_has;
use crate::mask::value_bit;
use crate::mask::ValueMask;
use vstd::prelude::*;

verus! {

/// A square grid of candidate masks.
#[derive(Clone, Debug)]
pub struct Board {
    size: usize,
    masks: Vec<ValueMask>,
}

impl View for Board {
    type V = Seq<u32>;

    closed spec fn view(&self) -> Seq<u32> {
        self.masks@.map_values(|m: ValueMask| m@)
    }
}

impl Board {
    /// The dimension `N` of the grid, also the number of values.
    pub closed spec fn spec_size(self) -> int {
        self.size as int
    }

    /// A board is well formed when its dimension is in range, it has one
    /// mask per cell, and every mask only holds values of `1..=N`.
    pub open spec fn wf(self) -> bool {
        1 <= self.spec_size() <= 31 && self@.len() == self.spec_size() * self.spec_size()
            && forall|c: int, v: int|
            0 <= c < self@.len() && #[trigger] mask_has(self@[c], v) ==> 1 <= v
                <= self.spec_size()
    }

    /// A fresh board with every cell holding all `size` values.
    pub fn new(size: usize) -> (r: Board)
        requires
            1 <= size <= 31,
        ensures
            r.wf(),
            r.spec_size() == size,
            r@.len() == size * size,
            forall|c: int, v: int|
                0 <= c < r@.len() ==> (#[trigger] mask_has(r@[c], v) <==> 1 <= v <= size),
    {
        proof {
            assert(size * size <= 961) by (nonlinear_arith)
                requires
                    size <= 31,
            ;
        }
        let count = size * size;
        let full = ValueMask::from_all_values(size);
        let mut masks: Vec<ValueMask> = Vec::new();
        let mut i: usize = 0;
        while i < count
            invariant
                i <= count,
                masks@.len() == i,
                forall|c: int| 0 <= c < i ==> masks@[c] == full,
            decreases count - i,
        {
            masks.push(full);
            i = i + 1;
        }
        Board { size, masks }
    }

    /// An independent deep copy of the board, for a parallel search
    /// branch: the copy shares no mutable state with the original.
    #[verifier::loop_isolation(false)]
    pub fn duplicate(&self) -> (r: Board)
        requires
            self.wf(),
        ensures
            r.wf(),
            r.spec_size() == self.spec_size(),
            r@ == self@,
    {
        let n = self.masks.len();
        let mut masks: Vec<ValueMask> = Vec::new();
        let mut i: usize = 0;
        while i < n
            invariant
                i <= n,
                masks@.len() == i,
                forall|c: int| 0 <= c < i ==> masks@[c] == self.masks@[c],
            decreases n - i,
        {
            masks.push(self.masks[i]);
            i = i + 1;
        }
        let r = Board { size: self.size, masks };
        proof {
            assert(r@ =~= self@);
        }
        r
    }

    /// The dimension of the board.
    pub fn size(&self) -> (r: usize)
        ensures
            r == self.spec_size(),
    {
        self.size
    }

    /// The number of cells of the board.
    pub fn cell_count(&self) -> (r: usize)
        requires
            self.wf(),
        ensures
            r == self@.len(),
    {
        self.masks.len()
    }

    /// The current candidate mask of cell `c`.
    pub fn cell(&self, c: usize) -> (r: ValueMask)
        requires
            c < self@.len(),
        ensures
            r@ == self@[c as int],
    {
        self.masks[c]
    }

    /// Intersect cell `c` with the keep-set `keep`; `false` means the
    /// cell's mask became empty.
    pub fn keep_mask(&mut self, c: usize, keep: ValueMask) -> (r: bool)
        requires
            old(self).wf(),
            c < old(self)@.len(),
        ensures
            final(self).wf(),
            final(self).spec_size() == old(self).spec_size(),
            final(self)@ == old(self)@.update(c as int, old(self)@[c as int] & keep@),
            r == (final(self)@[c as int] != 0u32),
    {
        proof {
            lemma_has_and(self.masks@[c as int]@, keep@);
        }
        let newm = self.masks[c].intersect(&keep);
        self.masks.set(c, newm);
        proof {
            assert(self@ =~= old(self)@.update(c as int, old(self)@[c as int] & keep@));
        }
        !newm.is_empty()
    }

    /// Remove every value of `remove` from cell `c`; `false` means the
    /// cell's mask became empty.
    pub fn clear_mask(&mut self, c: usize, remove: ValueMask) -> (r: bool)
        requires
            old(self).wf(),
            c < old(self)@.len(),
        ensures
            final(self).wf(),
            final(self).spec_size() == old(self).spec_size(),
            final(self)@ == old(self)@.update(c as int, old(self)@[c as int] & !remove@),
            r == (final(self)@[c as int] != 0u32),
    {
        proof {
            lemma_has_diff(self.masks@[c as int]@, remove@);
        }
        let newm = self.masks[c].minus(&remove);
        self.masks.set(c, newm);
        proof {
            assert(self@ =~= old(self)@.update(c as int, old(self)@[c as int] & !remove@));
        }
        !newm.is_empty()
    }

    /// Remove the single value `v` from cell `c`; `false` means the
    /// cell's mask became empty.
    pub fn clear_value(&mut self, c: usize, v: usize) -> (r: bool)
        requires
            old(self).wf(),
            c < old(self)@.len(),
            1 <= v <= 32,
        ensures
            final(self).wf(),
            final(self).spec_size() == old(self).spec_size(),
            final(self)@ == old(self)@.update(c as int, old(self)@[c as int] & !value_bit(v as int)),
            r == (final(self)@[c as int] != 0u32),
            forall|w: int| #[trigger] mask_has(final(self)@[c as int], w)
                <==> mask_has(old(self)@[c as int], w) && w != v,
    {
        proof {
            lemma_has_value_bit(v as int);
        }
        let single = ValueMask::from_value(v);
        let r = self.clear_mask(c, single);
        proof {
            lemma_has_diff(old(self)@[c as int], value_bit(v as int));
        }
        r
    }
}

} // verus!
