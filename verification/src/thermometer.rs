//! The thermometer (ordering) constraint: an ordered chain of cells
//! whose values must strictly increase along the chain.
//!
//! The constraint holds only its fixed configuration (chain and display
//! name); the board is supplied by the driver into every call.

use crate::board::Board;
use crate::constraint::narrows;
use crate::constraint::untouched_outside;
use crate::constraint::Constraint;
use crate::mask::lemma_card_le;
use crate::mask::lemma_card_lt;
use crate::mask::lemma_card_nonneg;
use crate::mask::lemma_diff_zero;
use crate::mask::lemma_has_and;
use crate::mask::lemma_has_diff;
use crate::mask::lemma_has_low;
use crate::mask::lemma_has_or;
use crate::mask::lemma_has_widen;
use crate::mask::lemma_has_zero;
use crate::mask::lemma_mask_max;
use crate::mask::lemma_mask_min;
use crate::mask::low_bits;
use crate::mask::mask_card;
use crate::mask::mask_has;
use crate::mask::mask_max;
use crate::mask::mask_min;
use crate::mask::mask_subset;
use crate::mask::ValueMask;
use crate::step_result::StepDesc;
use crate::step_result::StepResult;
use vstd::prelude::*;

verus! {

/// Every entry of the chain occurs once.
pub open spec fn distinct_chain(chain: Seq<usize>) -> bool {
    forall|i: int, j: int| 0 <= i < j < chain.len() ==> chain[i] != chain[j]
}

/// The smallest value of `m` that is strictly above `b`, scanning
/// upwards from `v`; `33` when there is none.
pub open spec fn first_candidate_above(m: u32, b: int, v: int) -> int
    decreases 33 - v,
{
    if v >= 33 {
        33
    } else if v > b && mask_has(m, v) {
        v
    } else {
        first_candidate_above(m, b, v + 1)
    }
}

/// The ascending-threshold walk of the feasibility check, from position
/// `i` of the chain with running lower bound `bound`: the cell under
/// test must contribute `val`, every other cell its smallest candidate
/// strictly above the running bound.  True when the walk completes.
pub open spec fn feasible_from(
    masks: Seq<u32>,
    chain: Seq<usize>,
    cell: usize,
    val: int,
    bound: int,
    i: int,
) -> bool
    decreases chain.len() - i,
{
    if i >= chain.len() {
        true
    } else if chain[i] == cell {
        val > bound && feasible_from(masks, chain, cell, val, val, i + 1)
    } else {
        let w = first_candidate_above(masks[chain[i] as int], bound, 1);
        w <= 32 && feasible_from(masks, chain, cell, val, w, i + 1)
    }
}

/// One forward sweep of `init_board`, from position `i` of the chain
/// with the current bound mask `bound`: each cell loses the values
/// flagged by the bound mask (restricted to the full value range), and
/// whenever a cell actually shrank the bound mask widens one position
/// before the next cell.  Returns the resulting masks, whether any cell
/// shrank, and whether some cell was emptied (the sweep stops there).
pub open spec fn init_walk(masks: Seq<u32>, chain: Seq<usize>, bound: u32, size: int, i: int) -> (
    Seq<u32>,
    bool,
    bool,
)
    decreases chain.len() - i,
{
    if i >= chain.len() {
        (masks, false, false)
    } else {
        let c = chain[i] as int;
        let cur = masks[c];
        let newm = cur & !(low_bits(size) & bound);
        if newm == cur {
            init_walk(masks, chain, bound, size, i + 1)
        } else if newm == 0 {
            (masks.update(c, newm), true, true)
        } else {
            let rest = init_walk(masks.update(c, newm), chain, (bound << 1) | 1u32, size, i + 1);
            (rest.0, true, rest.2)
        }
    }
}

/// The initial bound mask of `init_board`: everything below the first
/// cell's smallest candidate, together with everything above the last
/// cell's largest candidate.
pub open spec fn init_bound(masks: Seq<u32>, chain: Seq<usize>, size: int) -> u32
    recommends
        chain.len() > 0,
{
    low_bits(mask_min(masks[chain[0] as int]) - 1) | (low_bits(size) & !low_bits(
        mask_max(masks[chain[chain.len() - 1] as int]),
    ))
}

/// What `init_board` leaves on the board, and whether it changed or
/// contradicted anything: an empty chain is a no-op, otherwise one
/// forward sweep from the initial bound mask.
pub open spec fn init_result(masks: Seq<u32>, chain: Seq<usize>, size: int) -> (Seq<u32>, bool, bool) {
    if chain.len() == 0 {
        (masks, false, false)
    } else {
        init_walk(masks, chain, init_bound(masks, chain, size), size, 0)
    }
}

/// A strictly increasing assignment along the chain, each value drawn
/// from the cell's mask: `a[i]` is the value of chain cell `i`.
pub open spec fn chain_solution(a: Seq<int>, chain: Seq<usize>, masks: Seq<u32>) -> bool {
    a.len() == chain.len() && (forall|i: int|
        0 <= i < a.len() ==> #[trigger] mask_has(masks[chain[i] as int], a[i])) && (forall|i: int|
        1 <= i < a.len() ==> a[i - 1] < #[trigger] a[i])
}

/// An adjacent pair at rest under the pairwise sweep: both cells have
/// candidates, and both the smallest and the largest candidates
/// strictly increase from the first cell to the second.
pub open spec fn stable_pair(a: u32, b: u32) -> bool {
    a != 0 && b != 0 && mask_min(a) < mask_min(b) && mask_max(a) < mask_max(b)
}

/// The whole chain at rest: a fixpoint of `step_logic`'s sweep.
pub open spec fn chain_stable(chain: Seq<usize>, masks: Seq<u32>) -> bool {
    forall|i: int|
        0 <= i < chain.len() - 1 ==> stable_pair(
            masks[#[trigger] chain[i] as int],
            masks[chain[i + 1] as int],
        )
}

/// The total number of candidates left on the chain's cells: the
/// measure that bounds the sweeping of `step_logic`.
pub open spec fn chain_card(chain: Seq<usize>, masks: Seq<u32>) -> int
    decreases chain.len(),
{
    if chain.len() == 0 {
        0
    } else {
        mask_card(masks[chain[0] as int]) + chain_card(chain.drop_first(), masks)
    }
}

proof fn lemma_chain_card_nonneg(chain: Seq<usize>, masks: Seq<u32>)
    ensures
        chain_card(chain, masks) >= 0,
    decreases chain.len(),
{
    if chain.len() > 0 {
        lemma_card_nonneg(masks[chain[0] as int]);
        lemma_chain_card_nonneg(chain.drop_first(), masks);
    }
}

proof fn lemma_chain_card_le(chain: Seq<usize>, m1: Seq<u32>, m2: Seq<u32>)
    requires
        narrows(m1, m2),
        forall|i: int| 0 <= i < chain.len() ==> (#[trigger] chain[i]) < m1.len(),
    ensures
        chain_card(chain, m2) <= chain_card(chain, m1),
    decreases chain.len(),
{
    if chain.len() > 0 {
        assert(mask_subset(m2[chain[0] as int], m1[chain[0] as int]));
        lemma_card_le(m2[chain[0] as int], m1[chain[0] as int]);
        assert(forall|i: int|
            0 <= i < chain.drop_first().len() ==> (#[trigger] chain.drop_first()[i]) < m1.len());
        lemma_chain_card_le(chain.drop_first(), m1, m2);
    }
}

proof fn lemma_chain_card_lt(chain: Seq<usize>, m1: Seq<u32>, m2: Seq<u32>, c: usize, v: int)
    requires
        narrows(m1, m2),
        forall|i: int| 0 <= i < chain.len() ==> (#[trigger] chain[i]) < m1.len(),
        (c as int) < m1.len(),
        chain.contains(c),
        mask_has(m1[c as int], v),
        !mask_has(m2[c as int], v),
    ensures
        chain_card(chain, m2) < chain_card(chain, m1),
    decreases chain.len(),
{
    assert(chain.len() > 0);
    assert(chain_card(chain, m1) == mask_card(m1[chain[0] as int]) + chain_card(
        chain.drop_first(),
        m1,
    ));
    assert(chain_card(chain, m2) == mask_card(m2[chain[0] as int]) + chain_card(
        chain.drop_first(),
        m2,
    ));
    assert(forall|i: int|
        0 <= i < chain.drop_first().len() ==> (#[trigger] chain.drop_first()[i]) < m1.len());
    if chain[0] == c {
        assert(mask_subset(m2[c as int], m1[c as int]));
        lemma_card_lt(m2[c as int], m1[c as int], v);
        lemma_chain_card_le(chain.drop_first(), m1, m2);
    } else {
        assert(mask_subset(m2[chain[0] as int], m1[chain[0] as int]));
        lemma_card_le(m2[chain[0] as int], m1[chain[0] as int]);
        let j = choose|j: int| 0 <= j < chain.len() && chain[j] == c;
        assert(chain.drop_first()[j - 1] == c);
        assert(chain.drop_first().contains(c));
        lemma_chain_card_lt(chain.drop_first(), m1, m2, c, v);
    }
}

proof fn lemma_stable_chain_min_lb(chain: Seq<usize>, masks: Seq<u32>, i: int)
    requires
        chain_stable(chain, masks),
        forall|i: int|
            0 <= i < chain.len() ==> masks[#[trigger] chain[i] as int] != 0u32,
        0 <= i < chain.len(),
    ensures
        mask_min(masks[chain[i] as int]) >= i + 1,
    decreases i,
{
    lemma_mask_min(masks[chain[i] as int]);
    if i > 0 {
        lemma_stable_chain_min_lb(chain, masks, i - 1);
        assert(stable_pair(masks[chain[i - 1] as int], masks[chain[i] as int]));
    }
}

proof fn lemma_stable_chain_max_ub(chain: Seq<usize>, masks: Seq<u32>, i: int, size: int)
    requires
        chain_stable(chain, masks),
        forall|i: int|
            0 <= i < chain.len() ==> masks[#[trigger] chain[i] as int] != 0u32,
        forall|i: int, v: int|
            0 <= i < chain.len() && #[trigger] mask_has(masks[chain[i] as int], v) ==> 1 <= v
                <= size,
        chain.len() == size,
        0 <= i < chain.len(),
    ensures
        mask_max(masks[chain[i] as int]) <= i + 1,
    decreases chain.len() - i,
{
    lemma_mask_max(masks[chain[i] as int]);
    if i < chain.len() - 1 {
        lemma_stable_chain_max_ub(chain, masks, i + 1, size);
        assert(stable_pair(masks[chain[i] as int], masks[chain[i + 1] as int]));
    }
}

/// Convergence on a full-length chain: when an ordering chain covers as
/// many cells as the board has values and the chain is at the sweep's
/// fixpoint with no cell emptied, every chain cell is down to a single
/// candidate, and those candidates strictly increase along the chain:
/// cell `i` holds exactly the value `i + 1`.  Together with
/// `step_logic`'s contract (a non-contradictory return leaves the chain
/// stable and nonempty) this shows that repeated propagation on such a
/// puzzle ends in the unique solved state.
pub proof fn lemma_stable_full_chain_solves(chain: Seq<usize>, masks: Seq<u32>, size: int)
    requires
        chain_stable(chain, masks),
        forall|i: int|
            0 <= i < chain.len() ==> masks[#[trigger] chain[i] as int] != 0u32,
        forall|i: int, v: int|
            0 <= i < chain.len() && #[trigger] mask_has(masks[chain[i] as int], v) ==> 1 <= v
                <= size,
        chain.len() == size,
    ensures
        forall|i: int, v: int|
            0 <= i < chain.len() ==> (#[trigger] mask_has(masks[chain[i] as int], v) <==> v == i
                + 1),
{
    assert forall|i: int, v: int|
        0 <= i < chain.len() implies (#[trigger] mask_has(masks[chain[i] as int], v) <==> v == i
        + 1) by {
        lemma_stable_chain_min_lb(chain, masks, i);
        lemma_stable_chain_max_ub(chain, masks, i, size);
        lemma_mask_min(masks[chain[i] as int]);
        lemma_mask_max(masks[chain[i] as int]);
    }
}

proof fn lemma_solution_monotone(a: Seq<int>, chain: Seq<usize>, masks: Seq<u32>, p: int, q: int)
    requires
        chain_solution(a, chain, masks),
        0 <= p <= q < a.len(),
    ensures
        a[p] <= a[q],
    decreases q - p,
{
    if p < q {
        lemma_solution_monotone(a, chain, masks, p, q - 1);
        assert(a[q - 1] < a[q]);
    }
}

proof fn lemma_init_walk_preserves(
    masks: Seq<u32>,
    chain: Seq<usize>,
    bound: u32,
    size: int,
    i: int,
    a: Seq<int>,
)
    requires
        distinct_chain(chain),
        forall|j: int| 0 <= j < chain.len() ==> (#[trigger] chain[j]) < masks.len(),
        0 <= i <= chain.len(),
        1 <= size <= 31,
        chain_solution(a, chain, masks),
        i < chain.len() ==> forall|v: int|
            #[trigger] mask_has(low_bits(size) & bound, v) ==> v < a[i] || v > a[a.len() - 1],
    ensures
        chain_solution(a, chain, init_walk(masks, chain, bound, size, i).0),
        !init_walk(masks, chain, bound, size, i).2,
    decreases chain.len() - i,
{
    if i < chain.len() {
        let c = chain[i] as int;
        let cur = masks[c];
        let full = low_bits(size);
        let newm = cur & !(full & bound);
        lemma_has_diff(cur, full & bound);
        lemma_has_zero();
        assert(mask_has(cur, a[i]));
        if mask_has(full & bound, a[i]) {
            lemma_solution_monotone(a, chain, masks, i, a.len() - 1);
            assert(false);
        }
        assert(mask_has(newm, a[i]));
        if newm == cur {
            if i + 1 < chain.len() {
                assert forall|v: int| #[trigger] mask_has(full & bound, v) implies v < a[i + 1]
                    || v > a[a.len() - 1] by {
                    assert(a[i] < a[i + 1]);
                }
            }
            lemma_init_walk_preserves(masks, chain, bound, size, i + 1, a);
        } else {
            let masks2 = masks.update(c, newm);
            assert forall|p: int| 0 <= p < a.len() implies #[trigger] mask_has(
                masks2[chain[p] as int],
                a[p],
            ) by {
                if chain[p] == chain[i] {
                    assert(p == i);
                }
            }
            assert(chain_solution(a, chain, masks2));
            let bound2 = (bound << 1) | 1u32;
            lemma_has_widen(bound);
            lemma_has_and(full, bound2);
            lemma_has_and(full, bound);
            lemma_has_low(size);
            if i + 1 < chain.len() {
                assert forall|v: int| #[trigger] mask_has(full & bound2, v) implies v < a[i + 1]
                    || v > a[a.len() - 1] by {
                    assert(a[i] < a[i + 1]);
                    assert(1 <= a[i]);
                    if v != 1 {
                        assert(mask_has(bound, v - 1));
                        assert(mask_has(full, v - 1));
                        assert(mask_has(full & bound, v - 1));
                    }
                }
            }
            lemma_init_walk_preserves(masks2, chain, bound2, size, i + 1, a);
        }
    }
}

/// Soundness of the one-time init sweep: every strictly increasing
/// assignment the chain admits before the sweep is still admitted by
/// what the sweep leaves, and the sweep never reports a contradiction
/// while such an assignment exists.
pub proof fn lemma_init_preserves_solutions(
    masks: Seq<u32>,
    chain: Seq<usize>,
    size: int,
    a: Seq<int>,
)
    requires
        distinct_chain(chain),
        forall|j: int| 0 <= j < chain.len() ==> (#[trigger] chain[j]) < masks.len(),
        forall|c: int, v: int|
            0 <= c < masks.len() && #[trigger] mask_has(masks[c], v) ==> 1 <= v <= size,
        1 <= size <= 31,
        chain_solution(a, chain, masks),
    ensures
        chain_solution(a, chain, init_result(masks, chain, size).0),
        !init_result(masks, chain, size).2,
{
    if chain.len() > 0 {
        let first = chain[0] as int;
        let last = chain[chain.len() - 1] as int;
        lemma_has_zero();
        assert(mask_has(masks[first], a[0]));
        assert(mask_has(masks[last], a[a.len() - 1]));
        lemma_mask_min(masks[first]);
        lemma_mask_max(masks[last]);
        let min_f = mask_min(masks[first]);
        let max_l = mask_max(masks[last]);
        let b0 = init_bound(masks, chain, size);
        lemma_has_and(low_bits(size), b0);
        lemma_has_or(low_bits(min_f - 1), low_bits(size) & !low_bits(max_l));
        lemma_has_low(min_f - 1);
        lemma_has_diff(low_bits(size), low_bits(max_l));
        lemma_has_low(max_l);
        lemma_has_low(size);
        assert forall|v: int| #[trigger] mask_has(low_bits(size) & b0, v) implies v < a[0] || v
            > a[a.len() - 1] by {
            if mask_has(low_bits(min_f - 1), v) {
                assert(v < min_f);
            } else {
                assert(v > max_l);
            }
        }
        lemma_init_walk_preserves(masks, chain, b0, size, 0, a);
    }
}

/// Removing, at one adjacent pair of the chain, only values at or
/// below the pair's lower reference (forward) or at or above its upper
/// reference (backward) keeps every strictly increasing assignment
/// that the chain still admitted.
proof fn lemma_clear_preserves_solutions(
    entry: Seq<u32>,
    pre: Seq<u32>,
    post: Seq<u32>,
    ch: Seq<usize>,
    ti: int,
    removed: u32,
    forward: bool,
)
    requires
        distinct_chain(ch),
        forall|i: int| 0 <= i < ch.len() ==> (#[trigger] ch[i]) < pre.len(),
        entry.len() == pre.len(),
        0 <= ti < ch.len() - 1,
        pre[ch[ti] as int] != 0u32,
        pre[ch[ti + 1] as int] != 0u32,
        forward ==> post == pre.update(ch[ti + 1] as int, pre[ch[ti + 1] as int] & !removed),
        forward ==> forall|v: int|
            #[trigger] mask_has(removed, v) ==> v <= mask_min(pre[ch[ti] as int]),
        !forward ==> post == pre.update(ch[ti] as int, pre[ch[ti] as int] & !removed),
        !forward ==> forall|v: int|
            #[trigger] mask_has(removed, v) ==> v >= mask_max(pre[ch[ti + 1] as int]),
        forall|a: Seq<int>| #[trigger] chain_solution(a, ch, entry) ==> chain_solution(a, ch, pre),
    ensures
        forall|a: Seq<int>| #[trigger] chain_solution(a, ch, entry) ==> chain_solution(a, ch, post),
{
    let cur = ch[ti] as int;
    let next = ch[ti + 1] as int;
    lemma_mask_min(pre[cur]);
    lemma_mask_max(pre[next]);
    if forward {
        lemma_has_diff(pre[next], removed);
    } else {
        lemma_has_diff(pre[cur], removed);
    }
    assert forall|a: Seq<int>| #[trigger] chain_solution(a, ch, entry) implies chain_solution(
        a,
        ch,
        post,
    ) by {
        assert(chain_solution(a, ch, pre));
        assert forall|p: int| 0 <= p < a.len() implies #[trigger] mask_has(
            post[ch[p] as int],
            a[p],
        ) by {
            if forward {
                if ch[p] == ch[ti + 1] {
                    assert(p == ti + 1);
                    assert(mask_has(pre[cur], a[ti]));
                    assert(a[ti] >= mask_min(pre[cur]));
                    assert(a[p] > a[ti]);
                    assert(!mask_has(removed, a[p]));
                }
            } else {
                if ch[p] == ch[ti] {
                    assert(p == ti);
                    assert(mask_has(pre[next], a[p + 1]));
                    assert(a[p + 1] <= mask_max(pre[next]));
                    assert(a[p] < a[p + 1]);
                    assert(!mask_has(removed, a[p]));
                }
            }
        }
    }
}

/// An ordering constraint over a chain of cells.
#[derive(Clone, Debug)]
pub struct ThermometerConstraint {
    specific_name: String,
    cells: Vec<usize>,
}

impl ThermometerConstraint {
    /// The chain of cell indices governed by this constraint.
    pub closed spec fn chain(self) -> Seq<usize> {
        self.cells@
    }

    /// The display name of this constraint.
    pub closed spec fn spec_name(self) -> Seq<char> {
        self.specific_name@
    }

    /// The chain never repeats a cell; `new` establishes this.
    pub open spec fn wf(self) -> bool {
        distinct_chain(self.chain())
    }

    /// Every chain cell is a cell of `board`.
    pub open spec fn fits(self, board: Board) -> bool {
        forall|i: int| 0 <= i < self.chain().len() ==> (#[trigger] self.chain()[i]) < board@.len()
    }

    /// Every chain cell still has a candidate on `board`.
    pub open spec fn chain_masks_nonempty(self, board: Board) -> bool {
        forall|i: int|
            0 <= i < self.chain().len() ==> board@[#[trigger] self.chain()[i] as int] != 0u32
    }

    /// Build a constraint over `cells`.  A malformed chain (one that
    /// repeats a cell) degrades to a no-op constraint rather than
    /// failing construction.
    #[verifier::loop_isolation(false)]
    pub fn new(specific_name: &str, cells: Vec<usize>) -> (r: Self)
        ensures
            r.wf(),
            r.spec_name() == specific_name@,
            distinct_chain(cells@) ==> r.chain() == cells@,
            !distinct_chain(cells@) ==> r.chain() == Seq::<usize>::empty(),
    {
        let n = cells.len();
        let mut i: usize = 0;
        while i < n
            invariant
                i <= n,
                n == cells@.len(),
                forall|a: int, b: int| 0 <= a < b < n && a < i ==> cells@[a] != cells@[b],
            decreases n - i,
        {
            let mut j: usize = i + 1;
            while j < n
                invariant
                    i < j <= n,
                    i < n,
                    n == cells@.len(),
                    forall|a: int, b: int| 0 <= a < b < n && a < i ==> cells@[a] != cells@[b],
                    forall|b: int| i < b < j ==> cells@[i as int] != cells@[b],
                decreases n - j,
            {
                if cells[i] == cells[j] {
                    return ThermometerConstraint {
                        specific_name: specific_name.to_owned(),
                        cells: Vec::new(),
                    };
                }
                j = j + 1;
            }
            i = i + 1;
        }
        ThermometerConstraint { specific_name: specific_name.to_owned(), cells }
    }

    /// The identifying name of this constraint, for diagnostics.
    pub fn name(&self) -> (r: &str)
        ensures
            r@ == self.spec_name(),
    {
        self.specific_name.as_str()
    }

    /// Whether `cell` is on the chain.
    #[verifier::loop_isolation(false)]
    fn chain_contains(&self, cell: usize) -> (r: bool)
        ensures
            r == self.chain().contains(cell),
    {
        let n = self.cells.len();
        let mut j: usize = 0;
        while j < n
            invariant
                j <= n,
                n == self.chain().len(),
                forall|k: int| 0 <= k < j ==> self.chain()[k] != cell,
            decreases n - j,
        {
            if self.cells[j] == cell {
                proof {
                    assert(self.chain()[j as int] == cell);
                }
                return true;
            }
            j = j + 1;
        }
        proof {
            assert(forall|k: int| 0 <= k < self.chain().len() ==> self.chain()[k] != cell);
        }
        false
    }

    /// The smallest candidate of `m` strictly above `bound`, if any.
    #[verifier::loop_isolation(false)]
    fn first_above(m: &crate::mask::ValueMask, bound: usize) -> (r: Option<usize>)
        ensures
            match r {
                Some(w) => 1 <= w <= 32 && w == first_candidate_above(m@, bound as int, 1),
                None => first_candidate_above(m@, bound as int, 1) == 33,
            },
    {
        let mut v: usize = 1;
        while v <= 32
            invariant
                1 <= v <= 33,
                first_candidate_above(m@, bound as int, 1) == first_candidate_above(
                    m@,
                    bound as int,
                    v as int,
                ),
            decreases 33 - v,
        {
            if v > bound && m.contains(v) {
                return Some(v);
            }
            v = v + 1;
        }
        None
    }

    /// The read-only feasibility check: when the driver tentatively
    /// fixes `cell` to `val`, report a contradiction exactly when the
    /// ascending-threshold walk over the chain cannot be completed; a
    /// cell off the chain (or an empty chain) is no concern of this
    /// constraint.  The board is never mutated.
    #[verifier::loop_isolation(false)]
    pub fn enforce(&self, board: &Board, cell: usize, val: usize) -> (r: StepResult)
        requires
            self.wf(),
            board.wf(),
            self.fits(*board),
        ensures
            !(r is Progress),
            !self.chain().contains(cell) ==> r is NoProgress,
            r is Contradiction ==> r == StepResult::Contradiction(None::<StepDesc>),
            r is Contradiction <==> (self.chain().contains(cell) && !feasible_from(
                board@,
                self.chain(),
                cell,
                val as int,
                0,
                0,
            )),
    {
        if self.cells.len() == 0 {
            return StepResult::NoProgress;
        }
        if !self.chain_contains(cell) {
            return StepResult::NoProgress;
        }
        let n = self.cells.len();
        let mut bound: usize = 0;
        let mut i: usize = 0;
        while i < n
            invariant
                i <= n,
                n == self.chain().len(),
                feasible_from(board@, self.chain(), cell, val as int, 0, 0) == feasible_from(
                    board@,
                    self.chain(),
                    cell,
                    val as int,
                    bound as int,
                    i as int,
                ),
            decreases n - i,
        {
            let c = self.cells[i];
            if c == cell {
                if val > bound {
                    bound = val;
                } else {
                    return StepResult::Contradiction(None);
                }
            } else {
                let m = board.cell(c);
                match Self::first_above(&m, bound) {
                    Some(w) => {
                        bound = w;
                    },
                    None => {
                        return StepResult::Contradiction(None);
                    },
                }
            }
            i = i + 1;
        }
        StepResult::NoProgress
    }

    /// The one-time deduction run immediately after puzzle load: a
    /// single forward sweep that clears, at each chain cell in order,
    /// the values flagged by a bound mask seeded from the first cell's
    /// smallest and the last cell's largest candidate, widening the
    /// bound one position after every cell that shrank.  Reports
    /// progress exactly when some cell shrank and a contradiction
    /// exactly when some cell was emptied; an empty chain is a no-op.
    /// Every strictly increasing assignment the chain admitted is
    /// still admitted afterwards, so a chain with a solution is never
    /// contradicted here.
    #[verifier::loop_isolation(false)]
    pub fn init_board(&mut self, board: &mut Board) -> (r: StepResult)
        requires
            old(self).wf(),
            old(board).wf(),
            old(self).fits(*old(board)),
            old(self).chain_masks_nonempty(*old(board)),
        ensures
            *final(self) == *old(self),
            final(board).wf(),
            final(board).spec_size() == old(board).spec_size(),
            ({
                let w = init_result(old(board)@, old(self).chain(), old(board).spec_size());
                final(board)@ == w.0 && (r is Contradiction <==> w.2) && (!w.2 ==> (r
                    is Progress <==> w.1)) && (!w.2 ==> (r is NoProgress <==> !w.1))
            }),
            narrows(old(board)@, final(board)@),
            untouched_outside(old(self).chain(), old(board)@, final(board)@),
            r is NoProgress ==> final(board)@ == old(board)@,
            forall|a: Seq<int>| #[trigger] chain_solution(a, old(self).chain(), old(board)@)
                ==> chain_solution(a, old(self).chain(), final(board)@),
            (exists|a: Seq<int>| #[trigger] chain_solution(a, old(self).chain(), old(board)@))
                ==> !(r is Contradiction),
            old(self).chain().len() == 0 ==> r is NoProgress && final(board)@ == old(board)@,
            r is Progress ==> r == StepResult::Progress(None::<StepDesc>),
            r is Contradiction ==> r == StepResult::Contradiction(
                None::<StepDesc>,
            ),
    {
        let ghost ch = old(self).chain();
        proof {
            assert forall|a: Seq<int>| #[trigger] chain_solution(a, ch, old(board)@) implies
                chain_solution(
                a,
                ch,
                init_result(old(board)@, ch, old(board).spec_size()).0,
            ) && !init_result(old(board)@, ch, old(board).spec_size()).2 by {
                lemma_init_preserves_solutions(old(board)@, ch, old(board).spec_size(), a);
            }
        }
        if self.cells.len() == 0 {
            return StepResult::NoProgress;
        }
        let n = self.cells.len();
        let size = board.size();
        let first = self.cells[0];
        let last = self.cells[n - 1];
        let first_mask = board.cell(first);
        let last_mask = board.cell(last);
        proof {
            assert(ch[0] < old(board)@.len());
            assert(ch[n - 1] < old(board)@.len());
            assert(first_mask@ != 0u32);
            assert(last_mask@ != 0u32);
            lemma_mask_max(last_mask@);
        }
        let min_val = first_mask.min();
        let max_val = last_mask.max();
        let mut clear = ValueMask::from_lower(min_val).union_with(
            &ValueMask::from_higher(max_val, size),
        );
        let all_values = ValueMask::from_all_values(size);
        let mut changed = false;
        let mut i: usize = 0;
        proof {
            assert(clear@ == init_bound(old(board)@, ch, size as int));
        }
        while i < n
            invariant
                i <= n,
                n == ch.len(),
                board.wf(),
                board.spec_size() == old(board).spec_size(),
                board@.len() == old(board)@.len(),
                all_values@ == low_bits(size as int),
                init_result(old(board)@, ch, size as int) == ({
                    let rest = init_walk(board@, ch, clear@, size as int, i as int);
                    (rest.0, changed || rest.1, rest.2)
                }),
                narrows(old(board)@, board@),
                untouched_outside(ch, old(board)@, board@),
                old(self).chain_masks_nonempty(*board),
                !changed ==> board@ == old(board)@,
            decreases n - i,
        {
            let ghost pre = board@;
            let ghost pre_clear = clear@;
            let c = self.cells[i];
            let cur_mask = board.cell(c);
            let to_clear = all_values.intersect(&clear);
            let new_mask = cur_mask.minus(&to_clear);
            proof {
                assert(ch[i as int] == c);
            }
            if !new_mask.same(&cur_mask) {
                let res = board.clear_mask(c, to_clear);
                proof {
                    lemma_has_diff(cur_mask@, to_clear@);
                    let ci = ch[i as int] as int;
                    let newm_s = pre[ci] & !(low_bits(size as int) & pre_clear);
                    assert(newm_s == new_mask@);
                    assert(board@ == pre.update(ci, newm_s));
                    if new_mask@ == 0u32 {
                        assert(init_walk(pre, ch, pre_clear, size as int, i as int) == (
                            pre.update(ci, newm_s),
                            true,
                            true,
                        ));
                    } else {
                        let rest = init_walk(
                            board@,
                            ch,
                            (pre_clear << 1) | 1u32,
                            size as int,
                            i as int + 1,
                        );
                        assert(init_walk(pre, ch, pre_clear, size as int, i as int) == (
                            rest.0,
                            true,
                            rest.2,
                        ));
                    }
                }
                if !res {
                    return StepResult::Contradiction(None);
                }
                changed = true;
                clear = ValueMask::from_raw((clear.raw() << 1) | 1u32);
            } else {
                proof {
                    let ci = ch[i as int] as int;
                    let newm_s = pre[ci] & !(low_bits(size as int) & pre_clear);
                    assert(newm_s == new_mask@);
                    assert(newm_s == pre[ci]);
                    assert(init_walk(pre, ch, pre_clear, size as int, i as int) == init_walk(
                        pre,
                        ch,
                        pre_clear,
                        size as int,
                        i as int + 1,
                    ));
                }
            }
            i = i + 1;
        }
        if changed {
            StepResult::Progress(None)
        } else {
            StepResult::NoProgress
        }
    }

    /// One sweep over every adjacent pair of the chain, in chain order:
    /// forward monotonic pressure (the second cell loses every value at
    /// or below the first cell's reference), then backward pressure
    /// (the first cell loses every value at or above the second cell's
    /// post-forward reference).  Returns whether anything changed and,
    /// on a contradiction, the cell that was emptied.
    #[verifier::loop_isolation(false)]
    #[verifier::rlimit(100)]
    fn sweep_once(&self, board: &mut Board) -> (r: (bool, Option<usize>))
        requires
            self.wf(),
            old(board).wf(),
            self.fits(*old(board)),
            self.chain_masks_nonempty(*old(board)),
            self.chain().len() >= 1,
        ensures
            final(board).wf(),
            final(board).spec_size() == old(board).spec_size(),
            narrows(old(board)@, final(board)@),
            untouched_outside(self.chain(), old(board)@, final(board)@),
            forall|a: Seq<int>| #[trigger] chain_solution(a, self.chain(), old(board)@)
                ==> chain_solution(a, self.chain(), final(board)@),
            match r.1 {
                Some(cell) => self.chain().contains(cell) && final(board)@[cell as int] == 0u32,
                None => self.chain_masks_nonempty(*final(board)),
            },
            r.1 is Some ==> r.0,
            !r.0 ==> final(board)@ == old(board)@,
            r.0 ==> exists|c: int, v: int|
                0 <= c < old(board)@.len() && self.chain().contains(c as usize)
                    && #[trigger] mask_has(old(board)@[c], v) && !#[trigger] mask_has(
                    final(board)@[c],
                    v,
                ),
            r.1 is None && !r.0 ==> chain_stable(self.chain(), final(board)@),
            chain_stable(self.chain(), old(board)@) ==> !r.0 && r.1 is None,
    {
        let ghost ch = self.chain();
        let n = self.cells.len();
        let size = board.size();
        let mut changed = false;
        let mut ti: usize = 0;
        while ti < n - 1
            invariant
                ti <= n - 1,
                board.wf(),
                board.spec_size() == old(board).spec_size(),
                board@.len() == old(board)@.len(),
                narrows(old(board)@, board@),
                untouched_outside(ch, old(board)@, board@),
                self.chain_masks_nonempty(*board),
                forall|a: Seq<int>| #[trigger] chain_solution(a, ch, old(board)@)
                    ==> chain_solution(a, ch, board@),
                changed ==> exists|c: int, v: int|
                    0 <= c < old(board)@.len() && ch.contains(c as usize)
                        && #[trigger] mask_has(old(board)@[c], v) && !#[trigger] mask_has(
                        board@[c],
                        v,
                    ),
                !changed ==> board@ == old(board)@ && forall|j: int|
                    0 <= j < ti ==> stable_pair(
                        board@[#[trigger] ch[j] as int],
                        board@[ch[j + 1] as int],
                    ),
                chain_stable(ch, old(board)@) ==> !changed,
            decreases n - 1 - ti,
        {
            let ghost pre = board@;
            let ghost pre_changed = changed;
            let cur_cell = self.cells[ti];
            let next_cell = self.cells[ti + 1];
            proof {
                assert(ch[ti as int] == cur_cell);
                assert(ch[ti as int + 1] == next_cell);
                assert(cur_cell != next_cell);
            }
            let cur_mask = board.cell(cur_cell);
            let next_mask = board.cell(next_cell);
            proof {
                lemma_mask_min(cur_mask@);
            }
            let ref_min = if cur_mask.is_single() {
                cur_mask.value()
            } else {
                cur_mask.min()
            };
            let low = ValueMask::from_lower_equal(ref_min);
            let clear_fwd = next_mask.intersect(&low);
            if !clear_fwd.is_empty() {
                changed = true;
                proof {
                    lemma_mask_min(clear_fwd@);
                    if chain_stable(ch, old(board)@) {
                        assert(pre == old(board)@);
                        assert(stable_pair(
                            old(board)@[ch[ti as int] as int],
                            old(board)@[ch[ti as int + 1] as int],
                        ));
                        let w = mask_min(clear_fwd@);
                        assert(mask_has(next_mask@, w));
                        assert(w <= ref_min);
                        lemma_mask_min(pre[next_cell as int]);
                        assert(false);
                    }
                }
            }
            let res = board.clear_mask(next_cell, clear_fwd);
            proof {
                lemma_has_diff(next_mask@, clear_fwd@);
                assert(forall|v: int|
                    #[trigger] mask_has(clear_fwd@, v) ==> v <= mask_min(
                        pre[ch[ti as int] as int],
                    ));
                lemma_clear_preserves_solutions(
                    old(board)@,
                    pre,
                    board@,
                    ch,
                    ti as int,
                    clear_fwd@,
                    true,
                );
            }
            if !res {
                proof {
                    if clear_fwd@ == 0u32 {
                        lemma_diff_zero(next_mask@);
                        assert(false);
                    }
                    lemma_has_zero();
                    lemma_mask_min(pre[next_cell as int]);
                    let mv = mask_min(pre[next_cell as int]);
                    assert(mask_has(old(board)@[next_cell as int], mv) && !mask_has(
                        board@[next_cell as int],
                        mv,
                    ));
                }
                return (changed, Some(next_cell));
            }
            let ghost pre2 = board@;
            let next_mask2 = board.cell(next_cell);
            proof {
                lemma_mask_max(next_mask2@);
            }
            let ref_max = if next_mask2.is_single() {
                next_mask2.value()
            } else {
                next_mask2.max()
            };
            let high = ValueMask::from_higher(ref_max - 1, size);
            let cur_mask2 = board.cell(cur_cell);
            let clear_bwd = cur_mask2.intersect(&high);
            if !clear_bwd.is_empty() {
                changed = true;
                proof {
                    lemma_mask_min(clear_bwd@);
                    if chain_stable(ch, old(board)@) {
                        assert(pre == old(board)@);
                        lemma_diff_zero(pre[next_cell as int]);
                        assert(pre2 =~= pre);
                        assert(stable_pair(
                            old(board)@[ch[ti as int] as int],
                            old(board)@[ch[ti as int + 1] as int],
                        ));
                        let w = mask_min(clear_bwd@);
                        assert(mask_has(cur_mask2@, w));
                        assert(w >= ref_max);
                        lemma_mask_max(pre2[cur_cell as int]);
                        assert(false);
                    }
                }
            }
            let res2 = board.clear_mask(cur_cell, clear_bwd);
            proof {
                lemma_has_diff(cur_mask2@, clear_bwd@);
                assert(forall|v: int|
                    #[trigger] mask_has(clear_bwd@, v) ==> v >= mask_max(
                        pre2[ch[ti as int + 1] as int],
                    ));
                lemma_clear_preserves_solutions(
                    old(board)@,
                    pre2,
                    board@,
                    ch,
                    ti as int,
                    clear_bwd@,
                    false,
                );
            }
            if !res2 {
                proof {
                    if clear_bwd@ == 0u32 {
                        lemma_diff_zero(cur_mask2@);
                        assert(false);
                    }
                    lemma_has_zero();
                    lemma_mask_min(pre2[cur_cell as int]);
                    let mv = mask_min(pre2[cur_cell as int]);
                    assert(mask_has(old(board)@[cur_cell as int], mv) && !mask_has(
                        board@[cur_cell as int],
                        mv,
                    ));
                }
                return (changed, Some(cur_cell));
            }
            proof {
                if changed {
                    if clear_bwd@ != 0u32 {
                        lemma_mask_min(clear_bwd@);
                        let w = mask_min(clear_bwd@);
                        assert(mask_has(cur_mask2@, w));
                        assert(!mask_has(board@[cur_cell as int], w));
                        assert(mask_has(old(board)@[cur_cell as int], w));
                    } else if clear_fwd@ != 0u32 {
                        lemma_mask_min(clear_fwd@);
                        let w = mask_min(clear_fwd@);
                        assert(mask_has(pre[next_cell as int], w));
                        assert(!mask_has(pre2[next_cell as int], w));
                        assert(board@[next_cell as int] == pre2[next_cell as int]);
                        assert(mask_has(old(board)@[next_cell as int], w));
                    } else {
                        assert(pre_changed);
                        lemma_diff_zero(pre[next_cell as int]);
                        lemma_diff_zero(pre2[cur_cell as int]);
                        assert(pre2 =~= pre);
                        assert(board@ =~= pre);
                    }
                } else {
                    lemma_diff_zero(pre[next_cell as int]);
                    lemma_diff_zero(pre2[cur_cell as int]);
                    assert(pre2 =~= pre);
                    assert(board@ =~= pre);
                    lemma_has_zero();
                    lemma_mask_min(board@[cur_cell as int]);
                    lemma_mask_min(board@[next_cell as int]);
                    lemma_mask_max(board@[cur_cell as int]);
                    lemma_mask_max(board@[next_cell as int]);
                    if mask_min(board@[cur_cell as int]) >= mask_min(board@[next_cell as int]) {
                        let w = mask_min(board@[next_cell as int]);
                        assert(mask_has(next_mask@, w));
                        assert(1 <= w <= ref_min);
                        assert(mask_has(clear_fwd@, w));
                        assert(false);
                    }
                    if mask_max(board@[cur_cell as int]) >= mask_max(board@[next_cell as int]) {
                        let w = mask_max(board@[cur_cell as int]);
                        assert(mask_has(cur_mask2@, w));
                        assert(w >= ref_max);
                        assert(w <= board.spec_size());
                        assert(mask_has(high@, w));
                        assert(mask_has(clear_bwd@, w));
                        assert(false);
                    }
                    assert(stable_pair(
                        board@[ch[ti as int] as int],
                        board@[ch[ti as int + 1] as int],
                    ));
                }
            }
            ti = ti + 1;
        }
        (changed, None)
    }

    /// The propagation step: sweep over every adjacent pair of the
    /// chain until a full sweep changes nothing, reporting progress
    /// exactly when some mask shrank, a contradiction (naming the cell)
    /// exactly when some chain cell ran out of candidates, and
    /// otherwise that the chain was already at a fixpoint.  The
    /// `_is_brute_forcing` flag permits a cheaper deduction but this
    /// constraint always runs the full sweep.  Masks only ever shrink,
    /// cells off the chain are untouched, and every strictly increasing
    /// assignment drawn from the old masks is still available in the
    /// new ones.  Because a board already at the fixpoint comes back
    /// unchanged with no progress, calling this again with no
    /// intervening external mutation reports no progress.
    #[verifier::loop_isolation(false)]
    pub fn step_logic(&self, board: &mut Board, _is_brute_forcing: bool) -> (r: StepResult)
        requires
            self.wf(),
            old(board).wf(),
            self.fits(*old(board)),
            self.chain_masks_nonempty(*old(board)),
        ensures
            final(board).wf(),
            final(board).spec_size() == old(board).spec_size(),
            narrows(old(board)@, final(board)@),
            untouched_outside(self.chain(), old(board)@, final(board)@),
            forall|a: Seq<int>| #[trigger] chain_solution(a, self.chain(), old(board)@)
                ==> chain_solution(a, self.chain(), final(board)@),
            r is NoProgress <==> final(board)@ == old(board)@,
            r is Contradiction <==> exists|i: int|
                0 <= i < self.chain().len() && final(board)@[#[trigger] self.chain()[i] as int]
                    == 0u32,
            r matches StepResult::Contradiction(d) ==> (d matches Some(desc)
                && self.chain().contains(desc.cell) && final(board)@[desc.cell as int] == 0u32),
            (exists|a: Seq<int>| #[trigger] chain_solution(a, self.chain(), old(board)@)) ==> !(r
                is Contradiction),
            !(r is Contradiction) ==> chain_stable(self.chain(), final(board)@)
                && self.chain_masks_nonempty(*final(board)),
            chain_stable(self.chain(), old(board)@) ==> r is NoProgress && final(board)@ == old(
                board,
            )@,
            self.chain().len() == 0 ==> r is NoProgress && final(board)@ == old(board)@,
            r is Progress ==> r == StepResult::Progress(None::<StepDesc>),
    {
        let ghost ch = self.chain();
        if self.cells.len() == 0 {
            return StepResult::NoProgress;
        }
        let mut had_change = false;
        let mut go = true;
        while go
            invariant
                board.wf(),
                board.spec_size() == old(board).spec_size(),
                board@.len() == old(board)@.len(),
                narrows(old(board)@, board@),
                untouched_outside(ch, old(board)@, board@),
                self.chain_masks_nonempty(*board),
                forall|a: Seq<int>| #[trigger] chain_solution(a, ch, old(board)@)
                    ==> chain_solution(a, ch, board@),
                had_change ==> exists|c: int, v: int|
                    0 <= c < old(board)@.len() && ch.contains(c as usize) && #[trigger] mask_has(old(board)@[c], v)
                        && !#[trigger] mask_has(board@[c], v),
                !had_change ==> board@ == old(board)@,
                !go ==> chain_stable(ch, board@),
                chain_stable(ch, old(board)@) ==> !had_change,
            decreases chain_card(ch, board@), (if go {
                1int
            } else {
                0int
            }),
        {
            let ghost pre = board@;
            let (changed, contra) = self.sweep_once(board);
            if let Some(cell) = contra {
                proof {
                    if exists|a: Seq<int>| #[trigger] chain_solution(a, ch, old(board)@) {
                        let a = choose|a: Seq<int>| #[trigger] chain_solution(a, ch, old(board)@);
                        let k = choose|k: int| 0 <= k < ch.len() && ch[k] == cell;
                        lemma_has_zero();
                        assert(mask_has(board@[ch[k] as int], a[k]));
                        assert(false);
                    }
                }
                return StepResult::Contradiction(Some(StepDesc { cell }));
            }
            if changed {
                had_change = true;
                proof {
                    assert(forall|i: int| 0 <= i < ch.len() ==> (#[trigger] ch[i]) < pre.len());
                    let (c, v) = choose|c: int, v: int|
                        0 <= c < pre.len() && ch.contains(c as usize) && #[trigger] mask_has(
                            pre[c],
                            v,
                        ) && !#[trigger] mask_has(board@[c], v);
                    let sz = old(board).spec_size();
                    assert(pre.len() <= 961) by (nonlinear_arith)
                        requires
                            pre.len() == sz * sz,
                            1 <= sz <= 31,
                    ;
                    lemma_chain_card_lt(ch, pre, board@, c as usize, v);
                }
            } else {
                go = false;
            }
            proof {
                lemma_chain_card_nonneg(ch, board@);
            }
        }
        if had_change {
            StepResult::Progress(None)
        } else {
            StepResult::NoProgress
        }
    }
}

/// The thermometer constraint seen through the engine's polymorphic
/// interface: its scope is its chain, its configuration is valid once
/// built by `new`, and it can be asked about any board that contains
/// its chain with a candidate left in every chain cell.
impl Constraint for ThermometerConstraint {
    open spec fn scope(&self) -> Seq<usize> {
        self.chain()
    }

    open spec fn valid(&self) -> bool {
        self.wf()
    }

    open spec fn admits(&self, board: Board) -> bool {
        self.fits(board) && self.chain_masks_nonempty(board)
    }

    fn name(&self) -> &str {
        ThermometerConstraint::name(self)
    }

    fn init_board(&mut self, board: &mut Board) -> StepResult {
        ThermometerConstraint::init_board(self, board)
    }

    fn enforce(&self, board: &Board, cell: usize, val: usize) -> StepResult {
        ThermometerConstraint::enforce(self, board, cell, val)
    }

    fn step_logic(&self, board: &mut Board, is_brute_forcing: bool) -> StepResult {
        ThermometerConstraint::step_logic(self, board, is_brute_forcing)
    }
}

} // verus!
