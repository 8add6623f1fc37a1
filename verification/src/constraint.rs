//! The polymorphic contract implemented by every constraint variant.
//!
//! The propagation driver owns one board per solve attempt and reaches
//! every constraint only through this interface; a constraint holds its
//! own fixed configuration and never stores a board reference between
//! calls.

use crate::board::Board;
use crate::mask::mask_has;
use crate::step_result::StepResult;
use vstd::prelude::*;

verus! {

/// Every mask of `after` is a subset of the mask of `before` at the
/// same cell: candidate masks only ever shrink.
pub open spec fn narrows(before: Seq<u32>, after: Seq<u32>) -> bool {
    after.len() == before.len() && forall|c: int, v: int|
        0 <= c < after.len() && #[trigger] mask_has(after[c], v) ==> mask_has(before[c], v)
}

/// Cells outside `scope` are left exactly as they were.
pub open spec fn untouched_outside(scope: Seq<usize>, before: Seq<u32>, after: Seq<u32>) -> bool {
    forall|c: int|
        0 <= c < before.len() && !scope.contains(c as usize) ==> #[trigger] after[c] == before[c]
}

/// A constraint of the puzzle: three deduction entry points over an
/// externally supplied board, bound by the engine's global rules.
/// Whatever a variant deduces, masks only ever shrink, cells outside
/// the variant's own scope are untouched, and a no-progress answer
/// means the board was not written at all.
pub trait Constraint {
    /// The cells this constraint governs; it writes no others.
    spec fn scope(&self) -> Seq<usize>;

    /// Whether this constraint's own fixed configuration is well
    /// formed.
    spec fn valid(&self) -> bool;

    /// Whether `board` is in a state this constraint can be asked
    /// about.
    spec fn admits(&self, board: Board) -> bool;

    /// The identifying name of the constraint, for diagnostics.
    fn name(&self) -> &str;

    /// The one-time deduction run immediately after puzzle load,
    /// before general propagation starts.
    fn init_board(&mut self, board: &mut Board) -> (r: StepResult)
        requires
            old(self).valid(),
            old(board).wf(),
            old(self).admits(*old(board)),
        ensures
            final(board).wf(),
            final(board).spec_size() == old(board).spec_size(),
            narrows(old(board)@, final(board)@),
            untouched_outside(old(self).scope(), old(board)@, final(board)@),
            r is NoProgress ==> final(board)@ == old(board)@,
    ;

    /// The read-only feasibility check of a tentative assignment of
    /// `val` to `cell`: it never mutates and never claims progress.
    fn enforce(&self, board: &Board, cell: usize, val: usize) -> (r: StepResult)
        requires
            self.valid(),
            board.wf(),
            self.admits(*board),
        ensures
            !(r is Progress),
    ;

    /// The propagation step: progress exactly when some mask shrank,
    /// so that repeating it at a fixpoint reports no progress.
    fn step_logic(&self, board: &mut Board, is_brute_forcing: bool) -> (r: StepResult)
        requires
            self.valid(),
            old(board).wf(),
            self.admits(*old(board)),
        ensures
            final(board).wf(),
            final(board).spec_size() == old(board).spec_size(),
            narrows(old(board)@, final(board)@),
            untouched_outside(self.scope(), old(board)@, final(board)@),
            r is NoProgress <==> final(board)@ == old(board)@,
    ;
}

} // verus!
