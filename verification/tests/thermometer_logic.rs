//! Behavioural tests for the thermometer constraint: the worked
//! examples of the engine's contract, plus edge cases.

use thermometer::Board;
use thermometer::Constraint;
use thermometer::ThermometerConstraint;
use thermometer::ValueMask;

/// Bits of the value range `lo..=hi` (value `v` is bit `v - 1`).
fn range_bits(lo: u32, hi: u32) -> u32 {
    let mut bits: u32 = 0;
    let mut v = lo;
    while v <= hi {
        bits |= 1u32 << (v - 1);
        v += 1;
    }
    bits
}

fn snapshot(board: &Board) -> Vec<u32> {
    let mut out = Vec::new();
    let mut c = 0usize;
    while c < board.cell_count() {
        out.push(board.cell(c).raw());
        c += 1;
    }
    out
}

#[test]
fn ordering_example_chain_narrows() {
    // Chain [A, B, C] on a 9-value board, all masks initially {1..9}.
    let mut board = Board::new(9);
    let mut thermo = ThermometerConstraint::new("ordering", vec![0, 1, 2]);
    // With every mask still full, the initial bound mask is empty and
    // the one-time init sweep has nothing to clear.
    let init = thermo.init_board(&mut board);
    assert!(init.is_no_progress());
    // Propagation does the narrowing: two larger values must stay free
    // above A, two smaller ones below C.
    let step = thermo.step_logic(&mut board, false);
    assert!(step.is_progress());
    assert!(!board.cell(0).contains(8) && !board.cell(0).contains(9));
    assert!(!board.cell(2).contains(1) && !board.cell(2).contains(2));
    assert_eq!(board.cell(0).raw(), range_bits(1, 7));
    assert_eq!(board.cell(1).raw(), range_bits(2, 8));
    assert_eq!(board.cell(2).raw(), range_bits(3, 9));
}

#[test]
fn step_logic_is_idempotent_at_fixpoint() {
    let mut board = Board::new(9);
    let thermo = ThermometerConstraint::new("t", vec![3, 4, 5, 6]);
    let first = thermo.step_logic(&mut board, false);
    assert!(first.is_progress());
    let before = snapshot(&board);
    let second = thermo.step_logic(&mut board, false);
    assert!(second.is_no_progress());
    assert_eq!(snapshot(&board), before);
}

#[test]
fn masks_only_shrink() {
    let mut board = Board::new(9);
    assert!(board.keep_mask(4, ValueMask::from_lower_equal(6)));
    let mut thermo = ThermometerConstraint::new("t", vec![4, 2, 7]);
    let before = snapshot(&board);
    let init = thermo.init_board(&mut board);
    assert!(!init.is_contradiction());
    let mid = snapshot(&board);
    for c in 0..before.len() {
        assert_eq!(mid[c] & !before[c], 0, "init re-added a candidate");
    }
    let step = thermo.step_logic(&mut board, false);
    assert!(!step.is_contradiction());
    let after = snapshot(&board);
    for c in 0..mid.len() {
        assert_eq!(after[c] & !mid[c], 0, "step re-added a candidate");
    }
}

#[test]
fn forced_high_value_contradicts() {
    // A forced to 8 leaves only 9 for both B and C.
    let mut board = Board::new(9);
    assert!(board.keep_mask(0, ValueMask::from_value(8)));
    let thermo = ThermometerConstraint::new("t", vec![0, 1, 2]);
    let step = thermo.step_logic(&mut board, false);
    assert!(step.is_contradiction());
    // The explanation names the cell that ran out of candidates: C.
    let desc = step.description().expect("contradiction names a cell");
    assert_eq!(desc.cell, 2);
    assert_eq!(board.cell(2).raw(), 0);
}

#[test]
fn enforce_rejects_blocked_assignment() {
    // Chain [A, B]; B's remaining candidates are all at most 5, so a
    // trial assignment A = 5 leaves nothing for B.
    let mut board = Board::new(9);
    assert!(board.keep_mask(1, ValueMask::from_lower_equal(5)));
    let thermo = ThermometerConstraint::new("t", vec![0, 1]);
    let rejected = thermo.enforce(&board, 0, 5);
    assert!(rejected.is_contradiction());
    // A = 4 still leaves 5 for B.
    let accepted = thermo.enforce(&board, 0, 4);
    assert!(accepted.is_no_progress());
}

#[test]
fn enforce_ignores_cells_off_the_chain() {
    let board = Board::new(9);
    let thermo = ThermometerConstraint::new("t", vec![0, 1]);
    let r = thermo.enforce(&board, 5, 1);
    assert!(r.is_no_progress());
}

#[test]
fn empty_chain_is_a_no_op() {
    let mut board = Board::new(9);
    let mut thermo = ThermometerConstraint::new("empty", vec![]);
    let before = snapshot(&board);
    assert!(thermo.init_board(&mut board).is_no_progress());
    assert!(thermo.step_logic(&mut board, false).is_no_progress());
    assert!(thermo.enforce(&board, 0, 1).is_no_progress());
    assert_eq!(snapshot(&board), before);
}

#[test]
fn duplicate_chain_degrades_to_no_op() {
    let mut board = Board::new(9);
    let mut thermo = ThermometerConstraint::new("dup", vec![1, 1, 2]);
    let before = snapshot(&board);
    assert!(thermo.init_board(&mut board).is_no_progress());
    assert!(thermo.step_logic(&mut board, false).is_no_progress());
    assert!(thermo.enforce(&board, 1, 3).is_no_progress());
    assert_eq!(snapshot(&board), before);
}

#[test]
fn full_length_chain_converges_to_unique_solution() {
    // A 9-value board whose only rule is one ordering chain over nine
    // cells: the unique solution is 1..=9 along the chain.
    let mut board = Board::new(9);
    let cells: Vec<usize> = vec![0, 10, 20, 30, 40, 50, 60, 70, 80];
    let thermo = ThermometerConstraint::new("diagonal", cells.clone());
    let mut thermo_init = ThermometerConstraint::new("diagonal", cells.clone());
    assert!(!thermo_init.init_board(&mut board).is_contradiction());
    let mut rounds = 0;
    loop {
        let r = thermo.step_logic(&mut board, false);
        assert!(!r.is_contradiction());
        if r.is_no_progress() {
            break;
        }
        rounds += 1;
        assert!(rounds <= 100, "propagation failed to converge");
    }
    let mut prev = 0;
    for (i, &c) in cells.iter().enumerate() {
        let m = board.cell(c);
        assert!(m.is_single());
        assert_eq!(m.value(), i + 1);
        assert!(m.value() > prev);
        prev = m.value();
    }
}

#[test]
fn short_chain_on_large_board() {
    // The pairwise sweep is bounded by the chain's own length: a chain
    // of two on a nine-value board narrows exactly its own two cells.
    let mut board = Board::new(9);
    let thermo = ThermometerConstraint::new("short", vec![0, 1]);
    let step = thermo.step_logic(&mut board, false);
    assert!(step.is_progress());
    assert_eq!(board.cell(0).raw(), range_bits(1, 8));
    assert_eq!(board.cell(1).raw(), range_bits(2, 9));
    for c in 2..board.cell_count() {
        assert_eq!(board.cell(c).raw(), range_bits(1, 9));
    }
}

#[test]
fn init_board_sweeps_forward_with_widening_bound() {
    // First cell starts at {3..9}: the bound mask {1,2} clears nothing
    // at A, shrinks B to {3..9}, widens to {1,2,3}, shrinks C to {4..9}.
    let mut board = Board::new(9);
    assert!(board.keep_mask(0, ValueMask::from_higher(2, 9)));
    let mut thermo = ThermometerConstraint::new("t", vec![0, 1, 2]);
    let init = thermo.init_board(&mut board);
    assert!(init.is_progress());
    assert!(init.description().is_none());
    assert_eq!(board.cell(0).raw(), range_bits(3, 9));
    assert_eq!(board.cell(1).raw(), range_bits(3, 9));
    assert_eq!(board.cell(2).raw(), range_bits(4, 9));
}

#[test]
fn init_board_reports_contradiction() {
    // A in {5..9} and B in {1,2}: the initial bound mask covers every
    // value, so A is emptied at once.
    let mut board = Board::new(9);
    assert!(board.keep_mask(0, ValueMask::from_higher(4, 9)));
    assert!(board.keep_mask(1, ValueMask::from_lower_equal(2)));
    let mut thermo = ThermometerConstraint::new("t", vec![0, 1]);
    let init = thermo.init_board(&mut board);
    assert!(init.is_contradiction());
    assert_eq!(board.cell(0).raw(), 0);
}

#[test]
fn constraint_name_is_kept() {
    let thermo = ThermometerConstraint::new("Thermometer at r1c1", vec![0, 1]);
    assert_eq!(thermo.name(), "Thermometer at r1c1");
}

#[test]
fn driver_reaches_constraints_through_the_interface() {
    // A driver owns the board and sees every constraint variant only
    // as a trait object.
    let mut board = Board::new(9);
    let mut constraints: Vec<Box<dyn Constraint>> =
        vec![Box::new(ThermometerConstraint::new("t", vec![0, 1, 2]))];
    for c in constraints.iter_mut() {
        assert!(!c.init_board(&mut board).is_contradiction());
    }
    loop {
        let mut any_progress = false;
        for c in constraints.iter_mut() {
            let r = c.step_logic(&mut board, false);
            assert!(!r.is_contradiction());
            if r.is_progress() {
                any_progress = true;
            }
        }
        if !any_progress {
            break;
        }
    }
    assert_eq!(board.cell(0).raw(), range_bits(1, 7));
    assert!(constraints[0].enforce(&board, 0, 9).is_contradiction());
    assert_eq!(constraints[0].name(), "t");
}
