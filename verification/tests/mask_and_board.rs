//! Unit tests for the candidate-mask algebra and the board primitives.

use thermometer::Board;
use thermometer::ValueMask;

#[test]
fn range_builders_have_exact_bits() {
    assert_eq!(ValueMask::from_lower(4).raw(), 0b111);
    assert_eq!(ValueMask::from_lower(1).raw(), 0);
    assert_eq!(ValueMask::from_lower_equal(4).raw(), 0b1111);
    assert_eq!(ValueMask::from_lower_equal(0).raw(), 0);
    assert_eq!(ValueMask::from_higher(4, 9).raw(), 0b1_1111_0000);
    assert_eq!(ValueMask::from_higher(9, 9).raw(), 0);
    assert_eq!(ValueMask::from_all_values(9).raw(), 0x1FF);
    assert_eq!(ValueMask::from_value(3).raw(), 0b100);
    assert_eq!(ValueMask::empty().raw(), 0);
}

#[test]
fn set_algebra_matches_bit_algebra() {
    let a = ValueMask::from_lower_equal(5);
    let b = ValueMask::from_higher(3, 9);
    assert_eq!(a.union_with(&b).raw(), 0x1FF);
    assert_eq!(a.intersect(&b).raw(), 0b11000);
    assert_eq!(a.minus(&b).raw(), 0b111);
    assert_eq!(a.complement_within(9).raw(), 0b1_1110_0000);
    assert!(ValueMask::empty().is_empty());
    assert!(!a.is_empty());
    assert!(a.contains(5));
    assert!(!a.contains(6));
}

#[test]
fn min_max_single_value() {
    let m = ValueMask::from_raw(0b0101_1000);
    assert_eq!(m.min(), 4);
    assert_eq!(m.max(), 7);
    assert!(!m.is_single());
    let s = ValueMask::from_value(7);
    assert!(s.is_single());
    assert_eq!(s.value(), 7);
    assert_eq!(s.min(), 7);
    assert_eq!(s.max(), 7);
    assert_eq!(ValueMask::from_raw((s.raw() << 1) | 1).raw(), 0b1000_0001);
}

#[test]
fn fresh_board_is_full() {
    let board = Board::new(4);
    assert_eq!(board.size(), 4);
    assert_eq!(board.cell_count(), 16);
    for c in 0..16 {
        assert_eq!(board.cell(c).raw(), 0b1111);
    }
}

#[test]
fn mutators_report_emptied_cells() {
    let mut board = Board::new(4);
    assert!(board.keep_mask(0, ValueMask::from_value(2)));
    assert_eq!(board.cell(0).raw(), 0b10);
    assert!(!board.clear_value(0, 2));
    assert_eq!(board.cell(0).raw(), 0);
    assert!(board.clear_mask(1, ValueMask::from_lower_equal(3)));
    assert_eq!(board.cell(1).raw(), 0b1000);
    assert!(!board.keep_mask(2, ValueMask::empty()));
}

#[test]
fn duplicate_is_independent() {
    let mut board = Board::new(4);
    let mut copy = board.duplicate();
    for c in 0..16 {
        assert_eq!(copy.cell(c).raw(), board.cell(c).raw());
    }
    assert!(copy.keep_mask(3, ValueMask::from_value(1)));
    assert_eq!(copy.cell(3).raw(), 0b1);
    assert_eq!(board.cell(3).raw(), 0b1111);
    let _ = board;
}
