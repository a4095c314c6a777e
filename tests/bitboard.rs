use chess_core::bitboard::{Bitboard, FILE_A, RANK_1};

#[test]
fn bitboard_test_from_square() {
    assert_eq!(Bitboard::from_square(0).0, 1);
    assert_eq!(Bitboard::from_square(7).0, 128);
    assert_eq!(Bitboard::from_square(63).0, 1 << 63);
}

#[test]
fn bitboard_test_popcount() {
    assert_eq!(Bitboard(0).popcount(), 0);
    assert_eq!(Bitboard::from_square(0).popcount(), 1);
    assert_eq!(Bitboard(FILE_A).popcount(), 8);
    assert_eq!(Bitboard(RANK_1).popcount(), 8);
    assert_eq!(Bitboard(!0).popcount(), 64);
}

#[test]
fn bitboard_test_iterator() {
    let bb = Bitboard(0b1010);
    let squares: Vec<u8> = bb.squares();
    assert_eq!(squares, vec![1, 3]);
}

#[test]
fn bitboard_test_shifts() {
    let a1 = Bitboard::from_square(0);
    assert_eq!(a1.north(), Bitboard::from_square(8));
    assert_eq!(a1.east(), Bitboard::from_square(1));
    assert_eq!(a1.west(), Bitboard(0));
    let h1 = Bitboard::from_square(7);
    assert_eq!(h1.east(), Bitboard(0));
    assert_eq!(h1.west(), Bitboard::from_square(6));
}

#[test]
fn bitboard_tests_test_from_square() {
    assert_eq!(Bitboard::from_square(0).0, 1);
    assert_eq!(Bitboard::from_square(7).0, 128);
    assert_eq!(Bitboard::from_square(63).0, 1 << 63);
}

#[test]
fn bitboard_tests_test_popcount() {
    assert_eq!(Bitboard(0).popcount(), 0);
    assert_eq!(Bitboard::from_square(0).popcount(), 1);
    assert_eq!(Bitboard(FILE_A).popcount(), 8);
    assert_eq!(Bitboard(RANK_1).popcount(), 8);
    assert_eq!(Bitboard(!0).popcount(), 64);
}

#[test]
fn bitboard_tests_test_iterator() {
    let bb = Bitboard(0b1010);
    let squares: Vec<u8> = bb.squares();
    assert_eq!(squares, vec![1, 3]);
}

#[test]
fn bitboard_tests_test_shifts() {
    let a1 = Bitboard::from_square(0);
    assert_eq!(a1.north(), Bitboard::from_square(8));
    assert_eq!(a1.east(), Bitboard::from_square(1));
    assert_eq!(a1.west(), Bitboard(0));
    let h1 = Bitboard::from_square(7);
    assert_eq!(h1.east(), Bitboard(0));
    assert_eq!(h1.west(), Bitboard::from_square(6));
}

#[test]
fn lsb_and_pop_lsb() {
    let mut bb = Bitboard(0b1010_0000);
    assert_eq!(bb.lsb(), Some(5));
    assert_eq!(bb.pop_lsb(), Some(5));
    assert_eq!(bb.0, 0b1000_0000);
    assert_eq!(bb.pop_lsb(), Some(7));
    assert_eq!(bb.pop_lsb(), None);
    assert_eq!(bb.lsb(), None);
}

#[test]
fn set_clear_contains() {
    let mut bb = Bitboard(0);
    assert!(bb.is_empty());
    bb.set(63);
    assert!(bb.contains(63));
    assert!(!bb.contains(62));
    bb.clear(63);
    assert!(bb.is_empty());
}

#[test]
fn diagonal_shifts_do_not_wrap() {
    let h4 = Bitboard::from_square(31);
    assert_eq!(h4.north_east(), Bitboard(0));
    assert_eq!(h4.south_east(), Bitboard(0));
    assert_eq!(h4.north_west(), Bitboard::from_square(38));
    let a4 = Bitboard::from_square(24);
    assert_eq!(a4.south_west(), Bitboard(0));
    assert_eq!(a4.south_east(), Bitboard::from_square(17));
    assert_eq!(a4.south(), Bitboard::from_square(16));
}
