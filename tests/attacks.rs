use chess_core::attacks::{bishop_attacks, king_attacks, knight_attacks, pawn_attacks, rook_attacks};
use chess_core::bitboard::Bitboard;

#[test]
fn test_knight_attacks() {
    let attacks = knight_attacks(28);
    assert_eq!(attacks.popcount(), 8);
    let attacks = knight_attacks(0);
    assert_eq!(attacks.popcount(), 2);
    assert!(attacks.contains(10));
    assert!(attacks.contains(17));
    let attacks = knight_attacks(7);
    assert_eq!(attacks.popcount(), 2);
}

#[test]
fn test_king_attacks() {
    let attacks = king_attacks(28);
    assert_eq!(attacks.popcount(), 8);
    let attacks = king_attacks(0);
    assert_eq!(attacks.popcount(), 3);
}

#[test]
fn test_pawn_attacks() {
    let attacks = pawn_attacks(28, true);
    assert_eq!(attacks.popcount(), 2);
    assert!(attacks.contains(35));
    assert!(attacks.contains(37));
    let attacks = pawn_attacks(8, true);
    assert_eq!(attacks.popcount(), 1);
    assert!(attacks.contains(17));
}

#[test]
fn test_rook_attacks_empty_board() {
    let attacks = rook_attacks(28, Bitboard(0));
    assert_eq!(attacks.popcount(), 14);
}

#[test]
fn test_bishop_attacks_empty_board() {
    let attacks = bishop_attacks(28, Bitboard(0));
    assert_eq!(attacks.popcount(), 13);
}

#[test]
fn test_rook_attacks_with_blockers() {
    let occupied = Bitboard::from_square(24);
    let attacks = rook_attacks(0, occupied);
    assert!(attacks.contains(8));
    assert!(attacks.contains(16));
    assert!(attacks.contains(24));
    assert!(!attacks.contains(32));
    assert!(attacks.contains(1));
    assert!(attacks.contains(7));
}

#[test]
fn black_pawn_attacks_point_south() {
    let attacks = pawn_attacks(36, false);
    assert_eq!(attacks.squares(), vec![27, 29]);
}

#[test]
fn bishop_stops_at_first_blocker() {
    // Bishop on c1 with a blocker on e3: d2 and e3 seen, f4 not.
    let occ = Bitboard::from_square(20);
    let attacks = bishop_attacks(2, occ);
    assert!(attacks.contains(11));
    assert!(attacks.contains(20));
    assert!(!attacks.contains(29));
    assert!(attacks.contains(9));
    assert!(attacks.contains(16));
}

#[test]
fn queen_is_bishop_and_rook() {
    let occ = Bitboard(0x0000_0010_0800_0000);
    let q = chess_core::attacks::queen_attacks(27, occ);
    let b = bishop_attacks(27, occ);
    let r = rook_attacks(27, occ);
    assert_eq!(q.0, b.0 | r.0);
}
