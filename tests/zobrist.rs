use chess_core::types::{Color, Piece, PieceKind};
use chess_core::zobrist::ZobristKeys;

fn keys_unique() {
    let z = ZobristKeys::new();
    let mut seen = std::collections::HashSet::new();
    for color in 0..2 {
        for piece in 0..6 {
            for sq in 0..64 {
                let key = z.pieces[color][piece][sq];
                assert!(seen.insert(key), "Duplicate Zobrist key found");
            }
        }
    }
    assert!(seen.insert(z.side_to_move), "Side to move key collision");
    for i in 0..4 {
        assert!(seen.insert(z.castling[i]), "Castling key collision");
    }
    for i in 0..8 {
        assert!(seen.insert(z.en_passant[i]), "En passant key collision");
    }
}

fn piece_key_differs() {
    let z = ZobristKeys::new();
    let piece = Piece { color: Color::White, kind: PieceKind::Pawn };
    let key1 = z.piece_key(piece, 0);
    let key2 = z.piece_key(piece, 1);
    assert_ne!(key1, key2);
}

#[test]
fn zobrist_test_zobrist_keys_unique() {
    keys_unique();
}

#[test]
fn zobrist_test_zobrist_piece_key() {
    piece_key_differs();
}

#[test]
fn zobrist_tests_test_zobrist_keys_unique() {
    keys_unique();
}

#[test]
fn zobrist_tests_test_zobrist_piece_key() {
    piece_key_differs();
}

#[test]
fn first_key_is_one_xorshift_step_of_the_seed() {
    let z = ZobristKeys::new();
    let mut x: u64 = 0x123456789ABCDEF0;
    x ^= x << 13;
    x ^= x >> 7;
    x ^= x << 17;
    assert_eq!(z.pieces[0][0][0], x);
    assert_eq!(z.castling_key(0), z.castling[0]);
    assert_eq!(z.ep_key(7), z.en_passant[7]);
}
