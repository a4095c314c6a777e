use chess_core::board::Position;
use chess_core::eval::{evaluate, piece_value};
use chess_core::movegen::legal_moves;
use chess_core::types::{Color, Piece, PieceKind};

const KIWIPETE: &str = "r3k2r/p1ppqpb1/bn2pnp1/3PN3/1p2P3/2N2Q1p/PPPBBPPP/R3K2R w KQkq -";

fn same_state(a: &Position, b: &Position) -> bool {
    a.board == b.board
        && a.bitboards == b.bitboards
        && a.side_to_move == b.side_to_move
        && a.castling == b.castling
        && a.en_passant == b.en_passant
        && a.halfmove_clock == b.halfmove_clock
        && a.fullmove_number == b.fullmove_number
}

fn coherent(p: &Position) -> bool {
    for s in 0..64u8 {
        for c in [Color::White, Color::Black] {
            for k in [
                PieceKind::Pawn,
                PieceKind::Knight,
                PieceKind::Bishop,
                PieceKind::Rook,
                PieceKind::Queen,
                PieceKind::King,
            ] {
                let on_board = p.piece_at(s) == Some(Piece { color: c, kind: k });
                if p.bitboards.pieces(c, k).contains(s) != on_board {
                    return false;
                }
            }
        }
    }
    true
}

#[test]
fn make_unmake_restores_every_field() {
    for fen in [
        KIWIPETE,
        "r3k2r/Pppp1ppp/1b3nbN/nP6/BBP1P3/q4N2/Pp1P2PP/R2Q1RK1 w kq - 0 1",
        "rnbqkbnr/ppp1p1pp/8/3pPp2/8/8/PPPP1PPP/RNBQKBNR w KQkq f6 0 3",
    ] {
        let pos = Position::from_fen(fen).unwrap();
        for mv in legal_moves(&pos) {
            let mut p = pos;
            let undo = p.make_move(mv);
            assert!(coherent(&p));
            p.unmake_move(mv, undo);
            assert!(same_state(&p, &pos));
        }
    }
}

#[test]
fn make_move_double_push_sets_en_passant() {
    let mut pos = Position::startpos();
    let mv = legal_moves(&pos).into_iter().find(|m| m.from() == 12 && m.to() == 28).unwrap();
    let undo = pos.make_move(mv);
    assert_eq!(pos.en_passant, Some(20));
    assert_eq!(pos.side_to_move, Color::Black);
    assert_eq!(pos.halfmove_clock, 0);
    assert_eq!(undo.moved_piece, Piece { color: Color::White, kind: PieceKind::Pawn });
    assert!(undo.captured.is_none());
}

#[test]
fn castling_moves_the_rook_and_strips_rights() {
    let mut pos = Position::from_fen(KIWIPETE).unwrap();
    let mv = legal_moves(&pos).into_iter().find(|m| m.is_castle() && m.to() == 6).unwrap();
    pos.make_move(mv);
    assert_eq!(pos.piece_at(5), Some(Piece { color: Color::White, kind: PieceKind::Rook }));
    assert_eq!(pos.piece_at(6), Some(Piece { color: Color::White, kind: PieceKind::King }));
    assert!(pos.piece_at(7).is_none());
    assert!(!pos.castling.wk && !pos.castling.wq);
    assert!(pos.castling.bk && pos.castling.bq);
}

#[test]
fn promotion_defaults_to_queen() {
    let mut pos = Position::from_fen("8/P7/8/8/8/8/8/k6K w - - 0 1").unwrap();
    pos.make_move(chess_core::types::Move::new(48, 56));
    assert_eq!(pos.piece_at(56), Some(Piece { color: Color::White, kind: PieceKind::Queen }));
    let mut pos = Position::from_fen("8/P7/8/8/8/8/8/k6K w - - 0 1").unwrap();
    pos.make_move(chess_core::types::Move::with_promo(48, 56, PieceKind::Knight));
    assert_eq!(pos.piece_at(56), Some(Piece { color: Color::White, kind: PieceKind::Knight }));
}

#[test]
fn clocks_advance() {
    let mut pos = Position::from_fen("8/8/8/4k3/8/4K3/8/8 b - - 7 12").unwrap();
    let mv = legal_moves(&pos)[0];
    pos.make_move(mv);
    assert_eq!(pos.halfmove_clock, 8);
    assert_eq!(pos.fullmove_number, 13);
}

#[test]
fn fen_defaults_and_rejections() {
    let p = Position::from_fen("8/8/8/4k3/8/4K3/8/8 w - -").unwrap();
    assert_eq!(p.halfmove_clock, 0);
    assert_eq!(p.fullmove_number, 1);
    assert!(Position::from_fen("8/8/8/4k3/8/4K3/8 w - -").is_none());
    assert!(Position::from_fen("8/8/8/4k3/8/4K3/8/8 x - -").is_none());
    assert!(Position::from_fen("8/8/8/4k3/8/4K3/8/9 w - -").is_none());
    assert!(Position::from_fen("8/8/8/4k3/8/4K3/8/8 w KX -").is_none());
    assert!(Position::from_fen("8/8/8/4k3/8/4K3/8/8 w - - x").is_none());
    assert!(Position::from_fen("8/8/8/4z3/8/4K3/8/8 w - -").is_none());
}

#[test]
fn startpos_matches_its_record() {
    let a = Position::startpos();
    let b = Position::from_fen("rnbqkbnr/pppppppp/8/8/8/8/PPPPPPPP/RNBQKBNR w KQkq - 0 1").unwrap();
    assert!(same_state(&a, &b));
    assert!(coherent(&a));
    assert_eq!(a.king_sq(Color::White), Some(4));
    assert_eq!(a.king_sq(Color::Black), Some(60));
}

#[test]
fn attack_detection() {
    let pos = Position::from_fen("4k3/8/8/8/8/8/8/R3K3 w - - 0 1").unwrap();
    assert!(pos.is_square_attacked(56, Color::White));
    assert!(!pos.is_square_attacked(57, Color::White));
    assert!(pos.is_square_attacked(3, Color::Black) == false);
    assert!(pos.is_square_attacked(11, Color::White));
}

#[test]
fn material_evaluation() {
    assert_eq!(evaluate(&Position::startpos()), 0);
    let pos = Position::from_fen("4k3/8/8/8/8/8/8/R3K3 w - - 0 1").unwrap();
    assert_eq!(evaluate(&pos), 500);
    let pos = Position::from_fen("4k3/8/8/8/8/8/8/R3K3 b - - 0 1").unwrap();
    assert_eq!(evaluate(&pos), -500);
    assert_eq!(piece_value(PieceKind::Knight), 320);
    assert_eq!(piece_value(PieceKind::Bishop), 330);
    assert_eq!(piece_value(PieceKind::Queen), 900);
    assert_eq!(piece_value(PieceKind::King), 0);
}

#[test]
fn hash_ignores_clocks_only() {
    let a = Position::from_fen("8/8/8/4k3/8/4K3/8/8 w - - 0 1").unwrap();
    let b = Position::from_fen("8/8/8/4k3/8/4K3/8/8 w - - 37 90").unwrap();
    let c = Position::from_fen("8/8/8/4k3/8/3K4/8/8 w - - 0 1").unwrap();
    assert_eq!(a.position_hash(), b.position_hash());
    assert_ne!(a.position_hash(), c.position_hash());
}

#[test]
fn fen_fields_split_on_any_white_space() {
    let a = Position::from_fen("8/8/8/4k3/8/4K3/8/8\tw - -\t5  9").unwrap();
    assert_eq!(a.halfmove_clock, 5);
    assert_eq!(a.fullmove_number, 9);
    assert_eq!(a.side_to_move, Color::White);
}

#[test]
fn hash_uses_en_passant_file_only() {
    let a = Position::from_fen("4k3/8/8/8/8/8/8/4K3 w - e3 0 1").unwrap();
    let b = Position::from_fen("4k3/8/8/8/8/8/8/4K3 w - e6 0 1").unwrap();
    let c = Position::from_fen("4k3/8/8/8/8/8/8/4K3 w - d6 0 1").unwrap();
    assert_eq!(a.position_hash(), b.position_hash());
    assert_ne!(a.position_hash(), c.position_hash());
}
