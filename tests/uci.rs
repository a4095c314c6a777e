use chess_core::board::Position;
use chess_core::movegen::legal_moves;
use chess_core::types::{coord_to_sq, file_of, rank_of, sq, sq_from_coords, sq_to_coord, Move, PieceKind};
use chess_core::uci::{move_to_uci, parse_uci_move, set_position_from_uci};

#[test]
fn every_legal_move_round_trips() {
    for fen in [
        "r3k2r/p1ppqpb1/bn2pnp1/3PN3/1p2P3/2N2Q1p/PPPBBPPP/R3K2R w KQkq -",
        "r3k2r/Pppp1ppp/1b3nbN/nP6/BBP1P3/q4N2/Pp1P2PP/R2Q1RK1 w kq - 0 1",
        "rnbqkbnr/ppp1p1pp/8/3pPp2/8/8/PPPP1PPP/RNBQKBNR w KQkq f6 0 3",
    ] {
        let pos = Position::from_fen(fen).unwrap();
        for mv in legal_moves(&pos) {
            let text = move_to_uci(mv);
            assert_eq!(parse_uci_move(&pos, &text), Some(mv));
        }
    }
}

#[test]
fn move_text() {
    assert_eq!(move_to_uci(Move::new(12, 28)), "e2e4");
    assert_eq!(move_to_uci(Move::with_promo(52, 60, PieceKind::Knight)), "e7e8n");
    let mut castle = Move::new(4, 6);
    castle.set_castle(true);
    assert_eq!(move_to_uci(castle), "e1g1");
}

#[test]
fn parse_rejects_illegal_and_malformed() {
    let pos = Position::startpos();
    assert!(parse_uci_move(&pos, "e2e5").is_none());
    assert!(parse_uci_move(&pos, "e2").is_none());
    assert!(parse_uci_move(&pos, "z2e4").is_none());
    assert_eq!(parse_uci_move(&pos, "g1f3"), Some(Move::new(6, 21)));
}

#[test]
fn position_command() {
    let mut pos = Position::startpos();
    set_position_from_uci(&mut pos, &["startpos", "moves", "e2e4", "e7e5", "e1g1"]);
    assert_eq!(pos.side_to_move, chess_core::types::Color::White);
    assert_eq!(pos.fullmove_number, 2);
    assert!(pos.piece_at(28).is_some());
    assert!(pos.piece_at(36).is_some());
}

#[test]
fn move_encoding_fields() {
    let mut mv = Move::new(12, 28);
    assert_eq!(mv.from(), 12);
    assert_eq!(mv.to(), 28);
    assert_eq!(mv.promo(), None);
    mv.set_en_passant(true);
    assert!(mv.is_en_passant());
    assert!(!mv.is_castle());
    mv.set_en_passant(false);
    assert!(!mv.is_en_passant());
    mv.set_castle(true);
    assert!(mv.is_castle());
    assert!(!mv.is_en_passant());
    assert_eq!(mv.promo(), None);
    mv.set_promo(Some(PieceKind::Queen));
    assert_eq!(mv.promo(), Some(PieceKind::Queen));
    assert!(!mv.is_castle());
    assert_eq!(mv.from(), 12);
    assert_eq!(mv.to(), 28);
}

#[test]
fn square_helpers() {
    assert_eq!(file_of(28), 4);
    assert_eq!(rank_of(28), 3);
    assert_eq!(sq(4, 3), Some(28));
    assert_eq!(sq(8, 0), None);
    assert_eq!(sq(-1, 0), None);
    assert_eq!(sq_from_coords(7, 7), 63);
    assert_eq!(sq_to_coord(28), "e4");
    assert_eq!(sq_to_coord(63), "h8");
    assert_eq!(coord_to_sq("e4"), Some(28));
    assert_eq!(coord_to_sq("a1"), Some(0));
    assert_eq!(coord_to_sq("i1"), None);
    assert_eq!(coord_to_sq("e44"), None);
    assert_eq!(chess_core::types::Color::White.other(), chess_core::types::Color::Black);
}

#[test]
fn parse_among_takes_first_match() {
    let mut ep = Move::new(36, 45);
    ep.set_en_passant(true);
    let plain = Move::new(36, 45);
    let moves = vec![Move::new(12, 28), ep, plain];
    assert_eq!(chess_core::uci::parse_uci_move_among(&moves, "e5f6"), Some(ep));
    assert_eq!(chess_core::uci::parse_uci_move_among(&moves, "e5f6q"), None);
    assert_eq!(chess_core::uci::parse_uci_move_among(&moves, "e2e4"), Some(Move::new(12, 28)));
    assert_eq!(chess_core::uci::find_move(&moves, 36, 45, None), Some(ep));
    assert_eq!(chess_core::uci::parse_uci_fields("e7e8N"), Some((52, 60, Some(PieceKind::Knight))));
    assert_eq!(chess_core::uci::parse_uci_fields("e7e8x"), Some((52, 60, None)));
}

#[test]
fn position_command_without_moves_is_start() {
    let mut pos = Position::from_fen("8/8/8/4k3/8/4K3/8/8 w - - 0 1").unwrap();
    set_position_from_uci(&mut pos, &["startpos"]);
    let start = Position::startpos();
    assert_eq!(pos.board, start.board);
    set_position_from_uci(&mut pos, &["startpos", "moves", "e2e5", "g1f3"]);
    assert_eq!(pos.piece_at(21).map(|p| p.kind), Some(PieceKind::Knight));
    assert!(pos.piece_at(36).is_none());
}
