use chess_core::board::Position;
use chess_core::movegen::{legal_moves, legal_moves_into};
use chess_core::perft::perft;

const KIWIPETE: &str = "r3k2r/p1ppqpb1/bn2pnp1/3PN3/1p2P3/2N2Q1p/PPPBBPPP/R3K2R w KQkq -";

#[test]
fn movegen_test_startpos_moves() {
    let pos = Position::startpos();
    let moves = legal_moves(&pos);
    assert_eq!(moves.len(), 20);
}

#[test]
fn movegen_test_kiwipete_moves() {
    let pos = Position::from_fen(KIWIPETE).unwrap();
    let moves = legal_moves(&pos);
    assert_eq!(moves.len(), 48);
}

#[test]
fn movegen_tests_test_startpos_moves() {
    let pos = Position::startpos();
    let moves = legal_moves(&pos);
    assert_eq!(moves.len(), 20);
}

#[test]
fn movegen_tests_test_kiwipete_moves() {
    let pos = Position::from_fen(KIWIPETE).unwrap();
    let moves = legal_moves(&pos);
    assert_eq!(moves.len(), 48);
}

#[test]
fn perft_startpos_shallow() {
    let mut pos = Position::startpos();
    assert_eq!(perft(&mut pos, 0), 1);
    assert_eq!(perft(&mut pos, 1), 20);
    assert_eq!(perft(&mut pos, 2), 400);
    assert_eq!(perft(&mut pos, 3), 8902);
    assert_eq!(perft(&mut pos, 4), 197281);
}

#[test]
fn perft_kiwipete() {
    let mut pos = Position::from_fen(KIWIPETE).unwrap();
    assert_eq!(perft(&mut pos, 1), 48);
    assert_eq!(perft(&mut pos, 2), 2039);
    assert_eq!(perft(&mut pos, 3), 97862);
}

#[test]
fn perft_endgame_position() {
    let mut pos = Position::from_fen("8/2p5/3p4/KP5r/1R3p1k/8/4P1P1/8 w - -").unwrap();
    assert_eq!(perft(&mut pos, 1), 14);
    assert_eq!(perft(&mut pos, 2), 191);
    assert_eq!(perft(&mut pos, 3), 2812);
    assert_eq!(perft(&mut pos, 4), 43238);
}

#[test]
fn perft_promotion_position() {
    let mut pos =
        Position::from_fen("r3k2r/Pppp1ppp/1b3nbN/nP6/BBP1P3/q4N2/Pp1P2PP/R2Q1RK1 w kq -").unwrap();
    assert_eq!(perft(&mut pos, 1), 6);
    assert_eq!(perft(&mut pos, 2), 264);
    assert_eq!(perft(&mut pos, 3), 9467);
}

#[test]
fn perft_middlegame_position() {
    let mut pos = Position::from_fen(
        "r4rk1/1pp1qppp/p1np1n2/2b1p1B1/2B1P1b1/P1NP1N2/1PP1QPPP/R4RK1 w - -",
    )
    .unwrap();
    assert_eq!(perft(&mut pos, 1), 46);
    assert_eq!(perft(&mut pos, 2), 2079);
    assert_eq!(perft(&mut pos, 3), 89890);
}

#[test]
fn perft_is_sum_over_moves() {
    let mut pos = Position::from_fen(KIWIPETE).unwrap();
    let total = perft(&mut pos, 3);
    let mut sum = 0u64;
    let mut tmp = pos;
    let mut moves = Vec::new();
    legal_moves_into(&mut tmp, &mut moves);
    for mv in moves {
        let mut child = pos;
        child.make_move(mv);
        sum += perft(&mut child, 2);
    }
    assert_eq!(total, sum);
}

#[test]
fn legal_moves_leave_king_safe() {
    let pos = Position::from_fen(KIWIPETE).unwrap();
    for mv in legal_moves(&pos) {
        let mut child = pos;
        child.make_move(mv);
        assert!(!child.in_check(pos.side_to_move));
    }
}

#[test]
fn castling_and_en_passant_are_flagged() {
    let pos = Position::from_fen(KIWIPETE).unwrap();
    let moves = legal_moves(&pos);
    let castles: Vec<_> = moves.iter().filter(|m| m.is_castle()).collect();
    assert_eq!(castles.len(), 2);
    let pos = Position::from_fen("rnbqkbnr/ppp1p1pp/8/3pPp2/8/8/PPPP1PPP/RNBQKBNR w KQkq f6 0 3")
        .unwrap();
    let moves = legal_moves(&pos);
    let eps: Vec<_> = moves.iter().filter(|m| m.is_en_passant()).collect();
    assert_eq!(eps.len(), 1);
    assert_eq!(eps[0].from(), 36);
    assert_eq!(eps[0].to(), 45);
}

#[test]
fn perft_endgame_position_depth_five() {
    let mut pos = Position::from_fen("8/2p5/3p4/KP5r/1R3p1k/8/4P1P1/8 w - -").unwrap();
    assert_eq!(perft(&mut pos, 5), 674624);
}

#[test]
fn perft_promotion_position_depth_four() {
    let mut pos =
        Position::from_fen("r3k2r/Pppp1ppp/1b3nbN/nP6/BBP1P3/q4N2/Pp1P2PP/R2Q1RK1 w kq -").unwrap();
    assert_eq!(perft(&mut pos, 4), 422333);
}
