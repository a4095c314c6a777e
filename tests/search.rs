use chess_core::board::Position;
use chess_core::classical::{pick_best_move, ClassicalEngine};
use chess_core::engine::Engine;
use chess_core::movegen::legal_moves;
use chess_core::eval::Material;
use chess_core::search::{negamax, negamax_with, MATE};
use chess_core::time_control::{SearchLimits, TimeControl};

fn start_position_search() {
    let pos = Position::startpos();
    let mut nodes = 0;
    let tc = TimeControl::new(None);
    tc.start();
    let result = pick_best_move(&pos, 3, &mut nodes, &tc);
    assert!(result.best_move.is_some());
    assert!(nodes > 0);
}

fn mate_in_one_search() {
    let pos = Position::from_fen("6k1/5ppp/8/8/8/8/5PPP/4Q1K1 w - - 0 1").unwrap();
    let mut nodes = 0;
    let tc = TimeControl::new(None);
    tc.start();
    let result = pick_best_move(&pos, 2, &mut nodes, &tc);
    assert!(result.best_move.is_some());
}

#[test]
fn search_test_pick_best_move_start_position() {
    start_position_search();
}

#[test]
fn search_test_pick_best_move_finds_mate_in_one() {
    mate_in_one_search();
}

#[test]
fn search_tests_test_pick_best_move_start_position() {
    start_position_search();
}

#[test]
fn search_tests_test_pick_best_move_finds_mate_in_one() {
    mate_in_one_search();
}

#[test]
fn mate_in_one_scores_mate() {
    let pos = Position::from_fen("6k1/5ppp/8/8/8/8/5PPP/4Q1K1 w - - 0 1").unwrap();
    let mut nodes = 0;
    let tc = TimeControl::new(None);
    let result = pick_best_move(&pos, 2, &mut nodes, &tc);
    let (mv, score) = result.best_move.unwrap();
    assert_eq!(score, MATE);
    let mut child = pos;
    child.make_move(mv);
    assert!(legal_moves(&child).is_empty());
    assert!(child.in_check(child.side_to_move));
}

#[test]
fn fifty_move_rule_scores_draw() {
    let pos = Position::from_fen("8/8/8/4k3/8/4K3/8/3Q4 w - - 100 60").unwrap();
    let tc = TimeControl::new(None);
    let mut nodes = 1;
    let mut history = vec![pos.position_hash()];
    let (score, stopped) = negamax(&pos, 2, i32::MIN / 2, i32::MAX / 2, &mut history, &mut nodes, &tc);
    assert!(!stopped);
    assert_eq!(score, 0);
    assert_eq!(history.len(), 1);
}

#[test]
fn threefold_repetition_scores_draw() {
    let pos = Position::from_fen("8/8/8/4k3/8/4K3/8/3Q4 w - - 0 60").unwrap();
    let tc = TimeControl::new(None);
    let mut nodes = 1;
    let h = pos.position_hash();
    let mut history = vec![h, 7, h, 9, h];
    let (score, stopped) = negamax(&pos, 2, i32::MIN / 2, i32::MAX / 2, &mut history, &mut nodes, &tc);
    assert!(!stopped);
    assert_eq!(score, 0);
    let mut history = vec![h, 7, h];
    let (score, _) = negamax(&pos, 1, i32::MIN / 2, i32::MAX / 2, &mut history, &mut nodes, &tc);
    assert!(score > 0);
}

#[test]
fn insufficient_material_scores_draw() {
    let pos = Position::from_fen("8/8/8/4k3/8/4KB2/8/8 w - - 0 1").unwrap();
    let tc = TimeControl::new(None);
    let mut nodes = 1;
    let mut history = vec![pos.position_hash()];
    let (score, _) = negamax(&pos, 3, i32::MIN / 2, i32::MAX / 2, &mut history, &mut nodes, &tc);
    assert_eq!(score, 0);
}

#[test]
fn stopped_controller_cancels() {
    let pos = Position::startpos();
    let tc = TimeControl::new(None);
    tc.stop();
    let mut nodes = 0;
    let result = pick_best_move(&pos, 3, &mut nodes, &tc);
    assert!(result.stopped);
    let mut history = vec![pos.position_hash()];
    let mut nodes = 0;
    let (_, stopped) = negamax(&pos, 3, i32::MIN / 2, i32::MAX / 2, &mut history, &mut nodes, &tc);
    assert!(stopped);
}

#[test]
fn classical_engine_reports() {
    let mut engine = ClassicalEngine::new();
    let pos = Position::startpos();
    let result = engine.search(&pos, SearchLimits::depth(2));
    assert!(result.best_move.is_some());
    assert_eq!(result.depth, 2);
    assert!(!result.stopped);
    assert_eq!(engine.name(), "Classical v1.0");
    assert_eq!(engine.author(), "ML-chess");
}

#[test]
fn core_pick_best_move_none_when_mated() {
    let pos = Position::from_fen("r1bqkb1r/pppp1Qpp/2n2n2/4p3/2B1P3/8/PPPP1PPP/RNB1K1NR b KQkq - 0 4")
        .unwrap();
    assert!(chess_core::search::pick_best_move(&pos, 2).is_none());
    let start = Position::startpos();
    assert!(chess_core::search::pick_best_move(&start, 1).is_some());
}

#[test]
fn search_with_material_evaluator_matches_default() {
    let pos = Position::from_fen("4k3/8/8/8/8/8/8/R3K3 w - - 0 1").unwrap();
    let tc = TimeControl::new(None);
    let mut nodes = 1;
    let mut h1 = vec![pos.position_hash()];
    let a = negamax(&pos, 0, i32::MIN / 2, i32::MAX / 2, &mut h1, &mut nodes, &tc);
    let mut h2 = vec![pos.position_hash()];
    let b = negamax_with(&Material, &pos, 0, i32::MIN / 2, i32::MAX / 2, &mut h2, &mut nodes, &tc);
    assert_eq!(a, b);
    assert_eq!(a, (500, false));
}
