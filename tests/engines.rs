use chess_core::board::Position;
use chess_core::engine::Engine;
use chess_core::engines::{NeuralEngine, RandomEngine};
use chess_core::movegen::legal_moves_into;
use chess_core::time_control::SearchLimits;

#[test]
fn random_engine_returns_legal_move() {
    let mut engine = RandomEngine::new();
    let pos = Position::startpos();
    let limits = SearchLimits::depth(1);
    let result = engine.search(&pos, limits);
    assert!(result.best_move.is_some());
    let mut pos_copy = pos;
    let mut legal_moves = Vec::new();
    legal_moves_into(&mut pos_copy, &mut legal_moves);
    assert!(legal_moves.contains(&result.best_move.unwrap()));
}

#[test]
fn random_engine_handles_checkmate() {
    let mut engine = RandomEngine::new();
    let pos =
        Position::from_fen("r1bqkbnr/pppp1Qpp/2n5/4p3/2B1P3/8/PPPP1PPP/RNB1K1NR b KQkq - 0 1").unwrap();
    let limits = SearchLimits::depth(1);
    let result = engine.search(&pos, limits);
    assert!(result.best_move.is_none());
}

#[test]
fn random_engine_handles_stalemate() {
    let mut engine = RandomEngine::new();
    let pos = Position::from_fen("k7/8/1Q6/8/8/8/8/1K6 b - - 0 1").unwrap();
    let limits = SearchLimits::depth(1);
    let result = engine.search(&pos, limits);
    assert!(result.best_move.is_none());
}

#[test]
fn random_engine_always_picks_from_legal_set() {
    let fens = [
        "r3k2r/p1ppqpb1/bn2pnp1/3PN3/1p2P3/2N2Q1p/PPPBBPPP/R3K2R w KQkq -",
        "8/2p5/3p4/KP5r/1R3p1k/8/4P1P1/8 w - -",
        "rnbqkbnr/ppp1p1pp/8/3pPp2/8/8/PPPP1PPP/RNBQKBNR w KQkq f6 0 3",
    ];
    let mut engine = RandomEngine::new();
    for fen in fens {
        let pos = Position::from_fen(fen).unwrap();
        let mut tmp = pos;
        let mut legal = Vec::new();
        legal_moves_into(&mut tmp, &mut legal);
        for _ in 0..20 {
            let r = engine.search(&pos, SearchLimits::depth(1));
            assert!(legal.contains(&r.best_move.unwrap()));
        }
    }
}

fn neural_fallback() {
    let mut engine = NeuralEngine::new();
    let pos = Position::startpos();
    let result = engine.search(&pos, SearchLimits::depth(2));
    assert!(result.best_move.is_some());
}

fn neural_trait() {
    let engine = NeuralEngine::new();
    assert!(engine.name().contains("Neural"));
    assert_eq!(engine.author(), "ML-chess");
    assert_eq!(engine.model_version(), "random-v0");
}

#[test]
fn lib_test_neural_engine_fallback() {
    neural_fallback();
}

#[test]
fn lib_test_engine_trait_implementation() {
    neural_trait();
}

#[test]
fn lib_tests_test_neural_engine_fallback() {
    neural_fallback();
}

#[test]
fn lib_tests_test_engine_trait_implementation() {
    neural_trait();
}
