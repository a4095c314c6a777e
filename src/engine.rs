//! The interface every engine offers, and what a search reports.
use vstd::prelude::*;
use crate::board::Position;
use crate::movegen::legal_move;
use crate::time_control::SearchLimits;
use crate::types::Move;

verus! {

/// What a search reports.
#[derive(Clone, Copy, Debug)]
pub struct SearchResult {
    /// The best move found, `None` without legal moves.
    pub best_move: Option<Move>,
    /// Score in centipawns from the side to move's point of view.
    pub score: i32,
    /// Depth searched.
    pub depth: u8,
    /// Nodes visited.
    pub nodes: u64,
    /// Whether the time controller cut the search short.
    pub stopped: bool,
}

/// A chess engine: searches a position within limits.
pub trait Engine {
    /// Search `pos` within `limits`.
    fn search(&mut self, pos: &Position, limits: SearchLimits) -> (r: SearchResult)
        requires
            pos.wf(),
        ensures
            r.best_move matches Some(m) ==> pos.at(m.from_spec()) is Some && pos.at(
                m.from_spec(),
            )->0.color == pos.side_to_move,
            r.best_move matches Some(m) ==> legal_move(*pos, m),
            r.best_move is Some <==> exists|m: Move| legal_move(*pos, m),
    ;

    /// The engine's name.
    fn name(&self) -> &str;

    /// The engine's author.
    fn author(&self) -> &str {
        "ML-chess"
    }

    /// Forget what was learnt in a previous game.
    fn new_game(&mut self) {
    }

    /// Set an option by name; whether the option was recognized.
    fn set_option(&mut self, name: &str, value: &str) -> bool {
        false
    }
}

} // verus!
