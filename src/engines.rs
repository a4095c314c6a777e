//! Two further engines: one that plays a uniformly random legal move, and
//! a network-driven one that, with no model loaded, searches on material.
use vstd::prelude::*;
use crate::board::Position;
use crate::classical::pick_best_move;
use crate::engine::{Engine, SearchResult};
use crate::movegen::{legal_list, legal_move, legal_moves_into};
use crate::time_control::SearchLimits;
use crate::types::Move;
use crate::eval::Material;
use crate::search::{best_child, key_of};
use rand::seq::SliceRandom;

verus! {

/// Relies on rand's `SliceRandom::choose` with the thread-local generator:
/// `None` for an empty slice, else one of its elements.
#[verifier::external_body]
fn choose_move(moves: &Vec<Move>) -> (r: Option<Move>)
    ensures
        r is None <==> moves@.len() == 0,
        r matches Some(m) ==> moves@.contains(m),
{
    moves.choose(&mut rand::thread_rng()).copied()
}

/// An engine that plays a random legal move.
#[derive(Clone, Debug, Default)]
pub struct RandomEngine {
    nodes: u64,
}

impl RandomEngine {
    /// Nodes visited by the last search.
    pub closed spec fn node_count(&self) -> u64 {
        self.nodes
    }

    /// A fresh engine.
    pub fn new() -> (r: RandomEngine)
        ensures
            r.node_count() == 0,
    {
        RandomEngine { nodes: 0 }
    }
}

impl Engine for RandomEngine {
    fn search(&mut self, pos: &Position, limits: SearchLimits) -> (r: SearchResult)
        ensures
            r.score == 0,
            r.nodes == 1,
            r.depth == 1,
            !r.stopped,
    {
        self.nodes = 0;
        let mut pos_copy = *pos;
        let mut moves: Vec<Move> = Vec::new();
        legal_moves_into(&mut pos_copy, &mut moves);
        self.nodes = 1;
        let best_move = choose_move(&moves);
        proof {
            if moves@.len() == 0 {
                assert forall|m: Move| !legal_move(*pos, m) by {
                    if legal_move(*pos, m) {
                        assert(moves@.contains(m));
                    }
                }
            } else {
                assert(moves@.contains(moves@[0]));
            }
            if let Some(m) = best_move {
                let i = choose|i: int| 0 <= i < moves@.len() && moves@[i] == m;
                assert(pos.at(moves@[i].from_spec()) is Some);
                assert(legal_move(*pos, moves@[i]));
            }
        }
        SearchResult { best_move, score: 0, depth: 1, nodes: self.nodes, stopped: false }
    }

    fn name(&self) -> &str {
        "Random v1.0"
    }

    fn new_game(&mut self) {
        self.nodes = 0;
    }
}

/// An engine meant to evaluate with a neural network; with no model
/// loaded it falls back to the material evaluation of the classical search.
#[derive(Clone, Debug)]
pub struct NeuralEngine {
    version: String,
    nodes: u64,
}

impl NeuralEngine {
    /// The version text of the loaded model.
    pub closed spec fn version_text(&self) -> Seq<char> {
        self.version@
    }

    /// An engine with no model loaded.
    pub fn new() -> (r: NeuralEngine)
        ensures
            r.version_text() == "random-v0"@,
    {
        NeuralEngine { version: "random-v0".to_owned(), nodes: 0 }
    }

    /// The version of the loaded model, "random-v0" without one.
    pub fn model_version(&self) -> (r: &str)
        ensures
            r@ == self.version_text(),
    {
        self.version.as_str()
    }
}

impl Engine for NeuralEngine {
    fn search(&mut self, pos: &Position, limits: SearchLimits) -> (r: SearchResult)
        ensures
            r.depth == limits.depth,
            r.best_move is None ==> r.score == 0,
            !r.stopped && r.best_move is Some ==> r.score == best_child(
                Material,
                *pos,
                seq![key_of(*pos)],
                legal_list(*pos),
                (if limits.depth > 0 {
                    limits.depth - 1
                } else {
                    0
                }) as nat,
            ),
    {
        self.nodes = 0;
        limits.start();
        let outcome = pick_best_move(pos, limits.depth, &mut self.nodes, &limits.time_control);
        let (best_move, score) = match outcome.best_move {
            Some((mv, s)) => (Some(mv), s),
            None => (None, 0),
        };
        SearchResult { best_move, score, depth: limits.depth, nodes: self.nodes, stopped: outcome.stopped }
    }

    fn name(&self) -> &str {
        "Neural-random-v0"
    }

    fn new_game(&mut self) {
        self.nodes = 0;
    }
}


impl Default for NeuralEngine {
    /// An engine with no model loaded.
    fn default() -> (r: NeuralEngine)
        ensures
            r.version_text() == "random-v0"@,
    {
        NeuralEngine::new()
    }
}

} // verus!
