//! The classical engine: alpha-beta search over material evaluation, with
//! time control.
use vstd::prelude::*;
use crate::board::Position;
use crate::engine::{Engine, SearchResult};
use crate::movegen::{
    all_leave_king_safe, all_pseudo_legal, from_own_piece, legal_move, legal_moves_into,
};
use crate::eval::{Evaluator, Material};
use crate::board::lemma_made;
use crate::movegen::legal_list;
use crate::search::{best_child, child_value, key_of, lemma_best_child_take, negamax_with};
use crate::time_control::{SearchLimits, TimeControl};
use crate::types::Move;

verus! {

/// Outcome of a root search.
pub struct SearchOutcome {
    /// The best move found and its score, `None` without legal moves.
    pub best_move: Option<(Move, i32)>,
    /// Whether the search was cut short by the time controller.
    pub stopped: bool,
}

/// The score of an outcome with a move.
pub open spec fn score_of_outcome(o: SearchOutcome) -> int {
    match o.best_move {
        Some((_, sc)) => sc as int,
        None => 0,
    }
}

/// The move of an outcome with a move.
pub open spec fn move_of_outcome(o: SearchOutcome) -> Move {
    match o.best_move {
        Some((m, _)) => m,
        None => Move(0),
    }
}

/// Search every legal move of `pos` to `depth` plies in all (one at least)
/// and keep the best; the first move stands until one scores higher. The
/// clock is read before each root move; once the controller says stop,
/// the best move among those completed is returned with `stopped` set.
pub fn pick_best_move(pos: &Position, depth: u8, nodes: &mut u64, tc: &TimeControl) -> (r:
    SearchOutcome)
    requires
        pos.wf(),
    ensures
        r.best_move matches Some((m, _)) ==> pos.at(m.from_spec()) is Some && pos.at(
            m.from_spec(),
        )->0.color == pos.side_to_move,
        r.best_move matches Some((m, _)) ==> legal_move(*pos, m),
        r.best_move is None ==> !r.stopped,
        r.best_move is Some <==> exists|m: Move| legal_move(*pos, m),
        r.best_move is None ==> *final(nodes) == *old(nodes),
        !r.stopped && r.best_move is Some ==> score_of_outcome(r) == best_child(
            Material,
            *pos,
            seq![key_of(*pos)],
            legal_list(*pos),
            (if depth > 0 {
                depth - 1
            } else {
                0
            }) as nat,
        ),
        !r.stopped && r.best_move is Some ==> score_of_outcome(r) == child_value(
            Material,
            *pos,
            seq![key_of(*pos)],
            move_of_outcome(r),
            (if depth > 0 {
                depth - 1
            } else {
                0
            }) as nat,
        ),
{
    pick_best_move_with(&Material, pos, depth, nodes, tc)
}

/// `pick_best_move` with the leaf evaluator `ev` in place of material.
pub fn pick_best_move_with<E: Evaluator>(
    ev: &E,
    pos: &Position,
    depth: u8,
    nodes: &mut u64,
    tc: &TimeControl,
) -> (r: SearchOutcome)
    requires
        pos.wf(),
    ensures
        r.best_move matches Some((m, _)) ==> pos.at(m.from_spec()) is Some && pos.at(
            m.from_spec(),
        )->0.color == pos.side_to_move,
        r.best_move matches Some((m, _)) ==> legal_move(*pos, m),
        r.best_move is None ==> !r.stopped,
        r.best_move is Some <==> exists|m: Move| legal_move(*pos, m),
        r.best_move is None ==> *final(nodes) == *old(nodes),
        !r.stopped && r.best_move is Some ==> score_of_outcome(r) == best_child(
            *ev,
            *pos,
            seq![key_of(*pos)],
            legal_list(*pos),
            (if depth > 0 {
                depth - 1
            } else {
                0
            }) as nat,
        ),
        !r.stopped && r.best_move is Some ==> score_of_outcome(r) == child_value(
            *ev,
            *pos,
            seq![key_of(*pos)],
            move_of_outcome(r),
            (if depth > 0 {
                depth - 1
            } else {
                0
            }) as nat,
        ),
{
    let mut tmp = *pos;
    let mut moves: Vec<Move> = Vec::new();
    legal_moves_into(&mut tmp, &mut moves);
    if moves.len() == 0 {
        proof {
            assert forall|m: Move| !legal_move(*pos, m) by {
                if legal_move(*pos, m) {
                    assert(moves@.contains(m));
                }
            }
        }
        return SearchOutcome { best_move: None, stopped: false };
    }
    assert(moves@.contains(moves@[0]));
    let mut best = moves[0];
    assert(legal_move(*pos, moves@[0]));
    let mut best_score: i32 = i32::MIN + 1;
    let mut stopped = false;
    let mut history: Vec<u64> = Vec::new();
    let root_key = pos.position_hash();
    history.push(root_key);
    let child_depth: u8 = if depth > 0 {
        depth - 1
    } else {
        0
    };
    let ghost h0 = seq![key_of(*pos)];
    let ghost d1 = child_depth as nat;
    assert(history@ =~= h0);
    let mut i: usize = 0;
    while i < moves.len()
        invariant
            pos.wf(),
            from_own_piece(*pos, pos.side_to_move, moves@),
            all_leave_king_safe(*pos, moves@),
            all_pseudo_legal(*pos, moves@, 0),
            legal_move(*pos, best),
            moves@.len() > 0,
            pos.at(best.from_spec()) is Some && pos.at(best.from_spec())->0.color
                == pos.side_to_move,
            history@ == h0,
            h0 == seq![key_of(*pos)],
            moves@ == legal_list(*pos),
            i <= moves@.len(),
            d1 == child_depth as nat,
            *nodes >= *old(nodes),
            !stopped ==> best_score == best_child(*ev, *pos, h0, moves@.take(i as int), d1),
            !stopped && i > 0 ==> best_score == child_value(*ev, *pos, h0, best, d1),
            !stopped && i == 0 ==> best_score == i32::MIN + 1,
        ensures
            !stopped ==> i == moves@.len(),
        decreases moves@.len() - i,
    {
        if tc.should_check_time(*nodes) && tc.check_time() {
            stopped = true;
            break;
        }
        let mv = moves[i];
        let mut child = *pos;
        let _undo = child.make_move(mv);
        let child_key = child.position_hash();
        history.push(child_key);
        if *nodes < u64::MAX {
            *nodes = *nodes + 1;
        }
        let (score, was_stopped) = negamax_with(
            ev,
            &child,
            child_depth,
            i32::MIN / 2,
            i32::MAX / 2,
            &mut history,
            nodes,
            tc,
        );
        let score = -score;
        history.pop();
        proof {
            assert(history@ =~= h0);
            lemma_made(*pos, mv, child);
            assert(key_of(child) == child_key);
            lemma_best_child_take(*ev, *pos, h0, moves@, i as int, d1);
        }
        if was_stopped {
            stopped = true;
            break;
        }
        if score > best_score {
            best_score = score;
            best = mv;
            assert(legal_move(*pos, moves@[i as int]));
        }
        i = i + 1;
    }
    proof {
        if !stopped {
            assert(moves@.take(i as int) =~= moves@);
        }
    }
    SearchOutcome { best_move: Some((best, best_score)), stopped }
}

/// Alpha-beta engine over material evaluation.
#[derive(Clone, Debug, Default)]
pub struct ClassicalEngine {
    nodes: u64,
}

impl ClassicalEngine {
    /// Nodes visited by the last search.
    pub closed spec fn node_count(&self) -> u64 {
        self.nodes
    }

    /// A fresh engine.
    pub fn new() -> (r: ClassicalEngine)
        ensures
            r.node_count() == 0,
    {
        ClassicalEngine { nodes: 0 }
    }
}

impl Engine for ClassicalEngine {
    fn search(&mut self, pos: &Position, limits: SearchLimits) -> (r: SearchResult)
        ensures
            r.depth == limits.depth,
            r.best_move is None ==> r.score == 0,
            !r.stopped && r.best_move is Some ==> r.score == best_child(
                Material,
                *pos,
                seq![key_of(*pos)],
                legal_list(*pos),
                (if limits.depth > 0 {
                    limits.depth - 1
                } else {
                    0
                }) as nat,
            ),
    {
        self.nodes = 0;
        limits.start();
        let outcome = pick_best_move(pos, limits.depth, &mut self.nodes, &limits.time_control);
        let (best_move, score) = match outcome.best_move {
            Some((mv, s)) => (Some(mv), s),
            None => (None, 0),
        };
        SearchResult { best_move, score, depth: limits.depth, nodes: self.nodes, stopped: outcome.stopped }
    }

    fn name(&self) -> &str {
        "Classical v1.0"
    }

    fn new_game(&mut self) {
        self.nodes = 0;
    }
}

} // verus!
