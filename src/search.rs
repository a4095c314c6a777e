//! Negamax search with fail-soft alpha-beta pruning, a repetition history
//! of position hashes, draw detection and cooperative cancellation.
use vstd::prelude::*;
use crate::board::{hash_of, insufficient, lemma_made, made, Position};
use crate::eval::{evaluation, Evaluator, Material};
use crate::movegen::{from_own_piece, legal_list, legal_move, legal_moves_into};
use crate::time_control::TimeControl;
use crate::types::Move;

verus! {

/// Score of being checkmated, from the mated side's point of view: `-MATE`.
pub const MATE: i32 = 100000;

/// The hash a position is recorded under in the history.
pub open spec fn key_of(p: Position) -> u64 {
    hash_of(p.side_to_move, p.castling, p.en_passant, p.board@)
}

/// The negamax value of `p` searched `d` plies deep with history `hist`,
/// from the side to move's point of view: 0 for a drawn node, `-MATE` when
/// checkmated and 0 when stalemated, the evaluation at depth 0, else the
/// best over the legal moves of minus the value of the position after it.
pub open spec fn node_value<E: Evaluator>(ev: E, p: Position, hist: Seq<u64>, d: nat) -> int
    decreases d, 0nat,
{
    if drawn_node(p, hist) {
        0
    } else if legal_list(p).len() == 0 {
        if p.checked(p.side_to_move) {
            -MATE as int
        } else {
            0
        }
    } else if d == 0 {
        ev.score_of(p)
    } else {
        best_child(ev, p, hist, legal_list(p), (d - 1) as nat)
    }
}

/// The best, over the moves of `s` played on `p`, of minus the value of
/// the position after the move at depth `d`; `i32::MIN + 1` for none.
pub open spec fn best_child<E: Evaluator>(
    ev: E,
    p: Position,
    hist: Seq<u64>,
    s: Seq<Move>,
    d: nat,
) -> int
    decreases d, s.len(),
{
    if s.len() == 0 {
        i32::MIN + 1
    } else {
        let rest = best_child(ev, p, hist, s.drop_last(), d);
        let c = made(p, s.last());
        let v = -node_value(ev, c, hist.push(key_of(c)), d);
        if v > rest {
            v
        } else {
            rest
        }
    }
}

/// Minus the value of the position after `m` on `p`, searched `d` deep.
pub open spec fn child_value<E: Evaluator>(ev: E, p: Position, hist: Seq<u64>, m: Move, d: nat) -> int {
    -node_value(ev, made(p, m), hist.push(key_of(made(p, m))), d)
}

pub proof fn lemma_best_child_take<E: Evaluator>(ev: E, p: Position, hist: Seq<u64>, s: Seq<Move>, i: int, d: nat)
    requires
        0 <= i < s.len(),
    ensures
        best_child(ev, p, hist, s.take(i + 1), d) == if child_value(ev, p, hist, s[i], d) > best_child(
            ev,
            p,
            hist,
            s.take(i),
            d,
        ) {
            child_value(ev, p, hist, s[i], d)
        } else {
            best_child(ev, p, hist, s.take(i), d)
        },
{
    let t = s.take(i + 1);
    assert(t.drop_last() =~= s.take(i));
    assert(t.last() == s[i]);
}

proof fn lemma_best_child_bound<E: Evaluator>(ev: E, p: Position, hist: Seq<u64>, s: Seq<Move>, j: int, d: nat)
    requires
        0 <= j < s.len(),
    ensures
        child_value(ev, p, hist, s[j], d) <= best_child(ev, p, hist, s, d),
    decreases s.len(),
{
    if j < s.len() - 1 {
        let dl = s.drop_last();
        assert(dl[j] == s[j]);
        lemma_best_child_bound(ev, p, hist, dl, j, d);
    }
}

/// Number of entries among the first `n` of `hist` equal to `h`.
pub open spec fn occurrences(hist: Seq<u64>, n: int, h: u64) -> int
    decreases n,
{
    if n <= 0 {
        0
    } else {
        occurrences(hist, n - 1, h) + if hist[n - 1] == h {
            1int
        } else {
            0int
        }
    }
}

/// The hash a node compares against the history: the history's last entry,
/// or the position's own hash when the history is empty.
pub open spec fn current_key(hist: Seq<u64>, pos: Position) -> u64 {
    if hist.len() > 0 {
        hist.last()
    } else {
        hash_of(pos.side_to_move, pos.castling, pos.en_passant, pos.board@)
    }
}

/// A node is a draw before any move is searched: fifty-move rule, the
/// current hash seen three times in the history, or insufficient material.
pub open spec fn drawn_node(pos: Position, hist: Seq<u64>) -> bool {
    ||| pos.halfmove_clock >= 100
    ||| occurrences(hist, hist.len() as int, current_key(hist, pos)) >= 3
    ||| insufficient(pos.board@)
}

/// How many times `key` occurs in `history`.
pub fn count_occurrences(history: &Vec<u64>, key: u64) -> (r: usize)
    ensures
        r == occurrences(history@, history@.len() as int, key),
{
    let mut c: usize = 0;
    let mut i: usize = 0;
    while i < history.len()
        invariant
            i <= history@.len(),
            c == occurrences(history@, i as int, key),
            c <= i,
        decreases history@.len() - i,
    {
        if history[i] == key {
            c = c + 1;
        }
        i = i + 1;
    }
    c
}

/// Score of `pos` searched `depth` plies deep within the window
/// (`alpha`, `beta`), from the side to move's point of view, and whether
/// the search was cancelled. A draw by the fifty-move rule, threefold
/// repetition of the current hash in `history`, or insufficient material
/// scores 0; a checkmated side scores `-MATE`, a stalemated one 0; at depth
/// 0 the material evaluation decides. `history` is left as it was.
pub fn negamax(
    pos: &Position,
    depth: u8,
    alpha: i32,
    beta: i32,
    history: &mut Vec<u64>,
    nodes: &mut u64,
    tc: &TimeControl,
) -> (r: (i32, bool))
    requires
        pos.wf(),
        alpha > i32::MIN,
        beta > i32::MIN,
        alpha < beta,
    ensures
        final(history)@ == old(history)@,
        r.0 > i32::MIN,
        *final(nodes) >= *old(nodes),
        !r.1 && drawn_node(*pos, old(history)@) ==> r.0 == 0,
        !r.1 ==> -MATE <= r.0 <= MATE,
        !r.1 && depth == 0 ==> (r.0 == 0 || r.0 == evaluation(pos.board@, pos.side_to_move) || (
        r.0 == -MATE && pos.checked(pos.side_to_move))),
        !r.1 && !drawn_node(*pos, old(history)@) && (forall|m: Move| !legal_move(*pos, m)) ==> r.0
            == if pos.checked(pos.side_to_move) {
            -MATE
        } else {
            0
        },
        !r.1 && !drawn_node(*pos, old(history)@) && (exists|m: Move| legal_move(*pos, m)) && depth
            == 0 ==> r.0 == evaluation(pos.board@, pos.side_to_move),
        !r.1 && alpha < r.0 < beta ==> r.0 == node_value(Material, *pos, old(history)@, depth as nat),
        !r.1 && r.0 <= alpha ==> node_value(Material, *pos, old(history)@, depth as nat) <= r.0,
        !r.1 && r.0 >= beta ==> node_value(Material, *pos, old(history)@, depth as nat) >= r.0,
        tc.interval() > 0 && *old(nodes) % tc.interval() != 0 && (drawn_node(*pos, old(history)@)
            || depth == 0 || legal_list(*pos).len() == 0) ==> !r.1,
        r.1 && (drawn_node(*pos, old(history)@) || depth == 0 || legal_list(*pos).len() == 0) ==> r.0
            == 0 && *final(nodes) == *old(nodes),
{
    negamax_with(&Material, pos, depth, alpha, beta, history, nodes, tc)
}

/// `negamax` with the leaf evaluator `ev` in place of material.
pub fn negamax_with<E: Evaluator>(
    ev: &E,
    pos: &Position,
    depth: u8,
    alpha: i32,
    beta: i32,
    history: &mut Vec<u64>,
    nodes: &mut u64,
    tc: &TimeControl,
) -> (r: (i32, bool))
    requires
        pos.wf(),
        alpha > i32::MIN,
        beta > i32::MIN,
        alpha < beta,
    ensures
        final(history)@ == old(history)@,
        r.0 > i32::MIN,
        *final(nodes) >= *old(nodes),
        !r.1 && drawn_node(*pos, old(history)@) ==> r.0 == 0,
        !r.1 ==> -MATE <= r.0 <= MATE,
        !r.1 && depth == 0 ==> (r.0 == 0 || r.0 == ev.score_of(*pos) || (r.0 == -MATE
            && pos.checked(pos.side_to_move))),
        !r.1 && !drawn_node(*pos, old(history)@) && (forall|m: Move| !legal_move(*pos, m)) ==> r.0
            == if pos.checked(pos.side_to_move) {
            -MATE
        } else {
            0
        },
        !r.1 && !drawn_node(*pos, old(history)@) && (exists|m: Move| legal_move(*pos, m)) && depth
            == 0 ==> r.0 == ev.score_of(*pos),
        !r.1 && alpha < r.0 < beta ==> r.0 == node_value(*ev, *pos, old(history)@, depth as nat),
        !r.1 && r.0 <= alpha ==> node_value(*ev, *pos, old(history)@, depth as nat) <= r.0,
        !r.1 && r.0 >= beta ==> node_value(*ev, *pos, old(history)@, depth as nat) >= r.0,
        tc.interval() > 0 && *old(nodes) % tc.interval() != 0 && (drawn_node(*pos, old(history)@)
            || depth == 0 || legal_list(*pos).len() == 0) ==> !r.1,
        r.1 && (drawn_node(*pos, old(history)@) || depth == 0 || legal_list(*pos).len() == 0) ==> r.0
            == 0 && *final(nodes) == *old(nodes),
    decreases depth,
{
    if tc.should_check_time(*nodes) && tc.check_time() {
        return (0, true);
    }
    if pos.is_fifty_move_draw() {
        return (0, false);
    }
    let curr_key = if history.len() > 0 {
        history[history.len() - 1]
    } else {
        pos.position_hash()
    };
    let repeats = count_occurrences(history, curr_key);
    if repeats >= 3 {
        return (0, false);
    }
    if pos.is_insufficient_material() {
        return (0, false);
    }
    let mut tmp = *pos;
    let mut moves: Vec<Move> = Vec::new();
    legal_moves_into(&mut tmp, &mut moves);
    proof {
        if exists|m: Move| legal_move(*pos, m) {
            let m = choose|m: Move| legal_move(*pos, m);
            assert(moves@.contains(m));
        }
    }
    if moves.len() == 0 {
        proof {
            assert forall|m: Move| !legal_move(*pos, m) by {
                if legal_move(*pos, m) {
                    assert(moves@.contains(m));
                }
            }
        }
        if pos.in_check(pos.side_to_move) {
            return (-MATE, false);
        }
        return (0, false);
    }
    proof {
        assert(moves@.contains(moves@[0]));
        assert(legal_move(*pos, moves@[0]));
    }
    if depth == 0 {
        return (ev.evaluate(pos), false);
    }
    let mut a = alpha;
    let mut best: i32 = i32::MIN + 1;
    let mut i: usize = 0;
    while i < moves.len()
        invariant
            pos.wf(),
            from_own_piece(*pos, pos.side_to_move, moves@),
            history@ == old(history)@,
            *nodes >= *old(nodes),
            a > i32::MIN,
            beta > i32::MIN,
            best > i32::MIN,
            depth > 0,
            i > 0 ==> -MATE <= best <= MATE,
            i == 0 ==> best == i32::MIN + 1,
            moves@.len() > 0,
            legal_move(*pos, moves@[0]),
            !drawn_node(*pos, old(history)@),
            moves@ == legal_list(*pos),
            i <= moves@.len(),
            alpha > i32::MIN,
            alpha < beta,
            a == if best > alpha {
                best
            } else {
                alpha
            },
            a < beta,
            best_child(*ev, *pos, old(history)@, moves@.take(i as int), (depth - 1) as nat) <= best,
            best > alpha ==> best == best_child(*ev, *pos, old(history)@, moves@.take(i as int), (depth - 1) as nat),
        decreases moves@.len() - i,
    {
        let mv = moves[i];
        let mut child = *pos;
        let _undo = child.make_move(mv);
        let child_key = child.position_hash();
        history.push(child_key);
        if *nodes < u64::MAX {
            *nodes = *nodes + 1;
        }
        let (score, stopped) = negamax_with(ev, &child, depth - 1, -beta, -a, history, nodes, tc);
        let ghost cs = score;
        let score = -score;
        history.pop();
        proof {
            lemma_made(*pos, mv, child);
            assert(key_of(child) == child_key);
            lemma_best_child_take(*ev, *pos, old(history)@, moves@, i as int, (depth - 1) as nat);
            lemma_best_child_bound(*ev, *pos, old(history)@, moves@, i as int, (depth - 1) as nat);
        }
        assert(stopped || (-MATE <= score <= MATE));
        proof {
            assert(history@ =~= old(history)@);
        }
        if stopped {
            return (best, true);
        }
        if score > best {
            best = score;
        }
        assert(stopped || (-MATE <= best <= MATE));
        if best > a {
            a = best;
        }
        if a >= beta {
            proof {
                lemma_best_child_bound(*ev, *pos, old(history)@, moves@, i as int, (depth - 1) as nat);
            }
            return (best, false);
        }
        i = i + 1;
    }
    proof {
        assert(moves@.take(i as int) =~= moves@);
    }
    (best, false)
}

/// The best move of `pos` and its score after a search `depth` plies deep
/// (at least one), or `None` when the side to move has no legal move.
pub fn pick_best_move(pos: &Position, depth: u8) -> (r: Option<(Move, i32)>)
    requires
        pos.wf(),
    ensures
        r matches Some((m, _)) ==> pos.at(m.from_spec()) is Some && pos.at(m.from_spec())->0.color
            == pos.side_to_move,
        r matches Some((m, _)) ==> legal_move(*pos, m),
        r is Some <==> exists|m: Move| legal_move(*pos, m),
{
    let tc = TimeControl::new(None);
    let mut nodes: u64 = 0;
    crate::classical::pick_best_move(pos, depth, &mut nodes, &tc).best_move
}

} // verus!
