//! Perft: the number of leaves of the legal-move tree, the correctness
//! oracle of move generation.
use vstd::prelude::*;
use crate::board::{lemma_made, made, Position};
use crate::movegen::{from_own_piece, legal_list, legal_moves_into};
use crate::types::Move;

verus! {

/// `a + b`, or the largest `u64` when that is exceeded.
pub open spec fn sat_add(a: nat, b: nat) -> nat {
    if a + b > u64::MAX {
        u64::MAX as nat
    } else {
        a + b
    }
}

/// Leaves of the legal-move tree of `p` exactly `d` plies deep: 1 at
/// depth 0, else the sum over the legal moves of the counts below them at
/// depth `d - 1`. Sums stop at the largest `u64`.
pub open spec fn perft_count(p: Position, d: nat) -> nat
    decreases d, 0nat,
{
    if d == 0 {
        1
    } else {
        sum_children(p, legal_list(p), (d - 1) as nat)
    }
}

/// The counts at depth `d` below each move of `s` played on `p`, added up.
pub open spec fn sum_children(p: Position, s: Seq<Move>, d: nat) -> nat
    decreases d, s.len(),
{
    if s.len() == 0 {
        0
    } else {
        sat_add(sum_children(p, s.drop_last(), d), perft_count(made(p, s.last()), d))
    }
}

/// Perft symmetry: the count at depth `d >= 1` is the sum over the legal
/// moves of the counts below them at depth `d - 1`.
pub proof fn lemma_perft_symmetry(p: Position, d: nat)
    requires
        d >= 1,
    ensures
        perft_count(p, d) == sum_children(p, legal_list(p), (d - 1) as nat),
{
}

/// Leaves below `pos` at `depth`, reusing the move buffers in `layers`
/// (one is taken per ply and handed back; a missing one is allocated).
fn perft_inner(pos: &Position, depth: u8, layers: &mut Vec<Vec<Move>>) -> (r: u64)
    requires
        pos.wf(),
    ensures
        r as nat == perft_count(*pos, depth as nat),
    decreases depth,
{
    if depth == 0 {
        return 1;
    }
    let mut buf: Vec<Move> = match layers.pop() {
        Some(b) => b,
        None => Vec::new(),
    };
    let mut tmp = *pos;
    legal_moves_into(&mut tmp, &mut buf);
    let ghost d1 = (depth - 1) as nat;
    let mut nodes: u64 = 0;
    let mut i: usize = 0;
    while i < buf.len()
        invariant
            pos.wf(),
            depth > 0,
            d1 == depth - 1,
            i <= buf@.len(),
            buf@ == legal_list(*pos),
            from_own_piece(*pos, pos.side_to_move, buf@),
            nodes as nat == sum_children(*pos, buf@.take(i as int), d1),
        decreases buf@.len() - i,
    {
        let mv = buf[i];
        let mut child = *pos;
        let _undo = child.make_move(mv);
        proof {
            lemma_made(*pos, mv, child);
        }
        let sub = perft_inner(&child, depth - 1, layers);
        nodes = if nodes <= u64::MAX - sub {
            nodes + sub
        } else {
            u64::MAX
        };
        proof {
            let t = buf@.take(i + 1);
            assert(t.drop_last() =~= buf@.take(i as int));
            assert(t.last() == mv);
        }
        i = i + 1;
    }
    proof {
        assert(buf@.take(i as int) =~= buf@);
    }
    layers.push(buf);
    nodes
}

/// Number of leaves of the legal-move tree of exactly `depth` plies below
/// `pos`; 1 at depth 0. `pos` is left as it was.
pub fn perft(pos: &mut Position, depth: u8) -> (r: u64)
    requires
        old(pos).wf(),
    ensures
        *final(pos) == *old(pos),
        r as nat == perft_count(*old(pos), depth as nat),
{
    if depth == 0 {
        return 1;
    }
    let mut layers: Vec<Vec<Move>> = Vec::new();
    let mut d: u8 = 0;
    while d < depth
        invariant
            d <= depth,
        decreases depth - d,
    {
        layers.push(Vec::new());
        d = d + 1;
    }
    perft_inner(pos, depth, &mut layers)
}

} // verus!
