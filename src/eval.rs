//! Material evaluation from the side to move's point of view.
use vstd::prelude::*;
use crate::board::Position;
use crate::types::{Color, Piece, PieceKind};

verus! {

/// Centipawn value of a kind: 100, 320, 330, 500, 900 and 0 for the king.
pub open spec fn value_of(kind: PieceKind) -> int {
    match kind {
        PieceKind::Pawn => 100,
        PieceKind::Knight => 320,
        PieceKind::Bishop => 330,
        PieceKind::Rook => 500,
        PieceKind::Queen => 900,
        PieceKind::King => 0,
    }
}

/// White's material minus Black's over the first `n` squares.
pub open spec fn material(board: Seq<Option<Piece>>, n: int) -> int
    decreases n,
{
    if n <= 0 {
        0
    } else {
        material(board, n - 1) + match board[n - 1] {
            Some(pc) => if pc.color == Color::White {
                value_of(pc.kind)
            } else {
                -value_of(pc.kind)
            },
            None => 0,
        }
    }
}

/// The material balance seen by the side to move.
pub open spec fn evaluation(board: Seq<Option<Piece>>, side: Color) -> int {
    if side == Color::White {
        material(board, 64)
    } else {
        -material(board, 64)
    }
}

proof fn lemma_material_bound(board: Seq<Option<Piece>>, n: int)
    requires
        0 <= n,
    ensures
        -900 * n <= material(board, n) <= 900 * n,
    decreases n,
{
    if n > 0 {
        lemma_material_bound(board, n - 1);
    }
}

/// Centipawn value of a kind.
pub fn piece_value(kind: PieceKind) -> (r: i32)
    ensures
        r == value_of(kind),
{
    match kind {
        PieceKind::Pawn => 100,
        PieceKind::Knight => 320,
        PieceKind::Bishop => 330,
        PieceKind::Rook => 500,
        PieceKind::Queen => 900,
        PieceKind::King => 0,
    }
}

/// Material evaluation: the values of White's pieces minus those of
/// Black's, negated when Black is to move.
pub fn evaluate(pos: &Position) -> (r: i32)
    requires
        pos.wf(),
    ensures
        r == evaluation(pos.board@, pos.side_to_move),
        -57600 <= r <= 57600,
{
    let mut score: i32 = 0;
    let mut s: u8 = 0;
    while s < 64
        invariant
            s <= 64,
            pos.board@.len() == 64,
            score == material(pos.board@, s as int),
        decreases 64 - s,
    {
        proof {
            lemma_material_bound(pos.board@, s as int);
        }
        if let Some(pc) = pos.piece_at(s) {
            let v = piece_value(pc.kind);
            score = if pc.color == Color::White {
                score + v
            } else {
                score - v
            };
        }
        s = s + 1;
    }
    proof {
        lemma_material_bound(pos.board@, 64);
    }
    if pos.side_to_move == Color::White {
        score
    } else {
        -score
    }
}


/// A leaf evaluator: a pure function of a position giving centipawns from
/// the side to move's point of view, strictly between the mate scores.
pub trait Evaluator {
    /// The score the evaluator gives a position.
    spec fn score_of(&self, pos: Position) -> int;

    /// Score `pos`.
    fn evaluate(&self, pos: &Position) -> (r: i32)
        requires
            pos.wf(),
        ensures
            r as int == self.score_of(*pos),
            -crate::search::MATE < r < crate::search::MATE,
    ;
}

/// The material evaluator of `evaluate`.
#[derive(Clone, Copy, Debug, Default)]
pub struct Material;

impl Evaluator for Material {
    open spec fn score_of(&self, pos: Position) -> int {
        evaluation(pos.board@, pos.side_to_move)
    }

    fn evaluate(&self, pos: &Position) -> (r: i32) {
        evaluate(pos)
    }
}

} // verus!
