//! The position: a 64-square mailbox kept bit-for-bit coherent with piece
//! bitboards, plus side to move, castling rights, en-passant target and
//! clocks; attack detection; make/unmake of moves.
use vstd::prelude::*;
use crate::attacks::{
    bishop_attacks, bishop_set, king_attacks, king_bits, knight_attacks, knight_bits,
    pawn_attacks, pawn_bits, rook_attacks, rook_set,
};
use crate::bitboard::{bit, Bitboard};
use crate::types::{file_of, rank_of, sq, Color, Move, Piece, PieceKind};

verus! {

/// The four castling rights.
#[derive(Clone, Copy, Debug, PartialEq, Eq, Structural)]
pub struct CastlingRights {
    pub wk: bool,
    pub wq: bool,
    pub bk: bool,
    pub bq: bool,
}

/// The side whose index in per-color tables is `c`.
pub open spec fn color_of(c: int) -> Color {
    if c == 0 {
        Color::White
    } else {
        Color::Black
    }
}

/// Piece bitboards: one set per side, and one per side and kind.
#[derive(Clone, Copy, Debug, PartialEq, Eq)]
pub struct PieceBitboards {
    pub by_color: [Bitboard; 2],
    pub by_piece: [[Bitboard; 6]; 2],
}

impl PieceBitboards {
    /// The set of pieces of side index `c` and kind index `k`.
    pub open spec fn kind_set(self, c: int, k: int) -> Bitboard {
        self.by_piece@[c]@[k]
    }

    /// The set of pieces of side index `c`.
    pub open spec fn side_set(self, c: int) -> Bitboard {
        self.by_color@[c]
    }

    /// Every bitboard is empty.
    pub open spec fn all_empty(self) -> bool {
        &&& forall|c: int, s: int| 0 <= c < 2 ==> !#[trigger] self.side_set(c).has(s)
        &&& forall|c: int, k: int, s: int|
            0 <= c < 2 && 0 <= k < 6 ==> !#[trigger] self.kind_set(c, k).has(s)
    }

    /// Bitboards with no piece at all.
    pub fn new_empty() -> (r: PieceBitboards)
        ensures
            r.all_empty(),
    {
        let r = PieceBitboards {
            by_color: [Bitboard(0); 2],
            by_piece: [[Bitboard(0); 6]; 2],
        };
        proof {
            assert forall|s: int| 0 <= s < 64 implies !bit(0u64, s) by {
                crate::bitboard::lemma_bit_zero(s as u64);
            }
        }
        r
    }

    /// Every occupied square.
    pub fn occupied(&self) -> (r: Bitboard)
        ensures
            r.0 == self.side_set(0).0 | self.side_set(1).0,
            forall|s: int| r.has(s) <==> (self.side_set(0).has(s) || self.side_set(1).has(s)),
    {
        self.by_color[0].union(self.by_color[1])
    }

    /// Every empty square.
    pub fn empty(&self) -> (r: Bitboard)
        ensures
            forall|s: int|
                0 <= s < 64 ==> (r.has(s) <==> !(self.side_set(0).has(s) || self.side_set(
                    1,
                ).has(s))),
    {
        self.occupied().complement()
    }

    /// Add `piece` on square `sq` to its side's set and its kind's set.
    pub fn set(&mut self, sq: u8, piece: Piece)
        requires
            sq < 64,
        ensures
            forall|c: int, s: int|
                0 <= c < 2 ==> (#[trigger] final(self).side_set(c).has(s) <==> (old(
                    self,
                ).side_set(c).has(s) || (s == sq && c == piece.color.index()))),
            forall|c: int, k: int, s: int|
                0 <= c < 2 && 0 <= k < 6 ==> (#[trigger] final(self).kind_set(c, k).has(s) <==> (
                old(self).kind_set(c, k).has(s) || (s == sq && c == piece.color.index() && k
                    == piece.kind.index()))),
    {
        let ci = piece.color.idx();
        let ki = piece.kind.idx();
        let mut side = self.by_color[ci];
        side.set(sq);
        self.by_color[ci] = side;
        let mut row = self.by_piece[ci];
        let mut b = row[ki];
        b.set(sq);
        row[ki] = b;
        self.by_piece[ci] = row;
    }

    /// Remove square `sq` from the sets of `piece`'s side and kind.
    pub fn clear(&mut self, sq: u8, piece: Piece)
        requires
            sq < 64,
        ensures
            forall|c: int, s: int|
                0 <= c < 2 ==> (#[trigger] final(self).side_set(c).has(s) <==> (old(
                    self,
                ).side_set(c).has(s) && !(s == sq && c == piece.color.index()))),
            forall|c: int, k: int, s: int|
                0 <= c < 2 && 0 <= k < 6 ==> (#[trigger] final(self).kind_set(c, k).has(s) <==> (
                old(self).kind_set(c, k).has(s) && !(s == sq && c == piece.color.index() && k
                    == piece.kind.index()))),
    {
        let ci = piece.color.idx();
        let ki = piece.kind.idx();
        let mut side = self.by_color[ci];
        side.clear(sq);
        self.by_color[ci] = side;
        let mut row = self.by_piece[ci];
        let mut b = row[ki];
        b.clear(sq);
        row[ki] = b;
        self.by_piece[ci] = row;
    }

    /// The pieces of one side and kind.
    pub fn pieces(&self, color: Color, kind: PieceKind) -> (r: Bitboard)
        ensures
            r == self.kind_set(color.index(), kind.index()),
    {
        self.by_piece[color.idx()][kind.idx()]
    }

    /// The pieces of one side.
    pub fn color(&self, color: Color) -> (r: Bitboard)
        ensures
            r == self.side_set(color.index()),
    {
        self.by_color[color.idx()]
    }
}

/// Mailbox and bitboards agree on every square: a square is in the set of
/// side c and kind k exactly when the mailbox holds that piece there, and
/// in the set of side c exactly when it holds a piece of that side.
pub open spec fn coherent(board: Seq<Option<Piece>>, bb: PieceBitboards) -> bool {
    &&& board.len() == 64
    &&& forall|c: int, k: int, s: int|
        0 <= c < 2 && 0 <= k < 6 ==> (#[trigger] bb.kind_set(c, k).has(s) <==> (0 <= s < 64
            && board[s] == Some(Piece { color: color_of(c), kind: PieceKind::of_index(k) })))
    &&& forall|c: int, s: int|
        0 <= c < 2 ==> (#[trigger] bb.side_set(c).has(s) <==> (0 <= s < 64 && board[s] is Some
            && board[s]->0.color == color_of(c)))
}

/// A position.
#[derive(Clone, Copy, Debug)]
pub struct Position {
    pub board: [Option<Piece>; 64],
    pub bitboards: PieceBitboards,
    pub side_to_move: Color,
    pub castling: CastlingRights,
    pub en_passant: Option<u8>,
    pub halfmove_clock: u32,
    pub fullmove_number: u32,
}

/// What `make_move` overwrote, so that `unmake_move` can restore it.
#[derive(Clone, Copy, Debug)]
pub struct Undo {
    pub captured: Option<Piece>,
    pub castling: CastlingRights,
    pub en_passant: Option<u8>,
    pub halfmove_clock: u32,
    pub fullmove_number: u32,
    pub moved_piece: Piece,
    pub rook_move: Option<(u8, u8)>,
    pub ep_captured_sq: Option<u8>,
}

pub proof fn lemma_index_facts()
    ensures
        forall|c: int| 0 <= c < 2 ==> #[trigger] color_of(c).index() == c,
        forall|k: int| 0 <= k < 6 ==> #[trigger] PieceKind::of_index(k).index() == k,
        forall|c: Color| #[trigger] color_of(c.index()) == c,
        forall|k: PieceKind| #[trigger] PieceKind::of_index(k.index()) == k,
{
}

/// The kind on file `f` of a back rank at the start: rook, knight,
/// bishop, queen, king, bishop, knight, rook.
pub open spec fn back_rank_kind(f: int) -> PieceKind {
    if f == 0 || f == 7 {
        PieceKind::Rook
    } else if f == 1 || f == 6 {
        PieceKind::Knight
    } else if f == 2 || f == 5 {
        PieceKind::Bishop
    } else if f == 3 {
        PieceKind::Queen
    } else {
        PieceKind::King
    }
}

/// The piece on square `s` at the start of a game: White's pieces on
/// rank 1 and pawns on rank 2, Black's pawns on rank 7 and pieces on rank 8.
pub open spec fn start_piece(s: int) -> Option<Piece> {
    let r = s / 8;
    let f = s % 8;
    if r == 0 {
        Some(Piece { color: Color::White, kind: back_rank_kind(f) })
    } else if r == 1 {
        Some(Piece { color: Color::White, kind: PieceKind::Pawn })
    } else if r == 6 {
        Some(Piece { color: Color::Black, kind: PieceKind::Pawn })
    } else if r == 7 {
        Some(Piece { color: Color::Black, kind: back_rank_kind(f) })
    } else {
        None
    }
}

impl Position {
    /// Mailbox and bitboards agree, and the en-passant target is a square.
    pub open spec fn wf(&self) -> bool {
        &&& coherent(self.board@, self.bitboards)
        &&& (self.en_passant matches Some(e) ==> e < 64)
    }

    /// The piece on square `s`.
    pub open spec fn at(&self, s: int) -> Option<Piece> {
        self.board@[s]
    }

    /// The pieces of side `c` and kind `k`.
    pub open spec fn set_of(&self, c: Color, k: PieceKind) -> Bitboard {
        self.bitboards.kind_set(c.index(), k.index())
    }

    /// The occupied squares as a word.
    pub open spec fn occ(&self) -> u64 {
        self.bitboards.side_set(0).0 | self.bitboards.side_set(1).0
    }

    /// Whether side `by` attacks square `t`: a pawn, knight or king of `by`
    /// stands on a square from which it reaches `t`, or a bishop or queen
    /// reaches it along a diagonal, or a rook or queen along a line, with
    /// nothing in between.
    pub open spec fn attacked(&self, t: int, by: Color) -> bool {
        let one = (1u64 << (t as u64));
        ||| pawn_bits(one, by != Color::White) & self.set_of(by, PieceKind::Pawn).0 != 0
        ||| knight_bits(one) & self.set_of(by, PieceKind::Knight).0 != 0
        ||| king_bits(one) & self.set_of(by, PieceKind::King).0 != 0
        ||| exists|i: int|
            #[trigger] bishop_set(t, self.occ()).contains(i) && (self.set_of(
                by,
                PieceKind::Bishop,
            ).has(i) || self.set_of(by, PieceKind::Queen).has(i))
        ||| exists|i: int|
            #[trigger] rook_set(t, self.occ()).contains(i) && (self.set_of(by, PieceKind::Rook).has(
                i,
            ) || self.set_of(by, PieceKind::Queen).has(i))
    }

    /// The square of side `c`'s king: the lowest square holding one.
    pub open spec fn king_square(&self, c: Color) -> Option<int> {
        let k = self.set_of(c, PieceKind::King).0;
        if k == 0 {
            None
        } else {
            Some(vstd::std_specs::bits::u64_trailing_zeros(k) as int)
        }
    }

    /// Whether side `c`'s king stands on an attacked square.
    pub open spec fn checked(&self, c: Color) -> bool {
        match self.king_square(c) {
            Some(k) => self.attacked(k, c.opposite()),
            None => false,
        }
    }

    /// An empty board, White to move, every castling right, clocks 0 and 1.
    pub fn empty_board() -> (r: Position)
        ensures
            r.wf(),
            forall|s: int| 0 <= s < 64 ==> r.at(s) is None,
            r.side_to_move == Color::White,
            r.castling == (CastlingRights { wk: true, wq: true, bk: true, bq: true }),
            r.en_passant is None,
            r.halfmove_clock == 0,
            r.fullmove_number == 1,
    {
        let p = Position {
            board: [None; 64],
            bitboards: PieceBitboards::new_empty(),
            side_to_move: Color::White,
            castling: CastlingRights { wk: true, wq: true, bk: true, bq: true },
            en_passant: None,
            halfmove_clock: 0,
            fullmove_number: 1,
        };
        p
    }

    /// The piece on square `sq`.
    pub fn piece_at(&self, sq: u8) -> (r: Option<Piece>)
        requires
            sq < 64,
        ensures
            r == self.at(sq as int),
    {
        self.board[sq as usize]
    }

    /// Put `pc` (or nothing) on square `sq`, keeping mailbox and bitboards
    /// coherent.
    pub fn set_piece(&mut self, sq: u8, pc: Option<Piece>)
        requires
            old(self).wf(),
            sq < 64,
        ensures
            final(self).wf(),
            final(self).board@ == old(self).board@.update(sq as int, pc),
            final(self).side_to_move == old(self).side_to_move,
            final(self).castling == old(self).castling,
            final(self).en_passant == old(self).en_passant,
            final(self).halfmove_clock == old(self).halfmove_clock,
            final(self).fullmove_number == old(self).fullmove_number,
    {
        proof {
            lemma_index_facts();
        }
        let ghost b0 = self.board@;
        if let Some(old_pc) = self.board[sq as usize] {
            self.bitboards.clear(sq, old_pc);
        }
        if let Some(new_pc) = pc {
            self.bitboards.set(sq, new_pc);
        }
        self.board[sq as usize] = pc;
        proof {
            let b1 = self.board@;
            assert(b1 == b0.update(sq as int, pc));
            let bb = self.bitboards;
            assert forall|c: int, k: int, s: int| 0 <= c < 2 && 0 <= k < 6 implies (
            #[trigger] bb.kind_set(c, k).has(s) <==> (0 <= s < 64 && b1[s] == Some(
                Piece { color: color_of(c), kind: PieceKind::of_index(k) },
            ))) by {
                if s != sq {
                }
            }
            assert forall|c: int, s: int| 0 <= c < 2 implies (#[trigger] bb.side_set(c).has(s)
                <==> (0 <= s < 64 && b1[s] is Some && b1[s]->0.color == color_of(c))) by {
                if s != sq {
                }
            }
        }
    }

    /// The starting position.
    pub fn startpos() -> (r: Position)
        ensures
            r.wf(),
            r.side_to_move == Color::White,
            r.castling == (CastlingRights { wk: true, wq: true, bk: true, bq: true }),
            r.en_passant is None,
            r.halfmove_clock == 0,
            r.fullmove_number == 1,
            forall|s: int| 0 <= s < 64 ==> #[trigger] r.at(s) == start_piece(s),
    {
        let mut p = Position::empty_board();
        let mut f: u8 = 0;
        while f < 8
            invariant
                f <= 8,
                p.wf(),
                forall|s: int|
                    0 <= s < 64 ==> #[trigger] p.at(s) == if s % 8 < f {
                        start_piece(s)
                    } else {
                        None
                    },
                p.side_to_move == Color::White,
                p.castling == (CastlingRights { wk: true, wq: true, bk: true, bq: true }),
                p.en_passant is None,
                p.halfmove_clock == 0,
                p.fullmove_number == 1,
            decreases 8 - f,
        {
            let ghost p0 = p;
            let ghost b0 = p.board@;
            p.set_piece(8 + f, Some(Piece { color: Color::White, kind: PieceKind::Pawn }));
            p.set_piece(48 + f, Some(Piece { color: Color::Black, kind: PieceKind::Pawn }));
            let kind = if f == 0 || f == 7 {
                PieceKind::Rook
            } else if f == 1 || f == 6 {
                PieceKind::Knight
            } else if f == 2 || f == 5 {
                PieceKind::Bishop
            } else if f == 3 {
                PieceKind::Queen
            } else {
                PieceKind::King
            };
            p.set_piece(f, Some(Piece { color: Color::White, kind }));
            p.set_piece(56 + f, Some(Piece { color: Color::Black, kind }));
            proof {
                assert(back_rank_kind(f as int) == kind);
                let fi = f as int;
                assert forall|s: int| 0 <= s < 64 implies #[trigger] p.at(s) == if s % 8 < fi + 1 {
                    start_piece(s)
                } else {
                    None
                } by {
                    if s == fi {
                        assert(s % 8 == fi && s / 8 == 0);
                    } else if s == 8 + fi {
                        assert(s % 8 == fi && s / 8 == 1);
                    } else if s == 48 + fi {
                        assert(s % 8 == fi && s / 8 == 6);
                    } else if s == 56 + fi {
                        assert(s % 8 == fi && s / 8 == 7);
                    } else {
                        assert(p.board@[s] == b0[s]);
                        assert(p0.at(s) == b0[s]);
                        if s % 8 == fi {
                            assert(s / 8 != 0 && s / 8 != 1 && s / 8 != 6 && s / 8 != 7);
                        }
                    }
                }
            }
            f = f + 1;
        }
        p
    }

    /// The square of side `c`'s king, read from the bitboards.
    pub fn king_sq(&self, c: Color) -> (r: Option<u8>)
        ensures
            r matches Some(s) ==> s < 64,
            r matches Some(s) ==> self.king_square(c) == Some(s as int),
            r is None <==> self.king_square(c) is None,
    {
        self.bitboards.pieces(c, PieceKind::King).lsb()
    }

    /// Whether side `by` attacks square `target`.
    pub fn is_square_attacked(&self, target: u8, by: Color) -> (r: bool)
        requires
            target < 64,
        ensures
            r == self.attacked(target as int, by),
    {
        let occupied = self.bitboards.occupied();
        proof {
            assert(occupied.0 == self.occ());
        }
        let pawn_attackers = pawn_attacks(target, by != Color::White);
        if pawn_attackers.0 & self.bitboards.pieces(by, PieceKind::Pawn).0 != 0 {
            return true;
        }
        if knight_attacks(target).0 & self.bitboards.pieces(by, PieceKind::Knight).0 != 0 {
            return true;
        }
        if king_attacks(target).0 & self.bitboards.pieces(by, PieceKind::King).0 != 0 {
            return true;
        }
        let bishop_queen = self.bitboards.pieces(by, PieceKind::Bishop).union(
            self.bitboards.pieces(by, PieceKind::Queen),
        );
        let diag = bishop_attacks(target, occupied).intersect(bishop_queen);
        if !diag.is_empty() {
            proof {
                let i = choose|i: int| diag.has(i);
                assert(bishop_set(target as int, self.occ()).contains(i));
            }
            return true;
        }
        let rook_queen = self.bitboards.pieces(by, PieceKind::Rook).union(
            self.bitboards.pieces(by, PieceKind::Queen),
        );
        let line = rook_attacks(target, occupied).intersect(rook_queen);
        if !line.is_empty() {
            proof {
                let i = choose|i: int| line.has(i);
                assert(rook_set(target as int, self.occ()).contains(i));
            }
            return true;
        }
        proof {
            assert forall|i: int| #[trigger]
                bishop_set(target as int, self.occ()).contains(i) implies !(self.set_of(
                by,
                PieceKind::Bishop,
            ).has(i) || self.set_of(by, PieceKind::Queen).has(i)) by {
                assert(!diag.has(i));
            }
            assert forall|i: int| #[trigger]
                rook_set(target as int, self.occ()).contains(i) implies !(self.set_of(
                by,
                PieceKind::Rook,
            ).has(i) || self.set_of(by, PieceKind::Queen).has(i)) by {
                assert(!line.has(i));
            }
        }
        false
    }

    /// Whether side `c`'s king is attacked.
    pub fn in_check(&self, c: Color) -> (r: bool)
        ensures
            r == self.checked(c),
    {
        let ksq = match self.king_sq(c) {
            Some(s) => s,
            None => return false,
        };
        self.is_square_attacked(ksq, c.other())
    }

    /// Fifty-move rule: a hundred half-moves without a pawn move or capture.
    pub fn is_fifty_move_draw(&self) -> (r: bool)
        ensures
            r == (self.halfmove_clock >= 100),
    {
        self.halfmove_clock >= 100
    }
}


/// One step of the position hash: fold `x` into `h`.
pub open spec fn mix(h: u64, x: u64) -> u64 {
    (h ^ x).wrapping_mul(0x100000001b3u64)
}

/// Hash contribution of square `i` holding `pc`.
pub open spec fn square_code(i: int, pc: Option<Piece>) -> u64 {
    match pc {
        Some(p) => ((i as u64) ^ ((p.color.index() as u64) << 6u64) ^ ((p.kind.index() as u64)
            << 3u64)) as u64,
        None => i as u64,
    }
}

/// The hash folded over the first `n` squares of the board, from `h`.
pub open spec fn hash_squares(h: u64, board: Seq<Option<Piece>>, n: int) -> u64
    decreases n,
{
    if n <= 0 {
        h
    } else {
        mix(hash_squares(h, board, n - 1), square_code(n - 1, board[n - 1]))
    }
}

/// The hash of everything that identifies a position for repetition:
/// side to move, castling rights, the file of the en-passant target and the pieces on the
/// squares; the clocks play no part.
pub open spec fn hash_of(
    side: Color,
    castling: CastlingRights,
    ep: Option<u8>,
    board: Seq<Option<Piece>>,
) -> u64 {
    let h0 = mix(
        0xcbf29ce484222325u64,
        if side == Color::White {
            1
        } else {
            2
        },
    );
    let h1 = mix(
        h0,
        if castling.wk {
            3
        } else {
            5
        },
    );
    let h2 = mix(
        h1,
        if castling.wq {
            7
        } else {
            11
        },
    );
    let h3 = mix(
        h2,
        if castling.bk {
            13
        } else {
            17
        },
    );
    let h4 = mix(
        h3,
        if castling.bq {
            19
        } else {
            23
        },
    );
    let h5 = match ep {
        Some(e) => mix(h4, (29 + e % 8) as u64),
        None => h4,
    };
    hash_squares(h5, board, 64)
}

/// Number of squares among the first `n` holding a piece of side `c` and kind `k`.
pub open spec fn count_pieces(board: Seq<Option<Piece>>, n: int, c: Color, k: PieceKind) -> int
    decreases n,
{
    if n <= 0 {
        0
    } else {
        count_pieces(board, n - 1, c, k) + if board[n - 1] == Some(Piece { color: c, kind: k }) {
            1int
        } else {
            0int
        }
    }
}

/// Whether square `s` is a light square.
pub open spec fn is_light(s: int) -> bool {
    (s / 8 + s % 8) % 2 == 1
}

/// Whether a bishop of side `c` stands on a light square among the first `n`.
pub open spec fn light_bishop(board: Seq<Option<Piece>>, n: int, c: Color) -> bool {
    exists|s: int|
        0 <= s < n && #[trigger] board[s] == Some(Piece { color: c, kind: PieceKind::Bishop })
            && is_light(s)
}

/// Whether a pawn, rook or queen stands among the first `n` squares.
pub open spec fn has_heavy(board: Seq<Option<Piece>>, n: int) -> bool {
    exists|s: int|
        0 <= s < n && #[trigger] board[s] is Some && (board[s]->0.kind == PieceKind::Pawn
            || board[s]->0.kind == PieceKind::Rook || board[s]->0.kind == PieceKind::Queen)
}

/// Insufficient material: no pawn, rook or queen, and either no minor
/// piece, exactly one minor piece, or one bishop each on squares of the
/// same color.
pub open spec fn insufficient(board: Seq<Option<Piece>>) -> bool {
    let wn = count_pieces(board, 64, Color::White, PieceKind::Knight);
    let bn = count_pieces(board, 64, Color::Black, PieceKind::Knight);
    let wb = count_pieces(board, 64, Color::White, PieceKind::Bishop);
    let bb = count_pieces(board, 64, Color::Black, PieceKind::Bishop);
    !has_heavy(board, 64) && (wn + bn + wb + bb <= 1 || (wn + bn == 0 && wb == 1 && bb == 1
        && light_bishop(board, 64, Color::White) == light_bishop(board, 64, Color::Black)))
}

proof fn lemma_count_bound(board: Seq<Option<Piece>>, n: int, c: Color, k: PieceKind)
    ensures
        0 <= count_pieces(board, n, c, k) <= if n < 0 {
            0
        } else {
            n
        },
    decreases n,
{
    if n > 0 {
        lemma_count_bound(board, n - 1, c, k);
    }
}

/// The promoted kind of a pawn move's flag field: the named kind, Queen
/// by default.
pub open spec fn promoted_kind(mv: Move) -> PieceKind {
    match mv.promo_spec() {
        Some(k) => k,
        None => PieceKind::Queen,
    }
}

/// Add one to a clock, staying at the largest value once there.
pub open spec fn tick(x: u32) -> u32 {
    if x < u32::MAX {
        (x + 1) as u32
    } else {
        x
    }
}

fn tick_exec(x: u32) -> (r: u32)
    ensures
        r == tick(x),
{
    if x < u32::MAX {
        x + 1
    } else {
        x
    }
}

/// Castling rights after `moved` goes from `from` to `to` capturing
/// `captured`: a king move strips both of its side's rights, a rook leaving
/// a corner strips that corner's right, and a rook captured on its corner
/// strips the owner's right there.
pub open spec fn castling_after_spec(
    c: CastlingRights,
    moved: Piece,
    from: int,
    to: int,
    captured: Option<Piece>,
) -> CastlingRights {
    let w = moved.color == Color::White;
    let king = moved.kind == PieceKind::King;
    let rook = moved.kind == PieceKind::Rook;
    let cap_rook = captured matches Some(cp) && cp.kind == PieceKind::Rook;
    let cap_white = captured matches Some(cp) && cp.color == Color::White;
    CastlingRights {
        wk: c.wk && !(w && king) && !(w && rook && from == 7) && !(cap_rook && cap_white && to == 7),
        wq: c.wq && !(w && king) && !(w && rook && from == 0) && !(cap_rook && cap_white && to == 0),
        bk: c.bk && !(!w && king) && !(!w && rook && from == 63) && !(cap_rook && !cap_white && to
            == 63),
        bq: c.bq && !(!w && king) && !(!w && rook && from == 56) && !(cap_rook && !cap_white && to
            == 56),
    }
}

/// Castling rights after a move; see `castling_after_spec`.
pub fn castling_after(
    c: CastlingRights,
    moved: Piece,
    from: u8,
    to: u8,
    captured: Option<Piece>,
) -> (r: CastlingRights)
    ensures
        r == castling_after_spec(c, moved, from as int, to as int, captured),
{
    let mut rights = c;
        match moved.color {
            Color::White => {
                if moved.kind == PieceKind::King {
                    rights.wk = false;
                    rights.wq = false;
                }
                if moved.kind == PieceKind::Rook {
                    if from == 0 {
                        rights.wq = false;
                    }
                    if from == 7 {
                        rights.wk = false;
                    }
                }
            },
            Color::Black => {
                if moved.kind == PieceKind::King {
                    rights.bk = false;
                    rights.bq = false;
                }
                if moved.kind == PieceKind::Rook {
                    if from == 56 {
                        rights.bq = false;
                    }
                    if from == 63 {
                        rights.bk = false;
                    }
                }
            },
        }
        if let Some(cp) = captured {
            if cp.kind == PieceKind::Rook {
                match cp.color {
                    Color::White => {
                        if to == 0 {
                            rights.wq = false;
                        }
                        if to == 7 {
                            rights.wk = false;
                        }
                    },
                    Color::Black => {
                        if to == 56 {
                            rights.bq = false;
                        }
                        if to == 63 {
                            rights.bk = false;
                        }
                    },
                }
            }
        }

        rights
}

/// The square of the pawn an en-passant move takes: one rank behind the
/// target from the mover's side, when that is on the board.
pub open spec fn ep_victim(mv: Move, moved: Piece) -> Option<int> {
    if mv.is_ep_spec() {
        let cr = mv.to_spec() / 8 + if moved.color == Color::White {
            -1int
        } else {
            1int
        };
        if 0 <= cr < 8 {
            Some(cr * 8 + mv.to_spec() % 8)
        } else {
            None
        }
    } else {
        None
    }
}

/// Whether `moved`, arriving on `to`, is a pawn reaching its last rank.
pub open spec fn promotes(moved: Piece, to: int) -> bool {
    moved.kind == PieceKind::Pawn && ((moved.color == Color::White && to / 8 == 7) || (
    moved.color == Color::Black && to / 8 == 0))
}

/// Source and target of the rook in a castle by `moved`: h1 to f1 and
/// a1 to d1 for White, h8 to f8 and a8 to d8 for Black.
pub open spec fn castle_rook(moved: Piece, mv: Move) -> Option<(int, int)> {
    let f = mv.from_spec();
    let t = mv.to_spec();
    if mv.is_castle_spec() && moved.kind == PieceKind::King {
        if moved.color == Color::White && f == 4 && t == 6 {
            Some((7int, 5int))
        } else if moved.color == Color::White && f == 4 && t == 2 {
            Some((0int, 3int))
        } else if moved.color == Color::Black && f == 60 && t == 62 {
            Some((63int, 61int))
        } else if moved.color == Color::Black && f == 60 && t == 58 {
            Some((56int, 59int))
        } else {
            None
        }
    } else {
        None
    }
}

/// The piece a move takes on board `b`.
pub open spec fn captured_by(b: Seq<Option<Piece>>, mv: Move) -> Option<Piece> {
    match ep_victim(mv, b[mv.from_spec()]->0) {
        Some(cs) => b[cs],
        None => b[mv.to_spec()],
    }
}

/// Board `b` after the moving piece has landed (promoted if it is a pawn
/// on its last rank) and an en-passant victim has gone.
pub open spec fn placed(b: Seq<Option<Piece>>, mv: Move) -> Seq<Option<Piece>> {
    let from = mv.from_spec();
    let to = mv.to_spec();
    let moved = b[from]->0;
    let b1 = match ep_victim(mv, moved) {
        Some(cs) => b.update(cs, None),
        None => b,
    };
    let b2 = b1.update(from, None).update(to, Some(moved));
    if promotes(moved, to) {
        b2.update(to, Some(Piece { color: moved.color, kind: promoted_kind(mv) }))
    } else {
        b2
    }
}

/// The rook move of a castle, when its rook is there to move.
pub open spec fn rook_moved(b: Seq<Option<Piece>>, mv: Move) -> Option<(u8, u8)> {
    match castle_rook(b[mv.from_spec()]->0, mv) {
        Some((rf, rt)) => if placed(b, mv)[rf] is Some {
            Some((rf as u8, rt as u8))
        } else {
            None
        },
        None => None,
    }
}

/// Board `b` after move `mv`.
pub open spec fn board_after(b: Seq<Option<Piece>>, mv: Move) -> Seq<Option<Piece>> {
    let b3 = placed(b, mv);
    match rook_moved(b, mv) {
        Some((rf, rt)) => b3.update(rf as int, None).update(rt as int, b3[rf as int]),
        None => b3,
    }
}

/// The en-passant target after `moved` goes from `from` to `to`: the
/// square passed over by a pawn's double step, else none.
pub open spec fn ep_target_after(moved: Piece, from: int, to: int) -> Option<u8> {
    if moved.kind == PieceKind::Pawn && ((moved.color == Color::White && from / 8 == 1 && to / 8
        == 3) || (moved.color == Color::Black && from / 8 == 6 && to / 8 == 4)) {
        Some((((from / 8 + to / 8) / 2) * 8 + from % 8) as u8)
    } else {
        None
    }
}

/// Whether a move resets the halfmove clock: a pawn move, a capture on
/// the target, or an en-passant capture.
pub open spec fn resets_clock(b: Seq<Option<Piece>>, mv: Move) -> bool {
    let moved = b[mv.from_spec()]->0;
    moved.kind == PieceKind::Pawn || b[mv.to_spec()] is Some || ep_victim(mv, moved) is Some
}

/// The record `make_move` returns for `mv` on `p`.
pub open spec fn undo_of(p: Position, mv: Move) -> Undo {
    let b = p.board@;
    let moved = b[mv.from_spec()]->0;
    Undo {
        captured: captured_by(b, mv),
        castling: p.castling,
        en_passant: p.en_passant,
        halfmove_clock: p.halfmove_clock,
        fullmove_number: p.fullmove_number,
        moved_piece: moved,
        rook_move: rook_moved(b, mv),
        ep_captured_sq: match ep_victim(mv, moved) {
            Some(cs) => Some(cs as u8),
            None => None,
        },
    }
}

/// Board `b` after taking back `mv` with record `u`.
pub open spec fn board_unmade(b: Seq<Option<Piece>>, mv: Move, u: Undo) -> Seq<Option<Piece>> {
    let from = mv.from_spec();
    let to = mv.to_spec();
    let b1 = match u.rook_move {
        Some((rf, rt)) => b.update(rt as int, None).update(rf as int, b[rt as int]),
        None => b,
    };
    let pot = if promotes(u.moved_piece, to) {
        Some(Piece { color: u.moved_piece.color, kind: PieceKind::Pawn })
    } else {
        b1[to]
    };
    let b2 = b1.update(to, None).update(from, pot);
    if mv.is_ep_spec() {
        match u.ep_captured_sq {
            Some(cs) => b2.update(cs as int, u.captured),
            None => b2,
        }
    } else {
        b2.update(to, u.captured)
    }
}

impl Position {
    /// Play `mv`, which moves the piece on its source square, and return
    /// what is needed to take it back. Clocks saturate at their largest value.
    #[verifier::rlimit(40)]
    pub fn make_move(&mut self, mv: Move) -> (undo: Undo)
        requires
            old(self).wf(),
            old(self).at(mv.from_spec()) is Some,
        ensures
            final(self).wf(),
            final(self).side_to_move == old(self).side_to_move.opposite(),
            final(self).fullmove_number == if old(self).side_to_move == Color::Black {
                tick(old(self).fullmove_number)
            } else {
                old(self).fullmove_number
            },
            undo == undo_of(*old(self), mv),
            final(self).board@ == board_after(old(self).board@, mv),
            final(self).castling == castling_after_spec(
                old(self).castling,
                old(self).at(mv.from_spec())->0,
                mv.from_spec(),
                mv.to_spec(),
                captured_by(old(self).board@, mv),
            ),
            final(self).en_passant == ep_target_after(
                old(self).at(mv.from_spec())->0,
                mv.from_spec(),
                mv.to_spec(),
            ),
            final(self).halfmove_clock == if resets_clock(old(self).board@, mv) {
                0
            } else {
                tick(old(self).halfmove_clock)
            },
    {
        let from = mv.from();
        let to = mv.to();
        let moved = match self.piece_at(from) {
            Some(p) => p,
            None => {
                proof {
                    assert(false);
                }
                Piece { color: Color::White, kind: PieceKind::Pawn }
            },
        };
        let mut captured = self.piece_at(to);
        let prev_castling = self.castling;
        let prev_ep = self.en_passant;
        let prev_hmc = self.halfmove_clock;
        let prev_fmn = self.fullmove_number;

        self.en_passant = None;
        let mut reset_hmc = moved.kind == PieceKind::Pawn || captured.is_some();

        let mut ep_captured_sq: Option<u8> = None;
        if mv.is_en_passant() {
            let dir: i8 = match moved.color {
                Color::White => -1,
                Color::Black => 1,
            };
            let cap_rank = rank_of(to) + dir;
            let cap_file = file_of(to);
            if let Some(cs) = sq(cap_file, cap_rank) {
                captured = self.piece_at(cs);
                self.set_piece(cs, None);
                ep_captured_sq = Some(cs);
                reset_hmc = true;
            }
        }

        self.set_piece(from, None);
        self.set_piece(to, Some(moved));

        if moved.kind == PieceKind::Pawn {
            let r = rank_of(to);
            if (moved.color == Color::White && r == 7) || (moved.color == Color::Black && r == 0) {
                let promo = match mv.promo() {
                    Some(k) => k,
                    None => PieceKind::Queen,
                };
                self.set_piece(to, Some(Piece { color: moved.color, kind: promo }));
                reset_hmc = true;
            }
        }

        let mut rook_move: Option<(u8, u8)> = None;
        if mv.is_castle() && moved.kind == PieceKind::King {
            let (rf, rt): (u8, u8) = if moved.color == Color::White && from == 4 && to == 6 {
                (7, 5)
            } else if moved.color == Color::White && from == 4 && to == 2 {
                (0, 3)
            } else if moved.color == Color::Black && from == 60 && to == 62 {
                (63, 61)
            } else if moved.color == Color::Black && from == 60 && to == 58 {
                (56, 59)
            } else {
                (255, 255)
            };
            if rf != 255 {
                if let Some(rook) = self.piece_at(rf) {
                    self.set_piece(rf, None);
                    self.set_piece(rt, Some(rook));
                    rook_move = Some((rf, rt));
                }
            }
        }

        self.castling = castling_after(self.castling, moved, from, to, captured);

        if moved.kind == PieceKind::Pawn {
            let fr = rank_of(from);
            let tr = rank_of(to);
            if (moved.color == Color::White && fr == 1 && tr == 3) || (moved.color == Color::Black
                && fr == 6 && tr == 4) {
                let ep_rank = (fr + tr) / 2;
                let ep_file = file_of(from);
                self.en_passant = sq(ep_file, ep_rank);
            }
        }

        self.halfmove_clock = if reset_hmc {
            0
        } else {
            tick_exec(self.halfmove_clock)
        };

        if self.side_to_move == Color::Black {
            self.fullmove_number = tick_exec(self.fullmove_number);
        }
        self.side_to_move = self.side_to_move.other();

        Undo {
            captured,
            castling: prev_castling,
            en_passant: prev_ep,
            halfmove_clock: prev_hmc,
            fullmove_number: prev_fmn,
            moved_piece: moved,
            rook_move,
            ep_captured_sq,
        }
    }

    /// Take back `mv`, played with `make_move`, given the record it returned.
    pub fn unmake_move(&mut self, mv: Move, undo: Undo)
        requires
            old(self).wf(),
            undo.en_passant matches Some(e) ==> e < 64,
            undo.rook_move matches Some(rm) ==> rm.0 < 64 && rm.1 < 64,
            undo.ep_captured_sq matches Some(c) ==> c < 64,
        ensures
            final(self).wf(),
            final(self).side_to_move == old(self).side_to_move.opposite(),
            final(self).castling == undo.castling,
            final(self).en_passant == undo.en_passant,
            final(self).halfmove_clock == undo.halfmove_clock,
            final(self).fullmove_number == undo.fullmove_number,
            final(self).board@ == board_unmade(old(self).board@, mv, undo),
    {
        self.side_to_move = self.side_to_move.other();
        self.castling = undo.castling;
        self.en_passant = undo.en_passant;
        self.halfmove_clock = undo.halfmove_clock;
        self.fullmove_number = undo.fullmove_number;

        let from = mv.from();
        let to = mv.to();

        if let Some((rf, rt)) = undo.rook_move {
            let rook = self.piece_at(rt);
            self.set_piece(rt, None);
            self.set_piece(rf, rook);
        }

        let mut piece_on_to = self.piece_at(to);
        if undo.moved_piece.kind == PieceKind::Pawn {
            let r = rank_of(to);
            if (undo.moved_piece.color == Color::White && r == 7) || (undo.moved_piece.color
                == Color::Black && r == 0) {
                piece_on_to = Some(Piece { color: undo.moved_piece.color, kind: PieceKind::Pawn });
            }
        }

        self.set_piece(to, None);
        self.set_piece(from, piece_on_to);

        if mv.is_en_passant() {
            if let Some(cs) = undo.ep_captured_sq {
                self.set_piece(cs, undo.captured);
            }
        } else {
            self.set_piece(to, undo.captured);
        }
    }

    /// Hash of the position for repetition detection: pieces, side to
    /// move, castling rights and en-passant file, never the clocks.
    pub fn position_hash(&self) -> (r: u64)
        requires
            self.wf(),
        ensures
            r == hash_of(self.side_to_move, self.castling, self.en_passant, self.board@),
    {
        let mut h: u64 = 0xcbf29ce484222325u64;
        h = (h ^ if self.side_to_move == Color::White { 1u64 } else { 2u64 }).wrapping_mul(0x100000001b3u64);
        h = (h ^ if self.castling.wk { 3u64 } else { 5u64 }).wrapping_mul(0x100000001b3u64);
        h = (h ^ if self.castling.wq { 7u64 } else { 11u64 }).wrapping_mul(0x100000001b3u64);
        h = (h ^ if self.castling.bk { 13u64 } else { 17u64 }).wrapping_mul(0x100000001b3u64);
        h = (h ^ if self.castling.bq { 19u64 } else { 23u64 }).wrapping_mul(0x100000001b3u64);
        if let Some(ep) = self.en_passant {
            h = (h ^ (29u64 + (ep % 8) as u64)).wrapping_mul(0x100000001b3u64);
        }
        let ghost h5 = h;
        let mut i: usize = 0;
        while i < 64
            invariant
                i <= 64,
                self.board@.len() == 64,
                h == hash_squares(h5, self.board@, i as int),
            decreases 64 - i,
        {
            let v: u64 = match self.board[i] {
                Some(pc) => (i as u64) ^ ((pc.color.idx() as u64) << 6u64) ^ ((pc.kind.idx() as u64) << 3u64),
                None => i as u64,
            };
            h = (h ^ v).wrapping_mul(0x100000001b3u64);
            i = i + 1;
        }
        h
    }

    /// Whether neither side has the material to mate: no pawn, rook or
    /// queen, and at most one minor piece, or one bishop each on squares
    /// of the same color.
    pub fn is_insufficient_material(&self) -> (r: bool)
        requires
            self.wf(),
        ensures
            r == insufficient(self.board@),
    {
        let mut white_knights: u32 = 0;
        let mut white_bishops: u32 = 0;
        let mut white_bishop_on_light = false;
        let mut black_knights: u32 = 0;
        let mut black_bishops: u32 = 0;
        let mut black_bishop_on_light = false;
        let mut has_other_pieces = false;
        let ghost b = self.board@;
        let mut s: usize = 0;
        while s < 64
            invariant
                s <= 64,
                b == self.board@,
                b.len() == 64,
                white_knights as int == count_pieces(b, s as int, Color::White, PieceKind::Knight),
                black_knights as int == count_pieces(b, s as int, Color::Black, PieceKind::Knight),
                white_bishops as int == count_pieces(b, s as int, Color::White, PieceKind::Bishop),
                black_bishops as int == count_pieces(b, s as int, Color::Black, PieceKind::Bishop),
                white_bishop_on_light == light_bishop(b, s as int, Color::White),
                black_bishop_on_light == light_bishop(b, s as int, Color::Black),
                has_other_pieces == has_heavy(b, s as int),
            decreases 64 - s,
        {
            proof {
                lemma_count_bound(b, s as int, Color::White, PieceKind::Knight);
                lemma_count_bound(b, s as int, Color::Black, PieceKind::Knight);
                lemma_count_bound(b, s as int, Color::White, PieceKind::Bishop);
                lemma_count_bound(b, s as int, Color::Black, PieceKind::Bishop);
            }
            let ghost sq_i = s as int;
            if let Some(piece) = self.board[s] {
                match piece.kind {
                    PieceKind::King => {},
                    PieceKind::Knight => {
                        if piece.color == Color::White {
                            white_knights = white_knights + 1;
                        } else {
                            black_knights = black_knights + 1;
                        }
                    },
                    PieceKind::Bishop => {
                        let is_light_square = (s / 8 + s % 8) % 2 == 1;
                        if piece.color == Color::White {
                            white_bishops = white_bishops + 1;
                            if is_light_square {
                                white_bishop_on_light = true;
                            }
                        } else {
                            black_bishops = black_bishops + 1;
                            if is_light_square {
                                black_bishop_on_light = true;
                            }
                        }
                    },
                    _ => {
                        has_other_pieces = true;
                    },
                }
            }
            proof {
                assert(light_bishop(b, sq_i + 1, Color::White) == (light_bishop(b, sq_i, Color::White)
                    || (b[sq_i] == Some(Piece { color: Color::White, kind: PieceKind::Bishop }) && is_light(sq_i))));
                assert(light_bishop(b, sq_i + 1, Color::Black) == (light_bishop(b, sq_i, Color::Black)
                    || (b[sq_i] == Some(Piece { color: Color::Black, kind: PieceKind::Bishop }) && is_light(sq_i))));
                assert(has_heavy(b, sq_i + 1) == (has_heavy(b, sq_i) || (b[sq_i] is Some && (b[sq_i]->0.kind == PieceKind::Pawn
                    || b[sq_i]->0.kind == PieceKind::Rook || b[sq_i]->0.kind == PieceKind::Queen))));
            }
            s = s + 1;
        }
        proof {
            lemma_count_bound(b, 64, Color::White, PieceKind::Knight);
            lemma_count_bound(b, 64, Color::Black, PieceKind::Knight);
            lemma_count_bound(b, 64, Color::White, PieceKind::Bishop);
            lemma_count_bound(b, 64, Color::Black, PieceKind::Bishop);
        }
        if has_other_pieces {
            return false;
        }
        let total_knights = white_knights + black_knights;
        let total_bishops = white_bishops + black_bishops;
        if total_knights == 0 && total_bishops == 0 {
            return true;
        }
        if total_knights + total_bishops == 1 {
            return true;
        }
        if total_knights == 0 && white_bishops == 1 && black_bishops == 1
            && white_bishop_on_light == black_bishop_on_light {
            return true;
        }
        false
    }
}


/// Whether playing `mv` on board `b` and taking it back restores `b`: the
/// source square holds a piece and differs from the target, an en-passant
/// capture lands on an empty square and takes a pawn from a square other
/// than the source, and a castle's rook lands on an empty square.
pub open spec fn reversible(b: Seq<Option<Piece>>, mv: Move) -> bool {
    let from = mv.from_spec();
    let to = mv.to_spec();
    let moved = b[from]->0;
    &&& b[from] is Some
    &&& from != to
    &&& (mv.is_ep_spec() ==> b[to] is None && ep_victim(mv, moved) != Some(from))
    &&& (castle_rook(moved, mv) matches Some((rf, rt)) ==> b[rt] is None)
}

/// Mailbox and bitboards agree: a square is in the set of side `c` and
/// kind `k` exactly when the mailbox holds that piece there, and then in
/// no other kind's set.
pub proof fn lemma_mailbox_bitboards(p: Position, s: int, c: int, k: int)
    requires
        p.wf(),
        0 <= s < 64,
        0 <= c < 2,
        0 <= k < 6,
    ensures
        p.bitboards.kind_set(c, k).has(s) <==> p.at(s) == Some(
            Piece { color: color_of(c), kind: PieceKind::of_index(k) },
        ),
        p.bitboards.kind_set(c, k).has(s) ==> forall|c2: int, k2: int|
            0 <= c2 < 2 && 0 <= k2 < 6 && (c2 != c || k2 != k) ==> !#[trigger] p.bitboards.kind_set(
                c2,
                k2,
            ).has(s),
{
    if p.bitboards.kind_set(c, k).has(s) {
        assert forall|c2: int, k2: int|
            0 <= c2 < 2 && 0 <= k2 < 6 && (c2 != c || k2 != k) implies !#[trigger] p.bitboards.kind_set(
            c2,
            k2,
        ).has(s) by {
            lemma_index_facts();
            if p.bitboards.kind_set(c2, k2).has(s) {
                assert(color_of(c2).index() == c2);
                assert(PieceKind::of_index(k2).index() == k2);
            }
        }
    }
}

/// Two coherent positions with the same mailbox have the same bitboards,
/// word for word.
pub proof fn lemma_same_board_same_bitboards(p: Position, q: Position)
    requires
        p.wf(),
        q.wf(),
        p.board@ == q.board@,
    ensures
        forall|c: int, k: int|
            0 <= c < 2 && 0 <= k < 6 ==> #[trigger] p.bitboards.kind_set(c, k) == q.bitboards.kind_set(
                c,
                k,
            ),
        forall|c: int| 0 <= c < 2 ==> #[trigger] p.bitboards.side_set(c) == q.bitboards.side_set(c),
{
    assert forall|c: int, k: int| 0 <= c < 2 && 0 <= k < 6 implies #[trigger] p.bitboards.kind_set(
        c,
        k,
    ) == q.bitboards.kind_set(c, k) by {
        assert forall|i: int| 0 <= i < 64 implies bit(p.bitboards.kind_set(c, k).0, i) == bit(
            q.bitboards.kind_set(c, k).0,
            i,
        ) by {
            assert(p.bitboards.kind_set(c, k).has(i) == q.bitboards.kind_set(c, k).has(i));
        }
        crate::bitboard::lemma_bits_ext(p.bitboards.kind_set(c, k).0, q.bitboards.kind_set(c, k).0);
    }
    assert forall|c: int| 0 <= c < 2 implies #[trigger] p.bitboards.side_set(c)
        == q.bitboards.side_set(c) by {
        assert forall|i: int| 0 <= i < 64 implies bit(p.bitboards.side_set(c).0, i) == bit(
            q.bitboards.side_set(c).0,
            i,
        ) by {
            assert(p.bitboards.side_set(c).has(i) == q.bitboards.side_set(c).has(i));
        }
        crate::bitboard::lemma_bits_ext(p.bitboards.side_set(c).0, q.bitboards.side_set(c).0);
    }
}

/// Make then unmake is the identity: taking back a reversible move with
/// the record that playing it returned restores the mailbox, the side to
/// move, the castling rights, the en-passant target and both clocks, and
/// a coherent position with that mailbox has the prior bitboards word for
/// word.
pub proof fn lemma_make_unmake(p: Position, mv: Move, q: Position)
    requires
        p.wf(),
        reversible(p.board@, mv),
        q.wf(),
        q.board@ == board_unmade(board_after(p.board@, mv), mv, undo_of(p, mv)),
    ensures
        q.board@ == p.board@,
        undo_of(p, mv).castling == p.castling,
        undo_of(p, mv).en_passant == p.en_passant,
        undo_of(p, mv).halfmove_clock == p.halfmove_clock,
        undo_of(p, mv).fullmove_number == p.fullmove_number,
        p.side_to_move.opposite().opposite() == p.side_to_move,
        forall|c: int, k: int|
            0 <= c < 2 && 0 <= k < 6 ==> #[trigger] q.bitboards.kind_set(c, k) == p.bitboards.kind_set(
                c,
                k,
            ),
        forall|c: int| 0 <= c < 2 ==> #[trigger] q.bitboards.side_set(c) == p.bitboards.side_set(c),
{
    let b = p.board@;
    let u = undo_of(p, mv);
    let r = board_unmade(board_after(b, mv), mv, u);
    assert(r =~= b);
    lemma_same_board_same_bitboards(p, q);
}


impl Default for PieceBitboards {
    /// Bitboards with no piece at all.
    fn default() -> (r: PieceBitboards)
        ensures
            r.all_empty(),
    {
        PieceBitboards::new_empty()
    }
}


/// Whether `q` is what `make_move` leaves after `mv` on `p`: coherent, with
/// the board, side, rights, en-passant target and clocks that it states.
pub open spec fn after_move(p: Position, mv: Move, q: Position) -> bool {
    let moved = p.at(mv.from_spec())->0;
    &&& q.wf()
    &&& q.board@ == board_after(p.board@, mv)
    &&& q.side_to_move == p.side_to_move.opposite()
    &&& q.castling == castling_after_spec(
        p.castling,
        moved,
        mv.from_spec(),
        mv.to_spec(),
        captured_by(p.board@, mv),
    )
    &&& q.en_passant == ep_target_after(moved, mv.from_spec(), mv.to_spec())
    &&& q.halfmove_clock == if resets_clock(p.board@, mv) {
        0
    } else {
        tick(p.halfmove_clock)
    }
    &&& q.fullmove_number == if p.side_to_move == Color::Black {
        tick(p.fullmove_number)
    } else {
        p.fullmove_number
    }
}

/// The position after `mv` on `p`.
pub open spec fn made(p: Position, mv: Move) -> Position {
    choose|q: Position| after_move(p, mv, q)
}

/// The position `make_move` leaves is `made`: all positions it may be
/// are the same, field for field.
pub proof fn lemma_made(p: Position, mv: Move, q: Position)
    requires
        after_move(p, mv, q),
    ensures
        q == made(p, mv),
{
    let w = made(p, mv);
    assert(after_move(p, mv, w));
    lemma_same_board_same_bitboards(q, w);
    assert forall|c: int| 0 <= c < 2 implies q.bitboards.by_color@[c] == w.bitboards.by_color@[c] by {
        assert(q.bitboards.side_set(c) == w.bitboards.side_set(c));
    }
    assert(q.bitboards.by_color@ =~= w.bitboards.by_color@);
    assert forall|c: int| 0 <= c < 2 implies q.bitboards.by_piece@[c] == w.bitboards.by_piece@[c] by {
        assert forall|k: int| 0 <= k < 6 implies q.bitboards.by_piece@[c]@[k] == w.bitboards.by_piece@[c]@[k] by {
            assert(q.bitboards.kind_set(c, k) == w.bitboards.kind_set(c, k));
        }
        assert(q.bitboards.by_piece@[c]@ =~= w.bitboards.by_piece@[c]@);
        assert(q.bitboards.by_piece@[c] =~= w.bitboards.by_piece@[c]);
    }
    assert(q.bitboards.by_piece@ =~= w.bitboards.by_piece@);
    assert(q.bitboards.by_color =~= w.bitboards.by_color);
    assert(q.bitboards.by_piece =~= w.bitboards.by_piece);
    assert(q.board =~= w.board);
}


/// Positions equal in pieces, side to move, castling rights and
/// en-passant file hash alike, whatever their clocks.
pub proof fn lemma_hash_identity(p: Position, q: Position)
    requires
        p.board@ == q.board@,
        p.side_to_move == q.side_to_move,
        p.castling == q.castling,
        p.en_passant is Some == q.en_passant is Some,
        p.en_passant matches Some(e) ==> e % 8 == q.en_passant->0 % 8,
    ensures
        hash_of(p.side_to_move, p.castling, p.en_passant, p.board@) == hash_of(
            q.side_to_move,
            q.castling,
            q.en_passant,
            q.board@,
        ),
{
}

} // verus!
