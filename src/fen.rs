//! Reading positions from Forsyth-Edwards records.
use vstd::prelude::*;
use vstd::string::StringSliceAdditionalSpecFns;
use crate::board::{CastlingRights, Position};
use crate::types::{coord_of, Color, Piece, PieceKind};

verus! {

/// Value of a run of decimal digits, most significant first.
pub open spec fn digits_value(d: Seq<u8>) -> int
    decreases d.len(),
{
    if d.len() == 0 {
        0
    } else {
        digits_value(d.drop_last()) * 10 + (d.last() - 48)
    }
}

/// Whether every byte of `d` is a decimal digit.
pub open spec fn all_digits(d: Seq<u8>) -> bool {
    forall|i: int| 0 <= i < d.len() ==> 48 <= #[trigger] d[i] <= 57
}

/// The number written in `b[s..e]`, if it is a non-empty run of digits
/// whose value fits in 32 bits.
pub fn parse_u32(b: &[u8], s: usize, e: usize) -> (r: Option<u32>)
    requires
        s <= e <= b@.len(),
    ensures
        r matches Some(v) ==> s < e && all_digits(b@.subrange(s as int, e as int)) && v
            == digits_value(b@.subrange(s as int, e as int)),
        (s < e && all_digits(b@.subrange(s as int, e as int)) && digits_value(
            b@.subrange(s as int, e as int),
        ) <= u32::MAX) ==> r is Some,
{
    if s == e {
        return None;
    }
    let mut v: u64 = 0;
    let mut i = s;
    while i < e
        invariant
            s <= i <= e <= b@.len(),
            all_digits(b@.subrange(s as int, i as int)),
            v == digits_value(b@.subrange(s as int, i as int)),
            v <= u32::MAX,
        decreases e - i,
    {
        let c = b[i];
        let ghost prev = b@.subrange(s as int, i as int);
        let ghost next = b@.subrange(s as int, i + 1);
        assert(next.drop_last() =~= prev);
        if c < 48 || c > 57 {
            proof {
                assert(b@.subrange(s as int, e as int)[i - s] == c);
            }
            return None;
        }
        let nv = v * 10 + (c - 48) as u64;
        if nv > 0xFFFF_FFFFu64 {
            proof {
                if all_digits(b@.subrange(s as int, e as int)) {
                    lemma_digits_grow(b@.subrange(s as int, e as int), (i + 1 - s) as int);
                    assert(b@.subrange(s as int, e as int).subrange(0, (i + 1 - s) as int) =~= next);
                }
            }
            return None;
        }
        v = nv;
        i = i + 1;
        proof {
            assert forall|j: int| 0 <= j < next.len() implies 48 <= #[trigger] next[j] <= 57 by {
                if j < prev.len() {
                    assert(next[j] == prev[j]);
                }
            }
        }
    }
    Some(v as u32)
}

proof fn lemma_digits_grow(d: Seq<u8>, n: int)
    requires
        0 <= n <= d.len(),
        all_digits(d),
    ensures
        digits_value(d.subrange(0, n)) <= digits_value(d),
    decreases d.len(),
{
    if n < d.len() {
        let dl = d.drop_last();
        assert forall|i: int| 0 <= i < dl.len() implies 48 <= #[trigger] dl[i] <= 57 by {
            assert(dl[i] == d[i]);
        }
        lemma_digits_grow(dl, n);
        assert(dl.subrange(0, n) =~= d.subrange(0, n));
        lemma_digits_nonneg(dl);
    } else {
        assert(d.subrange(0, n) =~= d);
    }
}

proof fn lemma_digits_nonneg(d: Seq<u8>)
    requires
        all_digits(d),
    ensures
        digits_value(d) >= 0,
    decreases d.len(),
{
    if d.len() > 0 {
        let dl = d.drop_last();
        assert forall|i: int| 0 <= i < dl.len() implies 48 <= #[trigger] dl[i] <= 57 by {
            assert(dl[i] == d[i]);
        }
        lemma_digits_nonneg(dl);
    }
}

/// Whether a byte is ASCII white space: space, tab, line feed, vertical
/// tab, form feed or carriage return.
pub open spec fn is_space(c: u8) -> bool {
    c == 32 || (9 <= c <= 13)
}

/// First index at or after `i` that is not white space.
pub open spec fn skip_spaces(b: Seq<u8>, i: int) -> int
    decreases b.len() - i,
{
    if 0 <= i < b.len() && is_space(b[i]) {
        skip_spaces(b, i + 1)
    } else {
        i
    }
}

/// First index at or after `i` that is white space or the end.
pub open spec fn word_end(b: Seq<u8>, i: int) -> int
    decreases b.len() - i,
{
    if 0 <= i < b.len() && !is_space(b[i]) {
        word_end(b, i + 1)
    } else {
        i
    }
}

proof fn lemma_skip_bounds(b: Seq<u8>, i: int)
    requires
        0 <= i <= b.len(),
    ensures
        i <= skip_spaces(b, i) <= b.len(),
        i <= word_end(b, i) <= b.len(),
    decreases b.len() - i,
{
    if i < b.len() {
        lemma_skip_bounds(b, i + 1);
    }
}

/// Start and end of the next field of `b` at or after `from`: fields are
/// separated by white space.
fn next_field(b: &[u8], from: usize) -> (r: (usize, usize))
    requires
        from <= b@.len(),
    ensures
        r.0 == skip_spaces(b@, from as int),
        r.1 == word_end(b@, r.0 as int),
        from <= r.0 <= r.1 <= b@.len(),
{
    let mut s = from;
    while s < b.len() && (b[s] == 32u8 || (9u8 <= b[s] && b[s] <= 13u8))
        invariant
            from <= s <= b@.len(),
            skip_spaces(b@, s as int) == skip_spaces(b@, from as int),
        decreases b@.len() - s,
    {
        s = s + 1;
    }
    let mut e = s;
    while e < b.len() && !(b[e] == 32u8 || (9u8 <= b[e] && b[e] <= 13u8))
        invariant
            s <= e <= b@.len(),
            word_end(b@, e as int) == word_end(b@, s as int),
        decreases b@.len() - e,
    {
        e = e + 1;
    }
    (s, e)
}

/// The piece named by a letter of a record's placement field.
pub open spec fn piece_of_letter(c: u8) -> Option<Piece> {
    let color = if 65 <= c <= 90 {
        Color::White
    } else {
        Color::Black
    };
    let lower = if 65 <= c <= 90 {
        c + 32
    } else {
        c as int
    };
    if lower == 112 {
        Some(Piece { color, kind: PieceKind::Pawn })
    } else if lower == 110 {
        Some(Piece { color, kind: PieceKind::Knight })
    } else if lower == 98 {
        Some(Piece { color, kind: PieceKind::Bishop })
    } else if lower == 114 {
        Some(Piece { color, kind: PieceKind::Rook })
    } else if lower == 113 {
        Some(Piece { color, kind: PieceKind::Queen })
    } else if lower == 107 {
        Some(Piece { color, kind: PieceKind::King })
    } else {
        None
    }
}

/// The piece named by a letter: PNBRQK for White, pnbrqk for Black.
pub fn piece_from_letter(c: u8) -> (r: Option<Piece>)
    ensures
        r == piece_of_letter(c),
{
    let white = 65u8 <= c && c <= 90u8;
    let color = if white {
        Color::White
    } else {
        Color::Black
    };
    let lower: u8 = if white {
        c + 32
    } else {
        c
    };
    let kind = if lower == 112u8 {
        PieceKind::Pawn
    } else if lower == 110u8 {
        PieceKind::Knight
    } else if lower == 98u8 {
        PieceKind::Bishop
    } else if lower == 114u8 {
        PieceKind::Rook
    } else if lower == 113u8 {
        PieceKind::Queen
    } else if lower == 107u8 {
        PieceKind::King
    } else {
        return None;
    };
    Some(Piece { color, kind })
}

/// The board a placement field `b[i..e]` describes, read from rank
/// `rank` and file `file` on `board`: ranks from 8 down to 1 separated by
/// '/', digits 1-8 for empty squares, letters for pieces, eight files to a
/// rank.
pub open spec fn place(
    b: Seq<u8>,
    i: int,
    e: int,
    rank: int,
    file: int,
    board: Seq<Option<Piece>>,
) -> Option<Seq<Option<Piece>>>
    decreases e - i,
{
    if i >= e {
        if rank == 0 && file == 8 {
            Some(board)
        } else {
            None
        }
    } else {
        let c = b[i];
        if c == 47 {
            if file != 8 || rank == 0 {
                None
            } else {
                place(b, i + 1, e, rank - 1, 0, board)
            }
        } else if 49 <= c <= 56 {
            if file + (c - 48) > 8 {
                None
            } else {
                place(b, i + 1, e, rank, file + (c - 48), board)
            }
        } else {
            match piece_of_letter(c) {
                Some(pc) => if file >= 8 {
                    None
                } else {
                    place(b, i + 1, e, rank, file + 1, board.update(rank * 8 + file, Some(pc)))
                },
                None => None,
            }
        }
    }
}

/// A board with no piece.
pub open spec fn no_pieces() -> Seq<Option<Piece>> {
    Seq::new(64, |i: int| None::<Piece>)
}

/// The side a field names: "w" or "b".
pub open spec fn side_of(b: Seq<u8>, s: int, e: int) -> Option<Color> {
    if e - s == 1 && b[s] == 119 {
        Some(Color::White)
    } else if e - s == 1 && b[s] == 98 {
        Some(Color::Black)
    } else {
        None
    }
}

/// The rights letters `b[i..e]` add to `c`; `None` on any other letter.
pub open spec fn castle_fold(b: Seq<u8>, i: int, e: int, c: CastlingRights) -> Option<
    CastlingRights,
>
    decreases e - i,
{
    if i >= e {
        Some(c)
    } else if b[i] == 75 {
        castle_fold(b, i + 1, e, CastlingRights { wk: true, ..c })
    } else if b[i] == 81 {
        castle_fold(b, i + 1, e, CastlingRights { wq: true, ..c })
    } else if b[i] == 107 {
        castle_fold(b, i + 1, e, CastlingRights { bk: true, ..c })
    } else if b[i] == 113 {
        castle_fold(b, i + 1, e, CastlingRights { bq: true, ..c })
    } else {
        None
    }
}

/// No castling right.
pub open spec fn no_rights() -> CastlingRights {
    CastlingRights { wk: false, wq: false, bk: false, bq: false }
}

/// The rights a castling field names: "-" or letters among KQkq.
pub open spec fn castling_of(b: Seq<u8>, s: int, e: int) -> Option<CastlingRights> {
    if s == e {
        None
    } else if e - s == 1 && b[s] == 45 {
        Some(no_rights())
    } else {
        castle_fold(b, s, e, no_rights())
    }
}

/// The en-passant target an en-passant field names: "-" for none, or a
/// square.
pub open spec fn ep_of(b: Seq<u8>, s: int, e: int) -> Option<Option<u8>> {
    if e - s == 1 && b[s] == 45 {
        Some(None)
    } else if e - s == 2 {
        match coord_of(b[s], b[s + 1]) {
            Some(q) => Some(Some(q)),
            None => None,
        }
    } else {
        None
    }
}

/// The clock a field names, `dflt` when the field is absent.
pub open spec fn clock_of(b: Seq<u8>, s: int, e: int, dflt: u32) -> Option<u32> {
    if s == e {
        Some(dflt)
    } else if all_digits(b.subrange(s, e)) && digits_value(b.subrange(s, e)) <= u32::MAX {
        Some(digits_value(b.subrange(s, e)) as u32)
    } else {
        None
    }
}

/// What a record describes: board, side to move, castling rights,
/// en-passant target, halfmove clock and fullmove number; `None` when it
/// is malformed.
pub open spec fn fen_record(b: Seq<u8>) -> Option<
    (Seq<Option<Piece>>, Color, CastlingRights, Option<u8>, u32, u32),
> {
    let s0 = skip_spaces(b, 0);
    let e0 = word_end(b, s0);
    let s1 = skip_spaces(b, e0);
    let e1 = word_end(b, s1);
    let s2 = skip_spaces(b, e1);
    let e2 = word_end(b, s2);
    let s3 = skip_spaces(b, e2);
    let e3 = word_end(b, s3);
    let s4 = skip_spaces(b, e3);
    let e4 = word_end(b, s4);
    let s5 = skip_spaces(b, e4);
    let e5 = word_end(b, s5);
    match (
        place(b, s0, e0, 7, 0, no_pieces()),
        side_of(b, s1, e1),
        castling_of(b, s2, e2),
        ep_of(b, s3, e3),
        clock_of(b, s4, e4, 0),
        clock_of(b, s5, e5, 1),
    ) {
        (Some(bd), Some(sd), Some(cr), Some(ep), Some(h), Some(f)) => if f >= 1 {
            Some((bd, sd, cr, ep, h, f))
        } else {
            None
        },
        _ => None,
    }
}

impl Position {
    /// Read a position from a Forsyth-Edwards record: placement, side to
    /// move, castling, en-passant target, then the optional halfmove clock
    /// (0 when absent) and fullmove number (1 when absent, positive when
    /// given). A malformed record is the caller's error: rather than
    /// stopping the program, the reader reports it as `None`, and does so
    /// exactly for the records `fen_record` rejects.
    pub fn from_fen(fen: &str) -> (r: Option<Position>)
        ensures
            r is Some <==> fen_record(fen.spec_bytes()) is Some,
            r matches Some(p) ==> p.wf() && fen_record(fen.spec_bytes()) == Some(
                (
                    p.board@,
                    p.side_to_move,
                    p.castling,
                    p.en_passant,
                    p.halfmove_clock,
                    p.fullmove_number,
                ),
            ),
    {
        let b = fen.as_bytes();
        let ghost bs = b@;
        let (s0, e0) = next_field(b, 0);
        let mut p = match read_placement(b, s0, e0) {
            Some(q) => q,
            None => {
                return None;
            },
        };
        let (s1, e1) = next_field(b, e0);
        let side = if e1 - s1 == 1 && b[s1] == 119u8 {
            Color::White
        } else if e1 - s1 == 1 && b[s1] == 98u8 {
            Color::Black
        } else {
            return None;
        };
        let (s2, e2) = next_field(b, e1);
        let castling = match read_castling(b, s2, e2) {
            Some(c) => c,
            None => {
                return None;
            },
        };
        let (s3, e3) = next_field(b, e2);
        let ep: Option<u8> = if e3 - s3 == 1 && b[s3] == 45u8 {
            None
        } else if e3 - s3 == 2 {
            let f = b[s3];
            let r = b[s3 + 1];
            if !(97u8 <= f && f <= 104u8) || !(49u8 <= r && r <= 56u8) {
                return None;
            }
            Some((r - 49u8) * 8 + (f - 97u8))
        } else {
            return None;
        };
        let (s4, e4) = next_field(b, e3);
        let halfmove = match read_clock(b, s4, e4, 0) {
            Some(v) => v,
            None => {
                return None;
            },
        };
        let (s5, e5) = next_field(b, e4);
        let fullmove = match read_clock(b, s5, e5, 1) {
            Some(v) => v,
            None => {
                return None;
            },
        };
        if fullmove == 0 {
            return None;
        }
        p.side_to_move = side;
        p.castling = castling;
        p.en_passant = ep;
        p.halfmove_clock = halfmove;
        p.fullmove_number = fullmove;
        Some(p)
    }
}

/// A coherent position holding the board that the placement field
/// `b[s..e]` describes, or `None` when the field is malformed.
fn read_placement(b: &[u8], s: usize, e: usize) -> (r: Option<Position>)
    requires
        s <= e <= b@.len(),
    ensures
        r is Some <==> place(b@, s as int, e as int, 7, 0, no_pieces()) is Some,
        r matches Some(p) ==> p.wf() && place(b@, s as int, e as int, 7, 0, no_pieces()) == Some(p.board@),
{
    let mut p = Position::empty_board();
    assert forall|k: int| 0 <= k < 64 implies p.board@[k] == None::<Piece> by {
        assert(p.at(k) is None);
    }
    assert(p.board@ =~= no_pieces());
    let ghost target = place(b@, s as int, e as int, 7, 0, no_pieces());
    let mut rank: i8 = 7;
    let mut file: i8 = 0;
    let mut i = s;
    while i < e
        invariant
            s <= i <= e <= b@.len(),
            p.wf(),
            0 <= rank <= 7,
            0 <= file <= 8,
            place(b@, i as int, e as int, rank as int, file as int, p.board@) == target,
            target == place(b@, s as int, e as int, 7, 0, no_pieces()),
        decreases e - i,
    {
        let c = b[i];
        let ghost cur = place(b@, i as int, e as int, rank as int, file as int, p.board@);
        assert(c == b@[i as int]);
        if c == 47u8 {
            if file != 8 || rank == 0 {
                assert(cur is None);
                return None;
            }
            rank = rank - 1;
            file = 0;
        } else if 49u8 <= c && c <= 56u8 {
            let d = (c - 48u8) as i8;
            if file + d > 8 {
                assert(cur is None);
                return None;
            }
            file = file + d;
        } else {
            match piece_from_letter(c) {
                Some(pc) => {
                    if file >= 8 {
                        assert(cur is None);
                        return None;
                    }
                    let sqr: u8 = (rank as u8) * 8 + (file as u8);
                    p.set_piece(sqr, Some(pc));
                    file = file + 1;
                },
                None => {
                    assert(cur is None);
                    return None;
                },
            }
        }
        i = i + 1;
    }
    if rank != 0 || file != 8 {
        assert(place(b@, i as int, e as int, rank as int, file as int, p.board@) is None);
        return None;
    }
    Some(p)
}

/// The rights a castling field `b[s..e]` names.
fn read_castling(b: &[u8], s: usize, e: usize) -> (r: Option<CastlingRights>)
    requires
        s <= e <= b@.len(),
    ensures
        r == castling_of(b@, s as int, e as int),
{
    if s == e {
        return None;
    }
    let mut rights = CastlingRights { wk: false, wq: false, bk: false, bq: false };
    if e - s == 1 && b[s] == 45u8 {
        return Some(rights);
    }
    let mut j = s;
    while j < e
        invariant
            s <= j <= e <= b@.len(),
            castle_fold(b@, j as int, e as int, rights) == castle_fold(b@, s as int, e as int, no_rights()),
            castling_of(b@, s as int, e as int) == castle_fold(b@, s as int, e as int, no_rights()),
        decreases e - j,
    {
        let c = b[j];
        assert(c == b@[j as int]);
        if c == 75u8 {
            rights.wk = true;
        } else if c == 81u8 {
            rights.wq = true;
        } else if c == 107u8 {
            rights.bk = true;
        } else if c == 113u8 {
            rights.bq = true;
        } else {
            assert(castle_fold(b@, j as int, e as int, rights) is None);
            return None;
        }
        j = j + 1;
    }
    Some(rights)
}

/// The clock a field `b[s..e]` names, `dflt` when it is absent.
fn read_clock(b: &[u8], s: usize, e: usize, dflt: u32) -> (r: Option<u32>)
    requires
        s <= e <= b@.len(),
    ensures
        r == clock_of(b@, s as int, e as int, dflt),
{
    if s == e {
        return Some(dflt);
    }
    parse_u32(b, s, e)
}

} // verus!
