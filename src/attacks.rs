//! Attack sets: fixed patterns for pawns, knights and kings, and sliding
//! attacks for bishops, rooks and queens that stop at the first occupied
//! square of each direction.
use vstd::prelude::*;
use crate::bitboard::{bit, Bitboard, NOT_FILE_A, NOT_FILE_AB, NOT_FILE_GH, NOT_FILE_H};

verus! {

/// Knight jumps from every square of `b`, without wrapping across the board edge.
pub open spec fn knight_bits(b: u64) -> u64 {
    ((b << 17u64) & NOT_FILE_A) | ((b << 15u64) & NOT_FILE_H) | ((b << 10u64) & NOT_FILE_AB) | ((
    b << 6u64) & NOT_FILE_GH) | ((b >> 6u64) & NOT_FILE_AB) | ((b >> 10u64) & NOT_FILE_GH) | ((b
        >> 15u64) & NOT_FILE_A) | ((b >> 17u64) & NOT_FILE_H)
}

/// King steps from every square of `b`, without wrapping across the board edge.
pub open spec fn king_bits(b: u64) -> u64 {
    (b << 8u64) | (b >> 8u64) | ((b << 1u64) & NOT_FILE_A) | ((b >> 1u64) & NOT_FILE_H) | ((b
        << 9u64) & NOT_FILE_A) | ((b << 7u64) & NOT_FILE_H) | ((b >> 7u64) & NOT_FILE_A) | ((b
        >> 9u64) & NOT_FILE_H)
}

/// Pawn captures from every square of `b`: toward rank 8 for White, toward
/// rank 1 for Black.
pub open spec fn pawn_bits(b: u64, is_white: bool) -> u64 {
    if is_white {
        ((b << 9u64) & NOT_FILE_A) | ((b << 7u64) & NOT_FILE_H)
    } else {
        ((b >> 7u64) & NOT_FILE_A) | ((b >> 9u64) & NOT_FILE_H)
    }
}

/// Squares attacked by a pawn of the given side standing on `sq`.
pub fn pawn_attacks(sq: u8, is_white: bool) -> (r: Bitboard)
    requires
        sq < 64,
    ensures
        r.0 == pawn_bits(1u64 << sq, is_white),
{
    let b = 1u64 << sq;
    if is_white {
        Bitboard(((b << 9u64) & NOT_FILE_A) | ((b << 7u64) & NOT_FILE_H))
    } else {
        Bitboard(((b >> 7u64) & NOT_FILE_A) | ((b >> 9u64) & NOT_FILE_H))
    }
}

/// Squares attacked by a knight standing on `sq`.
pub fn knight_attacks(sq: u8) -> (r: Bitboard)
    requires
        sq < 64,
    ensures
        r.0 == knight_bits(1u64 << sq),
{
    let b = 1u64 << sq;
    Bitboard(
        ((b << 17u64) & NOT_FILE_A) | ((b << 15u64) & NOT_FILE_H) | ((b << 10u64) & NOT_FILE_AB)
            | ((b << 6u64) & NOT_FILE_GH) | ((b >> 6u64) & NOT_FILE_AB) | ((b >> 10u64)
            & NOT_FILE_GH) | ((b >> 15u64) & NOT_FILE_A) | ((b >> 17u64) & NOT_FILE_H),
    )
}

/// Squares attacked by a king standing on `sq`.
pub fn king_attacks(sq: u8) -> (r: Bitboard)
    requires
        sq < 64,
    ensures
        r.0 == king_bits(1u64 << sq),
{
    let b = 1u64 << sq;
    Bitboard(
        (b << 8u64) | (b >> 8u64) | ((b << 1u64) & NOT_FILE_A) | ((b >> 1u64) & NOT_FILE_H) | ((b
            << 9u64) & NOT_FILE_A) | ((b << 7u64) & NOT_FILE_H) | ((b >> 7u64) & NOT_FILE_A) | ((
        b >> 9u64) & NOT_FILE_H),
    )
}

/// Whether (df, dr) is one of the eight unit steps of a king.
pub open spec fn is_step(df: int, dr: int) -> bool {
    -1 <= df <= 1 && -1 <= dr <= 1 && !(df == 0 && dr == 0)
}

/// How many more steps (df, dr) can be taken from (f, r) along the limiting axis.
pub open spec fn room(f: int, r: int, df: int, dr: int) -> int {
    if df == 1 {
        7 - f
    } else if df == -1 {
        f
    } else if dr == 1 {
        7 - r
    } else {
        r
    }
}

/// The squares a slider on file `f`, rank `r` reaches moving by (df, dr):
/// every square up to and including the first occupied one of `occ`, or up
/// to the board edge when none is occupied.
pub open spec fn slide(f: int, r: int, df: int, dr: int, occ: u64) -> Set<int>
    decreases room(f, r, df, dr),
{
    let nf = f + df;
    let nr = r + dr;
    if !is_step(df, dr) || !(0 <= f < 8 && 0 <= r < 8) || !(0 <= nf < 8 && 0 <= nr < 8) {
        Set::empty()
    } else if bit(occ, nr * 8 + nf) {
        set![nr * 8 + nf]
    } else {
        slide(nf, nr, df, dr, occ).insert(nr * 8 + nf)
    }
}

/// Whether square `i` lies strictly ahead of file `f`, rank `r` in the
/// direction (df, dr), along its limiting axis.
pub open spec fn ahead(i: int, f: int, r: int, df: int, dr: int) -> bool {
    if df == 1 {
        i % 8 > f
    } else if df == -1 {
        i % 8 < f
    } else if dr == 1 {
        i / 8 > r
    } else {
        i / 8 < r
    }
}

/// Every square a slider reaches lies strictly ahead of its start.
pub proof fn lemma_slide_ahead(f: int, r: int, df: int, dr: int, occ: u64)
    ensures
        forall|i: int| #[trigger] slide(f, r, df, dr, occ).contains(i) ==> 0 <= i < 64 && ahead(i, f, r, df, dr),
    decreases room(f, r, df, dr),
{
    let nf = f + df;
    let nr = r + dr;
    if is_step(df, dr) && 0 <= f < 8 && 0 <= r < 8 && 0 <= nf < 8 && 0 <= nr < 8 {
        let sq = nr * 8 + nf;
        assert(sq % 8 == nf && sq / 8 == nr);
        assert(ahead(sq, f, r, df, dr));
        if !bit(occ, sq) {
            lemma_slide_ahead(nf, nr, df, dr, occ);
            assert(slide(f, r, df, dr, occ) == slide(nf, nr, df, dr, occ).insert(sq));
            assert forall|i: int| #[trigger] slide(f, r, df, dr, occ).contains(i) implies 0 <= i < 64
                && ahead(i, f, r, df, dr) by {
                if i != sq {
                    assert(slide(nf, nr, df, dr, occ).contains(i));
                    assert(ahead(i, nf, nr, df, dr));
                }
            }
        } else {
            assert(slide(f, r, df, dr, occ) == set![sq]);
        }
    } else {
        assert(slide(f, r, df, dr, occ) == Set::<int>::empty());
    }
}

/// A knight or king never reaches its own square.
pub proof fn lemma_leaper_not_self(s: u64)
    requires
        s < 64,
    ensures
        !bit(knight_bits(1u64 << s), s as int),
        !bit(king_bits(1u64 << s), s as int),
{
    assert(((knight_bits(1u64 << s)) >> s) & 1u64 != 1u64) by (bit_vector)
        requires
            s < 64,
    ;
    assert(((king_bits(1u64 << s)) >> s) & 1u64 != 1u64) by (bit_vector)
        requires
            s < 64,
    ;
}

/// A king on its original square does not reach the castling targets two
/// files away.
pub proof fn lemma_king_no_castle_step()
    ensures
        !bit(king_bits(1u64 << 4u64), 6),
        !bit(king_bits(1u64 << 4u64), 2),
        !bit(king_bits(1u64 << 60u64), 62),
        !bit(king_bits(1u64 << 60u64), 58),
{
    assert(((king_bits(1u64 << 4u64)) >> 6u64) & 1u64 != 1u64) by (bit_vector);
    assert(((king_bits(1u64 << 4u64)) >> 2u64) & 1u64 != 1u64) by (bit_vector);
    assert(((king_bits(1u64 << 60u64)) >> 62u64) & 1u64 != 1u64) by (bit_vector);
    assert(((king_bits(1u64 << 60u64)) >> 58u64) & 1u64 != 1u64) by (bit_vector);
}

/// Squares a bishop on `sq` attacks given the occupied squares `occ`.
pub open spec fn bishop_set(sq: int, occ: u64) -> Set<int> {
    let f = sq % 8;
    let r = sq / 8;
    slide(f, r, 1, 1, occ) + slide(f, r, -1, 1, occ) + slide(f, r, 1, -1, occ) + slide(
        f,
        r,
        -1,
        -1,
        occ,
    )
}

/// Squares a rook on `sq` attacks given the occupied squares `occ`.
pub open spec fn rook_set(sq: int, occ: u64) -> Set<int> {
    let f = sq % 8;
    let r = sq / 8;
    slide(f, r, 0, 1, occ) + slide(f, r, 1, 0, occ) + slide(f, r, 0, -1, occ) + slide(
        f,
        r,
        -1,
        0,
        occ,
    )
}

/// The squares reached from `sq` moving by (df, dr) up to the first
/// occupied square of `occ`, that one included.
pub fn slide_attacks(sq: u8, df: i8, dr: i8, occ: Bitboard) -> (r: Bitboard)
    requires
        sq < 64,
        is_step(df as int, dr as int),
    ensures
        forall|i: int| r.has(i) <==> slide(sq as int % 8, sq as int / 8, df as int, dr as int, occ.0).contains(i),
{
    let mut acc = Bitboard(0);
    let mut f: i8 = (sq % 8) as i8;
    let mut r: i8 = (sq / 8) as i8;
    let ghost f0 = sq as int % 8;
    let ghost r0 = sq as int / 8;
    proof {
        assert forall|i: int| !acc.has(i) by {
            if 0 <= i < 64 {
                crate::bitboard::lemma_bit_zero(i as u64);
            }
        }
    }
    loop
        invariant
            0 <= f < 8,
            0 <= r < 8,
            is_step(df as int, dr as int),
            forall|i: int| (acc.has(i) || slide(f as int, r as int, df as int, dr as int, occ.0).contains(i)) <==> slide(f0, r0, df as int, dr as int, occ.0).contains(i),
        ensures
            forall|i: int| acc.has(i) <==> slide(f0, r0, df as int, dr as int, occ.0).contains(i),
        decreases room(f as int, r as int, df as int, dr as int),
    {
        let nf = f + df;
        let nr = r + dr;
        if nf < 0 || nf >= 8 || nr < 0 || nr >= 8 {
            proof {
                assert(slide(f as int, r as int, df as int, dr as int, occ.0) =~= Set::empty());
            }
            break;
        }
        let s: u8 = (nr as u8) * 8 + (nf as u8);
        let ghost before = acc;
        let ghost cur = slide(f as int, r as int, df as int, dr as int, occ.0);
        let ghost next = slide(nf as int, nr as int, df as int, dr as int, occ.0);
        assert(s as int == nr as int * 8 + nf as int);
        acc.set(s);
        if occ.contains(s) {
            proof {
                assert(cur =~= set![s as int]);
                assert forall|i: int| acc.has(i) <==> slide(f0, r0, df as int, dr as int, occ.0).contains(i) by {
                    assert(before.has(i) || cur.contains(i) <==> slide(f0, r0, df as int, dr as int, occ.0).contains(i));
                }
            }
            break;
        }
        proof {
            assert(cur =~= next.insert(s as int));
            assert forall|i: int| (acc.has(i) || next.contains(i)) <==> slide(f0, r0, df as int, dr as int, occ.0).contains(i) by {
                assert(before.has(i) || cur.contains(i) <==> slide(f0, r0, df as int, dr as int, occ.0).contains(i));
            }
        }
        f = nf;
        r = nr;
    }
    acc
}

/// Squares a bishop on `sq` attacks given the occupied squares.
pub fn bishop_attacks(sq: u8, occupied: Bitboard) -> (r: Bitboard)
    requires
        sq < 64,
    ensures
        forall|i: int| r.has(i) <==> bishop_set(sq as int, occupied.0).contains(i),
{
    let a = slide_attacks(sq, 1, 1, occupied);
    let b = slide_attacks(sq, -1, 1, occupied);
    let c = slide_attacks(sq, 1, -1, occupied);
    let d = slide_attacks(sq, -1, -1, occupied);
    a.union(b).union(c).union(d)
}

/// Squares a rook on `sq` attacks given the occupied squares.
pub fn rook_attacks(sq: u8, occupied: Bitboard) -> (r: Bitboard)
    requires
        sq < 64,
    ensures
        forall|i: int| r.has(i) <==> rook_set(sq as int, occupied.0).contains(i),
{
    let a = slide_attacks(sq, 0, 1, occupied);
    let b = slide_attacks(sq, 1, 0, occupied);
    let c = slide_attacks(sq, 0, -1, occupied);
    let d = slide_attacks(sq, -1, 0, occupied);
    a.union(b).union(c).union(d)
}

/// Squares a queen on `sq` attacks given the occupied squares: those of a
/// bishop and those of a rook on the same square.
pub fn queen_attacks(sq: u8, occupied: Bitboard) -> (r: Bitboard)
    requires
        sq < 64,
    ensures
        forall|i: int| r.has(i) <==> (bishop_set(sq as int, occupied.0).contains(i) || rook_set(sq as int, occupied.0).contains(i)),
{
    bishop_attacks(sq, occupied).union(rook_attacks(sq, occupied))
}

} // verus!
