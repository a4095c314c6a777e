//! Move generation: pseudo-legal moves from the bitboards, then a filter
//! that keeps the moves after which the mover's king is not attacked.
use vstd::prelude::*;
use crate::attacks::{
    bishop_attacks, bishop_set, king_attacks, king_bits, knight_attacks, knight_bits, queen_attacks,
    rook_attacks, rook_set,
};
use crate::bitboard::{bit, Bitboard, RANK_1, RANK_2, RANK_4, RANK_5, RANK_7, RANK_8};
use crate::board::{
    after_move, board_after, board_unmade, lemma_index_facts, lemma_make_unmake,
    lemma_same_board_same_bitboards, reversible, undo_of, Position,
};
use crate::types::{Color, Move, Piece, PieceKind};

verus! {

/// Every move of `moves` goes from a square holding a piece of side `us`.
pub open spec fn from_own_piece(pos: Position, us: Color, moves: Seq<Move>) -> bool {
    forall|i: int|
        0 <= i < moves.len() ==> (#[trigger] pos.at(moves[i].from_spec()) is Some && pos.at(
            moves[i].from_spec(),
        )->0.color == us)
}

/// After `mv`, the side that played it is not in check: some coherent
/// position holding the board after the move (all such positions have the
/// same bitboards) leaves that side's king unattacked.
pub open spec fn leaves_king_safe(pos: Position, mv: Move) -> bool {
    exists|q: Position|
        q.wf() && #[trigger] q.board@ == board_after(pos.board@, mv) && !q.checked(
            pos.side_to_move,
        )
}

/// A legal move: pseudo-legal, and leaving the mover's king safe.
pub open spec fn legal_move(pos: Position, m: Move) -> bool {
    pseudo_legal(pos, m) && leaves_king_safe(pos, m)
}

/// Every move of `moves` leaves its mover's king safe.
pub open spec fn all_leave_king_safe(pos: Position, moves: Seq<Move>) -> bool {
    forall|i: int| 0 <= i < moves.len() ==> leaves_king_safe(pos, #[trigger] moves[i])
}

/// King safety at rest: after any move that the generator keeps, the side
/// that moved is not in check, whichever coherent position holds the
/// resulting board.
pub proof fn lemma_king_safe_at_rest(pos: Position, mv: Move, q: Position)
    requires
        leaves_king_safe(pos, mv),
        q.wf(),
        q.board@ == board_after(pos.board@, mv),
    ensures
        !q.checked(pos.side_to_move),
{
    let w = choose|w: Position|
        w.wf() && #[trigger] w.board@ == board_after(pos.board@, mv) && !w.checked(
            pos.side_to_move,
        );
    lemma_same_board_same_bitboards(w, q);
    let c = pos.side_to_move;
    assert(w.set_of(c, PieceKind::King) == q.set_of(c, PieceKind::King));
    assert(w.occ() == q.occ());
    let o = c.opposite();
    assert(w.set_of(o, PieceKind::Pawn) == q.set_of(o, PieceKind::Pawn));
    assert(w.set_of(o, PieceKind::Knight) == q.set_of(o, PieceKind::Knight));
    assert(w.set_of(o, PieceKind::Bishop) == q.set_of(o, PieceKind::Bishop));
    assert(w.set_of(o, PieceKind::Rook) == q.set_of(o, PieceKind::Rook));
    assert(w.set_of(o, PieceKind::Queen) == q.set_of(o, PieceKind::Queen));
    assert(w.set_of(o, PieceKind::King) == q.set_of(o, PieceKind::King));
}

/// Every move of `moves` from index `k` on starts on a square of `src`.
pub open spec fn sourced_from(moves: Seq<Move>, k: int, src: Bitboard) -> bool {
    forall|i: int| k <= i < moves.len() ==> src.has(#[trigger] moves[i].from_spec())
}

proof fn lemma_sourced_chain(a: Seq<Move>, b: Seq<Move>, k: int, src: Bitboard)
    requires
        0 <= k <= a.len(),
        sourced_from(a, k, src),
        a.is_prefix_of(b),
        sourced_from(b, a.len() as int, src),
    ensures
        sourced_from(b, k, src),
{
    assert forall|i: int| k <= i < b.len() implies src.has(#[trigger] b[i].from_spec()) by {
        if i < a.len() {
            assert(b[i] == a[i]);
        }
    }
}

/// Every move of `moves` from index `k` on lands on a square of `a` or of
/// `b`, or on the en-passant target `ep`.
pub open spec fn lands_in(moves: Seq<Move>, k: int, a: Bitboard, b: Bitboard, ep: Option<u8>) -> bool {
    forall|i: int|
        k <= i < moves.len() ==> a.has(#[trigger] moves[i].to_spec()) || b.has(moves[i].to_spec())
            || ep == Some(moves[i].to_spec() as u8)
}

proof fn lemma_lands_chain(
    x: Seq<Move>,
    y: Seq<Move>,
    k: int,
    a: Bitboard,
    b: Bitboard,
    ep: Option<u8>,
    t: Bitboard,
)
    requires
        0 <= k <= x.len(),
        lands_in(x, k, a, b, ep),
        x.is_prefix_of(y),
        forall|i: int| x.len() <= i < y.len() ==> t.has(#[trigger] y[i].to_spec()),
        forall|q: int| t.has(q) ==> a.has(q) || b.has(q),
    ensures
        lands_in(y, k, a, b, ep),
{
    assert forall|i: int| k <= i < y.len() implies a.has(#[trigger] y[i].to_spec()) || b.has(
        y[i].to_spec(),
    ) || ep == Some(y[i].to_spec() as u8) by {
        if i < x.len() {
            assert(y[i] == x[i]);
        } else {
            assert(t.has(y[i].to_spec()));
        }
    }
}

proof fn lemma_lands_chain_all(x: Seq<Move>, y: Seq<Move>, k: int, a: Bitboard, b: Bitboard, ep: Option<u8>)
    requires
        0 <= k <= x.len(),
        lands_in(x, k, a, b, ep),
        x.is_prefix_of(y),
        lands_in(y, x.len() as int, a, b, ep),
    ensures
        lands_in(y, k, a, b, ep),
{
    assert forall|i: int| k <= i < y.len() implies a.has(#[trigger] y[i].to_spec()) || b.has(
        y[i].to_spec(),
    ) || ep == Some(y[i].to_spec() as u8) by {
        if i < x.len() {
            assert(y[i] == x[i]);
        }
    }
}

/// Every square of `src` holds a piece of side `us`.
pub open spec fn own_squares(pos: Position, us: Color, src: Bitboard) -> bool {
    forall|s: int| src.has(s) ==> (#[trigger] pos.at(s) is Some && pos.at(s)->0.color == us)
}

proof fn lemma_kind_set_own(pos: Position, us: Color, kind: PieceKind)
    requires
        pos.wf(),
    ensures
        own_squares(pos, us, pos.set_of(us, kind)),
{
    lemma_index_facts();
    assert forall|s: int| pos.set_of(us, kind).has(s) implies (#[trigger] pos.at(s) is Some && pos.at(
        s,
    )->0.color == us) by {
        assert(pos.bitboards.kind_set(us.index(), kind.index()).has(s));
    }
}

proof fn lemma_extend_own(pos: Position, us: Color, before: Seq<Move>, after: Seq<Move>, src: Bitboard)
    requires
        from_own_piece(pos, us, before),
        before.is_prefix_of(after),
        sourced_from(after, before.len() as int, src),
        own_squares(pos, us, src),
    ensures
        from_own_piece(pos, us, after),
{
    assert forall|i: int| 0 <= i < after.len() implies (#[trigger] pos.at(after[i].from_spec()) is Some
        && pos.at(after[i].from_spec())->0.color == us) by {
        if i < before.len() {
            assert(after[i] == before[i]);
        } else {
            assert(src.has(after[i].from_spec()));
        }
    }
}

/// Whether a piece of kind `kind` on `from` reaches `t` by its own rule,
/// given the occupied squares `occ`: a king or knight by its fixed
/// pattern, a slider up to and including the first occupied square.
pub open spec fn reaches(kind: PieceKind, from: int, occ: u64, t: int) -> bool {
    match kind {
        PieceKind::Knight => bit(knight_bits(1u64 << (from as u64)), t),
        PieceKind::Bishop => bishop_set(from, occ).contains(t),
        PieceKind::Rook => rook_set(from, occ).contains(t),
        PieceKind::Queen => bishop_set(from, occ).contains(t) || rook_set(from, occ).contains(t),
        _ => bit(king_bits(1u64 << (from as u64)), t),
    }
}

/// A plain move of a piece of side `us` and kind `kind`: from a square
/// holding one, to a square it reaches that `own` does not hold.
pub open spec fn piece_move_ok(
    pos: Position,
    us: Color,
    kind: PieceKind,
    occ: u64,
    own: Bitboard,
    m: Move,
) -> bool {
    &&& pos.set_of(us, kind).has(m.from_spec())
    &&& reaches(kind, m.from_spec(), occ, m.to_spec())
    &&& !own.has(m.to_spec())
    &&& m.code() == 0
}

/// A pseudo-legal move of the side to move, a move by the rules of chess
/// with the king's safety aside: a knight, bishop, rook, queen or king
/// move by that piece's rule, a pawn move by the pawn's rules, or a castle.
pub open spec fn pseudo_legal(pos: Position, m: Move) -> bool {
    ||| m.code() == 0 && piece_rule_move(pos, m.from_spec(), m.to_spec())
    ||| pawn_move_of(pos, m.from_spec(), m.to_spec(), m.code())
    ||| castle_move_of(pos, m.from_spec(), m.to_spec(), m.code())
}

proof fn lemma_empty_square(p: Position, x: int)
    requires
        p.wf(),
        0 <= x < 64,
        !bit(p.occ(), x),
    ensures
        p.at(x) is None,
{
    crate::bitboard::lemma_bit_or(p.bitboards.side_set(0).0, p.bitboards.side_set(1).0, x as u64);
    if p.at(x) is Some {
        lemma_index_facts();
        let c = p.at(x)->0.color.index();
        assert(p.bitboards.side_set(c).has(x));
    }
}

/// A pseudo-legal move can be taken back exactly, provided the en-passant
/// target, if any, is empty (as it is in every position reached by play).
pub proof fn lemma_pseudo_legal_reversible(p: Position, m: Move)
    requires
        p.wf(),
        pseudo_legal(p, m),
        p.en_passant matches Some(e) ==> p.at(e as int) is None,
    ensures
        reversible(p.board@, m),
{
    let us = p.side_to_move;
    let f = m.from_spec();
    let t = m.to_spec();
    let c = m.code();
    let occ = p.occ();
    lemma_index_facts();
    lemma_kind_set_own(p, us, PieceKind::Pawn);
    lemma_kind_set_own(p, us, PieceKind::Knight);
    lemma_kind_set_own(p, us, PieceKind::Bishop);
    lemma_kind_set_own(p, us, PieceKind::Rook);
    lemma_kind_set_own(p, us, PieceKind::Queen);
    lemma_kind_set_own(p, us, PieceKind::King);
    if c == 0 && piece_rule_move(p, f, t) {
        assert(p.at(f) is Some);
        assert(!m.is_ep_spec() && !m.is_castle_spec());
        if t == f {
            crate::attacks::lemma_leaper_not_self(f as u64);
            crate::attacks::lemma_slide_ahead(f % 8, f / 8, 1, 1, occ);
            crate::attacks::lemma_slide_ahead(f % 8, f / 8, -1, 1, occ);
            crate::attacks::lemma_slide_ahead(f % 8, f / 8, 1, -1, occ);
            crate::attacks::lemma_slide_ahead(f % 8, f / 8, -1, -1, occ);
            crate::attacks::lemma_slide_ahead(f % 8, f / 8, 0, 1, occ);
            crate::attacks::lemma_slide_ahead(f % 8, f / 8, 1, 0, occ);
            crate::attacks::lemma_slide_ahead(f % 8, f / 8, 0, -1, occ);
            crate::attacks::lemma_slide_ahead(f % 8, f / 8, -1, 0, occ);
            assert(false);
        }
    } else if pawn_move_of(p, f, t, c) {
        assert(p.at(f) is Some);
        assert(!m.is_castle_spec());
        if m.is_ep_spec() {
            assert(c == 8);
            assert(p.en_passant == Some(t as u8));
        }
    } else {
        assert(castle_move_of(p, f, t, c));
        assert(p.set_of(us, PieceKind::King).has(f));
        assert(p.at(f) == Some(Piece { color: us, kind: PieceKind::King }));
        assert(!m.is_ep_spec());
        let base = if us == Color::White {
            0int
        } else {
            56int
        };
        if t == base + 6 {
            lemma_empty_square(p, base + 5);
        } else {
            lemma_empty_square(p, base + 3);
        }
    }
}

/// The en-passant target, if any, is an empty square: true of the start
/// and kept by every pseudo-legal move.
pub open spec fn ep_target_empty(p: Position) -> bool {
    p.en_passant matches Some(e) ==> p.at(e as int) is None
}

/// Playing a pseudo-legal move keeps the en-passant target empty: a double
/// push sets it to the square the pawn passed over, which was empty.
pub proof fn lemma_ep_target_stays_empty(p: Position, m: Move, q: Position)
    requires
        p.wf(),
        pseudo_legal(p, m),
        after_move(p, m, q),
    ensures
        ep_target_empty(q),
{
    let us = p.side_to_move;
    let f = m.from_spec();
    let t = m.to_spec();
    let c = m.code();
    lemma_index_facts();
    lemma_kind_set_own(p, us, PieceKind::Pawn);
    lemma_kind_set_own(p, us, PieceKind::Knight);
    lemma_kind_set_own(p, us, PieceKind::Bishop);
    lemma_kind_set_own(p, us, PieceKind::Rook);
    lemma_kind_set_own(p, us, PieceKind::Queen);
    lemma_kind_set_own(p, us, PieceKind::King);
    if let Some(e) = q.en_passant {
        let moved = p.at(f)->0;
        assert(moved.kind == PieceKind::Pawn);
        if pawn_move_of(p, f, t, c) {
            let d = pawn_step(us);
            assert(p.set_of(us, PieceKind::Pawn).has(f));
            assert(moved.color == us);
            assert(t == f + 2 * d);
            assert(e as int == f + d);
            crate::bitboard::lemma_bit_not(p.occ(), (f + d) as u64);
            lemma_empty_square(p, f + d);
            assert(q.board@[f + d] == p.board@[f + d]);
        } else {
            assert(c == 0 && piece_rule_move(p, f, t) || castle_move_of(p, f, t, c));
            assert(false);
        }
    }
}

/// Make then unmake restores a position reached by play: for a legal move
/// of a coherent position whose en-passant target is empty, taking the
/// move back with its record gives back the mailbox, side, rights,
/// en-passant target and clocks, and the bitboards word for word.
pub proof fn lemma_make_unmake_legal(p: Position, m: Move, q: Position)
    requires
        p.wf(),
        ep_target_empty(p),
        legal_move(p, m),
        q.wf(),
        q.board@ == board_unmade(board_after(p.board@, m), m, undo_of(p, m)),
    ensures
        q.board@ == p.board@,
        undo_of(p, m).castling == p.castling,
        undo_of(p, m).en_passant == p.en_passant,
        undo_of(p, m).halfmove_clock == p.halfmove_clock,
        undo_of(p, m).fullmove_number == p.fullmove_number,
        forall|c: int, k: int|
            0 <= c < 2 && 0 <= k < 6 ==> #[trigger] q.bitboards.kind_set(c, k) == p.bitboards.kind_set(
                c,
                k,
            ),
        forall|c: int| 0 <= c < 2 ==> #[trigger] q.bitboards.side_set(c) == p.bitboards.side_set(c),
{
    lemma_pseudo_legal_reversible(p, m);
    lemma_make_unmake(p, m, q);
}

/// Two kinds of piece of side `us` never share a square.
proof fn lemma_one_kind(p: Position, us: Color, k1: PieceKind, k2: PieceKind, f: int)
    requires
        p.wf(),
        p.set_of(us, k1).has(f),
        p.set_of(us, k2).has(f),
    ensures
        k1 == k2,
{
    lemma_index_facts();
    assert(p.bitboards.kind_set(us.index(), k1.index()).has(f));
    assert(p.bitboards.kind_set(us.index(), k2.index()).has(f));
}

/// In a position reached by play, a legal move is fixed by its source,
/// target and promotion: no two legal moves differ in their flags alone.
pub proof fn lemma_legal_fields_unique(p: Position, m1: Move, m2: Move)
    requires
        p.wf(),
        ep_target_empty(p),
        legal_move(p, m1),
        legal_move(p, m2),
        m1.from_spec() == m2.from_spec(),
        m1.to_spec() == m2.to_spec(),
        m1.promo_spec() == m2.promo_spec(),
    ensures
        m1 == m2,
{
    lemma_move_fields(m1);
    lemma_move_fields(m2);
    let us = p.side_to_move;
    let f = m1.from_spec();
    let t = m1.to_spec();
    let c1 = m1.code();
    let c2 = m2.code();
    crate::attacks::lemma_king_no_castle_step();
    if c1 <= c2 {
        lemma_pair_codes(p, m1, m2);
    } else {
        lemma_pair_codes(p, m2, m1);
    }
}

/// No legal move with flag field 0 shares source and target with a legal
/// castle or en-passant capture, and no castle with an en-passant capture.
proof fn lemma_pair_codes(p: Position, m1: Move, m2: Move)
    requires
        p.wf(),
        ep_target_empty(p),
        legal_move(p, m1),
        legal_move(p, m2),
        m1.from_spec() == m2.from_spec(),
        m1.to_spec() == m2.to_spec(),
        m1.promo_spec() == m2.promo_spec(),
        m1.code() <= m2.code(),
    ensures
        m1.code() == m2.code(),
{
    if m1.code() != m2.code() {
        let us = p.side_to_move;
        let f = m1.from_spec();
        let t = m1.to_spec();
        let c1 = m1.code();
        let c2 = m2.code();
        let occ = p.occ();
        let own = p.bitboards.side_set(us.index());
        crate::attacks::lemma_king_no_castle_step();
        lemma_index_facts();
        // codes 1 to 4 name distinct promotions; legal moves use 0 to 4, 8, 12
        assert(c1 == 0 || c1 == 8);
        if c2 == 12 {
            assert(castle_move_of(p, f, t, c2));
            assert(p.set_of(us, PieceKind::King).has(f));
            if c1 == 0 {
                if piece_rule_move(p, f, t) {
                    if p.set_of(us, PieceKind::Knight).has(f) && reaches(PieceKind::Knight, f, occ, t) && !own.has(t) {
                        lemma_one_kind(p, us, PieceKind::Knight, PieceKind::King, f);
                    } else if p.set_of(us, PieceKind::Bishop).has(f) && reaches(PieceKind::Bishop, f, occ, t) && !own.has(t) {
                        lemma_one_kind(p, us, PieceKind::Bishop, PieceKind::King, f);
                    } else if p.set_of(us, PieceKind::Rook).has(f) && reaches(PieceKind::Rook, f, occ, t) && !own.has(t) {
                        lemma_one_kind(p, us, PieceKind::Rook, PieceKind::King, f);
                    } else if p.set_of(us, PieceKind::Queen).has(f) && reaches(PieceKind::Queen, f, occ, t) && !own.has(t) {
                        lemma_one_kind(p, us, PieceKind::Queen, PieceKind::King, f);
                    }
                } else {
                    assert(pawn_move_of(p, f, t, c1));
                    lemma_one_kind(p, us, PieceKind::Pawn, PieceKind::King, f);
                }
            } else {
                assert(pawn_move_of(p, f, t, c1));
                lemma_one_kind(p, us, PieceKind::Pawn, PieceKind::King, f);
            }
        } else {
            assert(c2 == 8 && c1 == 0);
            assert(pawn_move_of(p, f, t, c2));
            assert(p.set_of(us, PieceKind::Pawn).has(f));
            assert(p.en_passant == Some(t as u8));
            assert(p.at(t) is None);
            if piece_rule_move(p, f, t) {
                if p.set_of(us, PieceKind::Knight).has(f) {
                    lemma_one_kind(p, us, PieceKind::Knight, PieceKind::Pawn, f);
                } else if p.set_of(us, PieceKind::Bishop).has(f) {
                    lemma_one_kind(p, us, PieceKind::Bishop, PieceKind::Pawn, f);
                } else if p.set_of(us, PieceKind::Rook).has(f) {
                    lemma_one_kind(p, us, PieceKind::Rook, PieceKind::Pawn, f);
                } else if p.set_of(us, PieceKind::Queen).has(f) {
                    lemma_one_kind(p, us, PieceKind::Queen, PieceKind::Pawn, f);
                } else {
                    lemma_one_kind(p, us, PieceKind::King, PieceKind::Pawn, f);
                }
            } else {
                assert(pawn_move_of(p, f, t, c1));
                let their = p.bitboards.side_set(us.opposite().index());
                if their.has(t) {
                    assert(p.at(t) is Some);
                }
            }
        }
    }
}

/// A move is its source, target and flag field.
pub proof fn lemma_move_fields(m: Move)
    ensures
        m == flagged(m.from_spec(), m.to_spec(), m.code()),
{
    let x = m.0 as int;
    assert(x == x % 64 + 64 * ((x / 64) % 64) + 4096 * (x / 4096)) by (nonlinear_arith)
        requires
            0 <= x < 65536,
    ;
}

/// Whether a knight, bishop, rook, queen or king of the side to move
/// stands on `f` and reaches `q` by its own rule, `q` not held by its side.
pub open spec fn piece_rule_move(pos: Position, f: int, q: int) -> bool {
    let us = pos.side_to_move;
    let own = pos.bitboards.side_set(us.index());
    let occ = pos.occ();
    ||| pos.set_of(us, PieceKind::Knight).has(f) && reaches(PieceKind::Knight, f, occ, q) && !own.has(q)
    ||| pos.set_of(us, PieceKind::Bishop).has(f) && reaches(PieceKind::Bishop, f, occ, q) && !own.has(q)
    ||| pos.set_of(us, PieceKind::Rook).has(f) && reaches(PieceKind::Rook, f, occ, q) && !own.has(q)
    ||| pos.set_of(us, PieceKind::Queen).has(f) && reaches(PieceKind::Queen, f, occ, q) && !own.has(q)
    ||| pos.set_of(us, PieceKind::King).has(f) && reaches(PieceKind::King, f, occ, q) && !own.has(q)
}

proof fn lemma_added_contains(x: Seq<Move>, y: Seq<Move>, k: int, m: Move)
    requires
        0 <= k,
        added_since(x, k, m),
        x.is_prefix_of(y),
    ensures
        y.contains(m),
{
    let i = choose|i: int| k <= i < x.len() && x[i] == m;
    assert(y[i] == m);
}

proof fn lemma_contains_grows(x: Seq<Move>, y: Seq<Move>, m: Move)
    requires
        x.contains(m),
        x.is_prefix_of(y),
    ensures
        y.contains(m),
{
    let i = choose|i: int| 0 <= i < x.len() && x[i] == m;
    assert(y[i] == m);
}

/// A pawn move of the side to move by the rules, as the move from `f` to
/// `t` with flag field `c`.
pub open spec fn pawn_move_of(pos: Position, f: int, t: int, c: int) -> bool {
    let us = pos.side_to_move;
    pawn_rule(
        pos.set_of(us, PieceKind::Pawn),
        us,
        Bitboard(!pos.occ()),
        pos.bitboards.side_set(us.opposite().index()),
        pos.en_passant,
        f,
        t,
        c,
    )
}

/// A castle of the side to move by the rules, as the move from `f` to `t`
/// with flag field `c`: its king on its original square and not in check,
/// the right still held, the squares between king and rook empty, and the
/// two squares the king crosses not attacked.
pub open spec fn castle_move_of(pos: Position, f: int, t: int, c: int) -> bool {
    let us = pos.side_to_move;
    let them = us.opposite();
    let base = if us == Color::White {
        0int
    } else {
        56int
    };
    let occ = pos.occ();
    let (k_right, q_right) = if us == Color::White {
        (pos.castling.wk, pos.castling.wq)
    } else {
        (pos.castling.bk, pos.castling.bq)
    };
    &&& c == 12
    &&& f == base + 4
    &&& pos.set_of(us, PieceKind::King).has(f)
    &&& !pos.checked(us)
    &&& {
        ||| t == base + 6 && k_right && !bit(occ, base + 5) && !bit(occ, base + 6) && !pos.attacked(
            base + 5,
            them,
        ) && !pos.attacked(base + 6, them)
        ||| t == base + 2 && q_right && !bit(occ, base + 1) && !bit(occ, base + 2) && !bit(
            occ,
            base + 3,
        ) && !pos.attacked(base + 2, them) && !pos.attacked(base + 3, them)
    }
}

/// Every move of `moves` from index `k` on is pseudo-legal in `pos`.
pub open spec fn all_pseudo_legal(pos: Position, moves: Seq<Move>, k: int) -> bool {
    forall|i: int| k <= i < moves.len() ==> pseudo_legal(pos, #[trigger] moves[i])
}

proof fn lemma_pseudo_chain(pos: Position, x: Seq<Move>, y: Seq<Move>)
    requires
        all_pseudo_legal(pos, x, 0),
        x.is_prefix_of(y),
        forall|i: int| x.len() <= i < y.len() ==> pseudo_legal(pos, #[trigger] y[i]),
    ensures
        all_pseudo_legal(pos, y, 0),
{
    assert forall|i: int| 0 <= i < y.len() implies pseudo_legal(pos, #[trigger] y[i]) by {
        if i < x.len() {
            assert(y[i] == x[i]);
        }
    }
}

/// The plain move, with no flag, from `f` to `t`.
pub open spec fn plain(f: int, t: int) -> Move {
    Move((f + 64 * t) as u16)
}

/// The move from `f` to `t` with flag field `c`.
pub open spec fn flagged(f: int, t: int, c: int) -> Move {
    Move((f + 64 * t + 4096 * c) as u16)
}

/// Whether `m` stands in `moves` at index `k` or later.
pub open spec fn added_since(moves: Seq<Move>, k: int, m: Move) -> bool {
    exists|i: int| k <= i < moves.len() && moves[i] == m
}

proof fn lemma_added_grows(x: Seq<Move>, y: Seq<Move>, k: int, m: Move)
    requires
        0 <= k,
        added_since(x, k, m),
        x.is_prefix_of(y),
    ensures
        added_since(y, k, m),
{
    let i = choose|i: int| k <= i < x.len() && x[i] == m;
    assert(y[i] == m);
}

proof fn lemma_added_grows_from(x: Seq<Move>, y: Seq<Move>, k: int, j: int, m: Move)
    requires
        0 <= k <= j,
        added_since(y, j, m),
    ensures
        added_since(y, k, m),
{
    let i = choose|i: int| j <= i < y.len() && y[i] == m;
    assert(k <= i < y.len() && y[i] == m);
}

/// The moves of `s` from index `k` on are pairwise distinct.
pub open spec fn distinct_since(s: Seq<Move>, k: int) -> bool {
    forall|i: int, j: int| k <= i < j < s.len() ==> s[i] != s[j]
}

/// Moves of `s` in `lo..hi` step from source to target by `step` (source
/// minus target) and promote exactly when `promo` holds.
pub open spec fn seg_tagged(s: Seq<Move>, lo: int, hi: int, step: int, promo: bool) -> bool {
    forall|i: int|
        lo <= i < hi ==> (#[trigger] s[i]).from_spec() - s[i].to_spec() == step && (if promo {
            1 <= s[i].code() <= 4
        } else {
            s[i].code() == 0
        })
}

/// Two segments of distinct moves, tagged differently, make one.
proof fn lemma_join_tagged(
    s: Seq<Move>,
    lo: int,
    mid: int,
    hi: int,
    step2: int,
    promo2: bool,
)
    requires
        0 <= lo <= mid <= hi <= s.len(),
        forall|i: int, j: int| lo <= i < j < mid ==> s[i] != s[j],
        forall|i: int, j: int| mid <= i < j < hi ==> s[i] != s[j],
        seg_tagged(s, mid, hi, step2, promo2),
        forall|i: int| lo <= i < mid ==> !(#[trigger] s[i].from_spec() - s[i].to_spec() == step2 && (
        1 <= s[i].code() <= 4) == promo2),
    ensures
        forall|i: int, j: int| lo <= i < j < hi ==> s[i] != s[j],
{
    assert forall|i: int, j: int| lo <= i < j < hi implies s[i] != s[j] by {
        if i < mid && j >= mid {
            assert(!(s[i].from_spec() - s[i].to_spec() == step2 && (1 <= s[i].code() <= 4) == promo2));
            assert(s[j].from_spec() - s[j].to_spec() == step2 && (1 <= s[j].code() <= 4) == promo2);
        }
    }
}

proof fn lemma_join_distinct(s: Seq<Move>, lo: int, mid: int, hi: int)
    requires
        0 <= lo <= mid <= hi <= s.len(),
        forall|i: int, j: int| lo <= i < j < mid ==> s[i] != s[j],
        forall|i: int, j: int| mid <= i < j < hi ==> s[i] != s[j],
        forall|i: int, j: int| lo <= i < mid <= j < hi ==> s[i] != s[j],
    ensures
        forall|i: int, j: int| lo <= i < j < hi ==> s[i] != s[j],
{
}

/// Push the four promotions (queen, rook, bishop, knight) of `from` to `to`.
fn add_promotions(from: u8, to: u8, out: &mut Vec<Move>)
    requires
        from < 64,
        to < 64,
    ensures
        old(out)@.is_prefix_of(final(out)@),
        forall|i: int|
            old(out)@.len() <= i < final(out)@.len() ==> #[trigger] final(out)@[i].from_spec() == from
                && final(out)@[i].to_spec() == to && 1 <= final(out)@[i].code() <= 4,
        forall|c: int|
            1 <= c <= 4 ==> added_since(final(out)@, old(out)@.len() as int, #[trigger] flagged(from as int, to as int, c)),
        distinct_since(final(out)@, old(out)@.len() as int),
{
    let ghost n = out@.len() as int;
    out.push(Move::with_promo(from, to, PieceKind::Queen));
    out.push(Move::with_promo(from, to, PieceKind::Rook));
    out.push(Move::with_promo(from, to, PieceKind::Bishop));
    out.push(Move::with_promo(from, to, PieceKind::Knight));
    proof {
        assert(out@[n] == flagged(from as int, to as int, 4));
        assert(out@[n + 1] == flagged(from as int, to as int, 3));
        assert(out@[n + 2] == flagged(from as int, to as int, 2));
        assert(out@[n + 3] == flagged(from as int, to as int, 1));
    }
}

/// Push a move from `t + delta` to each square `t` of `targets`, or the
/// four promotions when `promo` holds.
fn push_targets(targets: Bitboard, delta: i16, promo: bool, src: Ghost<Bitboard>, out: &mut Vec<Move>)
    requires
        -16 <= delta <= 16,
        forall|t: int| targets.has(t) ==> 0 <= t + delta < 64 && src@.has(t + delta),
    ensures
        old(out)@.is_prefix_of(final(out)@),
        sourced_from(final(out)@, old(out)@.len() as int, src@),
        forall|i: int|
            old(out)@.len() <= i < final(out)@.len() ==> targets.has(#[trigger] final(out)@[i].to_spec()),
        forall|i: int|
            old(out)@.len() <= i < final(out)@.len() ==> (#[trigger] final(out)@[i]).from_spec()
                == final(out)@[i].to_spec() + delta && (if promo {
                1 <= final(out)@[i].code() <= 4
            } else {
                final(out)@[i].code() == 0
            }),
        forall|q: int, c: int|
            #[trigger] targets.has(q) && (if promo {
                1 <= c <= 4
            } else {
                c == 0
            }) ==> added_since(final(out)@, old(out)@.len() as int, #[trigger] flagged(q + delta, q, c)),
        distinct_since(final(out)@, old(out)@.len() as int),
{
    let mut t = targets;
    loop
        invariant
            -16 <= delta <= 16,
            forall|q: int| t.has(q) ==> 0 <= q + delta < 64 && src@.has(q + delta),
            forall|q: int| t.has(q) ==> targets.has(q),
            old(out)@.is_prefix_of(out@),
            sourced_from(out@, old(out)@.len() as int, src@),
            forall|i: int|
                old(out)@.len() <= i < out@.len() ==> targets.has(#[trigger] out@[i].to_spec()),
            forall|i: int|
                old(out)@.len() <= i < out@.len() ==> (#[trigger] out@[i]).from_spec()
                    == out@[i].to_spec() + delta && (if promo {
                    1 <= out@[i].code() <= 4
                } else {
                    out@[i].code() == 0
                }),
            forall|q: int, c: int|
                #[trigger] targets.has(q) && !t.has(q) && (if promo {
                    1 <= c <= 4
                } else {
                    c == 0
                }) ==> added_since(out@, old(out)@.len() as int, #[trigger] flagged(q + delta, q, c)),
            distinct_since(out@, old(out)@.len() as int),
            forall|i: int| old(out)@.len() <= i < out@.len() ==> !t.has(#[trigger] out@[i].to_spec()),
        ensures
            forall|q: int| !t.has(q),
        decreases t.0,
    {
        let ghost before = out@;
        let ghost t_before = t;
        match t.pop_lsb() {
            None => {
                proof {
                    assert forall|q: int| !t.has(q) by {
                        if 0 <= q < 64 {
                            crate::bitboard::lemma_bit_zero(q as u64);
                        }
                    }
                }
                break;
            },
            Some(to) => {
                let from = (to as i16 + delta) as u8;
                if promo {
                    add_promotions(from, to, out);
                } else {
                    out.push(Move::new(from, to));
                    proof {
                        assert(out@[before.len() as int] == flagged(from as int, to as int, 0));
                    }
                }
                proof {
                    assert forall|q: int, c: int|
                        #[trigger] targets.has(q) && !t.has(q) && (if promo {
                            1 <= c <= 4
                        } else {
                            c == 0
                        }) implies added_since(out@, old(out)@.len() as int, #[trigger] flagged(q + delta, q, c)) by {
                        if q == to {
                            assert(from as int == q + delta);
                            if promo {
                                lemma_added_grows_from(before, out@, old(out)@.len() as int, before.len() as int, flagged(q + delta, q, c));
                            } else {
                                assert(added_since(out@, before.len() as int, flagged(q + delta, q, c)));
                                lemma_added_grows_from(before, out@, old(out)@.len() as int, before.len() as int, flagged(q + delta, q, c));
                            }
                        } else {
                            assert(!t_before.has(q));
                            lemma_added_grows(before, out@, old(out)@.len() as int, flagged(q + delta, q, c));
                        }
                    }
                    assert forall|i: int| old(out)@.len() <= i < out@.len() implies src@.has(
                        #[trigger] out@[i].from_spec(),
                    ) by {
                        if i < before.len() {
                            assert(out@[i] == before[i]);
                        }
                    }
                    assert(targets.has(to as int));
                    assert forall|i: int| old(out)@.len() <= i < out@.len() implies (
                    #[trigger] out@[i]).from_spec() == out@[i].to_spec() + delta && (if promo {
                        1 <= out@[i].code() <= 4
                    } else {
                        out@[i].code() == 0
                    }) by {
                        if i < before.len() {
                            assert(out@[i] == before[i]);
                        } else {
                            assert(out@[i].from_spec() == from as int);
                            assert(out@[i].to_spec() == to as int);
                        }
                    }
                    assert forall|i: int| old(out)@.len() <= i < out@.len() implies targets.has(
                        #[trigger] out@[i].to_spec(),
                    ) by {
                        if i < before.len() {
                            assert(out@[i] == before[i]);
                        } else {
                            assert(out@[i].from_spec() == from as int);
                            assert(out@[i].to_spec() == to as int);
                        }
                    }
                    assert forall|i: int| old(out)@.len() <= i < out@.len() implies !t.has(
                        #[trigger] out@[i].to_spec(),
                    ) by {
                        if i < before.len() {
                            assert(out@[i] == before[i]);
                            assert(!t_before.has(before[i].to_spec()));
                        } else {
                            assert(out@[i].from_spec() == from as int);
                            assert(out@[i].to_spec() == to as int);
                        }
                    }
                    assert forall|x: int, y: int| old(out)@.len() <= x < y < out@.len() implies out@[x]
                        != out@[y] by {
                        if y < before.len() {
                            assert(out@[x] == before[x] && out@[y] == before[y]);
                        } else if x < before.len() {
                            assert(out@[x] == before[x]);
                            assert(!t_before.has(before[x].to_spec()));
                            assert(out@[y].from_spec() == from as int);
                            assert(out@[y].to_spec() == to as int);
                        }
                    }
                }
            },
        }
    }
}

/// Push a move from `from` to each square of `targets`.
fn push_from_square(from: u8, targets: Bitboard, out: &mut Vec<Move>)
    requires
        from < 64,
    ensures
        old(out)@.is_prefix_of(final(out)@),
        forall|i: int|
            old(out)@.len() <= i < final(out)@.len() ==> #[trigger] final(out)@[i].from_spec() == from
                && targets.has(final(out)@[i].to_spec()) && final(out)@[i].code() == 0,
        forall|q: int|
            targets.has(q) ==> added_since(final(out)@, old(out)@.len() as int, #[trigger] plain(from as int, q)),
{
    let mut t = targets;
    loop
        invariant
            from < 64,
            old(out)@.is_prefix_of(out@),
            forall|q: int| t.has(q) ==> targets.has(q),
            forall|i: int|
                old(out)@.len() <= i < out@.len() ==> #[trigger] out@[i].from_spec() == from
                    && targets.has(out@[i].to_spec()) && out@[i].code() == 0,
            forall|q: int|
                targets.has(q) && !t.has(q) ==> added_since(out@, old(out)@.len() as int, #[trigger] plain(from as int, q)),
        ensures
            forall|q: int| !t.has(q),
        decreases t.0,
    {
        let ghost before = out@;
        let ghost t_before = t;
        match t.pop_lsb() {
            None => {
                proof {
                    assert forall|q: int| !t.has(q) by {
                        if 0 <= q < 64 {
                            crate::bitboard::lemma_bit_zero(q as u64);
                        }
                    }
                }
                break;
            },
            Some(to) => {
                let mv = Move::new(from, to);
                out.push(mv);
                proof {
                    assert(mv == plain(from as int, to as int));
                    assert(out@[before.len() as int] == mv);
                    assert forall|q: int| targets.has(q) && !t.has(q) implies added_since(out@, old(out)@.len() as int, #[trigger] plain(from as int, q)) by {
                        if q == to {
                        } else {
                            assert(!t_before.has(q));
                            lemma_added_grows(before, out@, old(out)@.len() as int, plain(from as int, q));
                        }
                    }
                    assert forall|i: int| old(out)@.len() <= i < out@.len() implies #[trigger] out@[i].from_spec() == from
                        && targets.has(out@[i].to_spec()) && out@[i].code() == 0 by {
                        if i < before.len() {
                            assert(out@[i] == before[i]);
                        }
                    }
                }
            },
        }
    }
}

/// One rank forward for side `us`, in squares.
pub open spec fn pawn_step(us: Color) -> int {
    if us == Color::White {
        8
    } else {
        -8
    }
}

/// Whether `t` is on the last rank for a pawn of side `us`.
pub open spec fn on_last_rank(us: Color, t: int) -> bool {
    if us == Color::White {
        56 <= t < 64
    } else {
        0 <= t < 8
    }
}

/// Whether `f` is on the starting rank of the pawns of side `us`.
pub open spec fn on_start_rank(us: Color, f: int) -> bool {
    if us == Color::White {
        8 <= f < 16
    } else {
        48 <= f < 56
    }
}

/// The flag field of a pawn move to `t`: a promotion code 1 to 4 on the
/// last rank, none elsewhere.
pub open spec fn flag_for(us: Color, t: int, c: int) -> bool {
    if on_last_rank(us, t) {
        1 <= c <= 4
    } else {
        c == 0
    }
}

/// Whether a pawn of side `us` on `f` attacks `t`: one rank forward and
/// one file to either side, on the board.
pub open spec fn pawn_capture_target(us: Color, f: int, t: int) -> bool {
    (t == f + pawn_step(us) + 1 && f % 8 != 7) || (t == f + pawn_step(us) - 1 && f % 8 != 0)
}

/// A pawn push by the rules, as the move from `f` to `t` with flag field
/// `c`: one rank to an empty square, promoting on the last rank, or two
/// ranks from the starting rank over an empty square to an empty square.
pub open spec fn push_rule(pawns: Bitboard, us: Color, empty: Bitboard, f: int, t: int, c: int) -> bool {
    let d = pawn_step(us);
    &&& pawns.has(f)
    &&& 0 <= t < 64
    &&& {
        ||| t == f + d && empty.has(t) && flag_for(us, t, c)
        ||| t == f + 2 * d && on_start_rank(us, f) && empty.has(f + d) && empty.has(t) && c == 0
    }
}

/// A pawn capture of an enemy piece by the rules, promoting on the last rank.
pub open spec fn capture_rule(pawns: Bitboard, us: Color, their: Bitboard, f: int, t: int, c: int) -> bool {
    &&& pawns.has(f)
    &&& 0 <= t < 64
    &&& pawn_capture_target(us, f, t) && their.has(t) && flag_for(us, t, c)
}

/// An en-passant capture onto the target `ep`.
pub open spec fn ep_rule(pawns: Bitboard, us: Color, ep: Option<u8>, f: int, t: int, c: int) -> bool {
    &&& pawns.has(f)
    &&& 0 <= t < 64
    &&& pawn_capture_target(us, f, t) && ep == Some(t as u8) && c == 8
}

/// A pawn move by the rules, as the move from `f` to `t` with flag field
/// `c`: a push, a capture or an en-passant capture.
pub open spec fn pawn_rule(
    pawns: Bitboard,
    us: Color,
    empty: Bitboard,
    their: Bitboard,
    ep: Option<u8>,
    f: int,
    t: int,
    c: int,
) -> bool {
    ||| push_rule(pawns, us, empty, f, t, c)
    ||| capture_rule(pawns, us, their, f, t, c)
    ||| ep_rule(pawns, us, ep, f, t, c)
}

/// Every move of `moves` from index `k` on is a pawn move by the rules.
pub open spec fn pawn_sound(
    moves: Seq<Move>,
    k: int,
    pawns: Bitboard,
    us: Color,
    empty: Bitboard,
    their: Bitboard,
    ep: Option<u8>,
) -> bool {
    forall|i: int|
        k <= i < moves.len() ==> pawn_rule(
            pawns,
            us,
            empty,
            their,
            ep,
            (#[trigger] moves[i]).from_spec(),
            moves[i].to_spec(),
            moves[i].code(),
        )
}

proof fn lemma_pawn_sound_chain(
    x: Seq<Move>,
    y: Seq<Move>,
    k: int,
    pawns: Bitboard,
    us: Color,
    empty: Bitboard,
    their: Bitboard,
    ep: Option<u8>,
)
    requires
        0 <= k <= x.len(),
        pawn_sound(x, k, pawns, us, empty, their, ep),
        x.is_prefix_of(y),
        pawn_sound(y, x.len() as int, pawns, us, empty, their, ep),
    ensures
        pawn_sound(y, k, pawns, us, empty, their, ep),
{
    assert forall|i: int| k <= i < y.len() implies pawn_rule(
        pawns,
        us,
        empty,
        their,
        ep,
        (#[trigger] y[i]).from_spec(),
        y[i].to_spec(),
        y[i].code(),
    ) by {
        if i < x.len() {
            assert(y[i] == x[i]);
        }
    }
}

proof fn lemma_lift(x: Seq<Move>, y: Seq<Move>, k: int, j: int, m: Move)
    requires
        0 <= k <= j,
        added_since(x, j, m),
        x.is_prefix_of(y),
    ensures
        added_since(y, k, m),
{
    let i = choose|i: int| j <= i < x.len() && x[i] == m;
    assert(y[i] == m);
}

proof fn lemma_rank_masks(us: Color, promo_rank: Bitboard, start_rank: Bitboard, double_rank: Bitboard)
    requires
        promo_rank.0 == if us == Color::White { RANK_8 } else { RANK_1 },
        start_rank.0 == if us == Color::White { RANK_2 } else { RANK_7 },
        double_rank.0 == if us == Color::White { RANK_4 } else { RANK_5 },
    ensures
        forall|t: int|
            0 <= t < 64 ==> (promo_rank.has(t) <==> on_last_rank(us, t)) && (start_rank.has(t)
                <==> on_start_rank(us, t)) && (double_rank.has(t) <==> on_start_rank(
                us,
                t - 2 * pawn_step(us),
            )),
{
    assert forall|t: int| 0 <= t < 64 implies (promo_rank.has(t) <==> on_last_rank(us, t)) && (
    start_rank.has(t) <==> on_start_rank(us, t)) && (double_rank.has(t) <==> on_start_rank(
        us,
        t - 2 * pawn_step(us),
    )) by {
        crate::bitboard::lemma_mask_bits(t as u64);
    }
}

/// Single and double pawn pushes of side `us`, promotions included.
fn gen_pawn_pushes(pawns: Bitboard, us: Color, empty: Bitboard, their: Bitboard, ep: Option<u8>, out: &mut Vec<Move>)
    ensures
        old(out)@.is_prefix_of(final(out)@),
        sourced_from(final(out)@, old(out)@.len() as int, pawns),
        lands_in(final(out)@, old(out)@.len() as int, empty, their, ep),
        forall|f: int, t: int, c: int|
            push_rule(pawns, us, empty, f, t, c) ==> added_since(
                final(out)@,
                old(out)@.len() as int,
                #[trigger] flagged(f, t, c),
            ),
        pawn_sound(final(out)@, old(out)@.len() as int, pawns, us, empty, their, ep),
        distinct_since(final(out)@, old(out)@.len() as int),
        forall|i: int|
            old(out)@.len() <= i < final(out)@.len() ==> ((#[trigger] final(out)@[i]).from_spec()
                - final(out)@[i].to_spec() == -pawn_step(us) || final(out)@[i].from_spec()
                - final(out)@[i].to_spec() == -2 * pawn_step(us)) && final(out)@[i].code() <= 4,
{
    let ghost start = out@.len() as int;
    assert(sourced_from(out@, start, pawns));
    assert(lands_in(out@, start, empty, their, ep));
    let white = us == Color::White;
    let start_rank = Bitboard(if white { RANK_2 } else { RANK_7 });
    let promo_rank = Bitboard(if white { RANK_8 } else { RANK_1 });
    let double_rank = Bitboard(if white { RANK_4 } else { RANK_5 });
    let back: i16 = if white { -8 } else { 8 };
    proof {
        lemma_rank_masks(us, promo_rank, start_rank, double_rank);
    }
    let push = if white { pawns.north() } else { pawns.south() };
    let single_push = push.intersect(empty);
    assert(forall|t: int| single_push.has(t) ==> 0 <= t + back < 64 && pawns.has(t + back));
    let ghost b1 = out@;
    let quiet_pushes = single_push.without(promo_rank);
    push_targets(quiet_pushes, back, false, Ghost(pawns), out);
    let ghost a1 = out@;
    proof {
        lemma_sourced_chain(b1, out@, start, pawns);
        lemma_lands_chain(b1, out@, start, empty, their, ep, quiet_pushes);
    }
    let promo_pushes = single_push.intersect(promo_rank);
    push_targets(promo_pushes, back, true, Ghost(pawns), out);
    let ghost a2 = out@;
    proof {
        lemma_sourced_chain(a1, out@, start, pawns);
        lemma_lands_chain(a1, out@, start, empty, their, ep, promo_pushes);
    }
    let can_double = pawns.intersect(start_rank);
    let first = if white { can_double.north() } else { can_double.south() };
    let first_push = first.intersect(empty);
    let second = if white { first_push.north() } else { first_push.south() };
    let double_push = second.intersect(empty).intersect(double_rank);
    assert(forall|t: int| double_push.has(t) ==> 0 <= t + 2 * back < 64 && pawns.has(t + 2 * back));
    push_targets(double_push, 2 * back, false, Ghost(pawns), out);
    proof {
        let fin = out@;
        let bk = back as int;
        assert(seg_tagged(fin, start, a1.len() as int, bk, false)) by {
            assert forall|i: int| start <= i < a1.len() implies fin[i] == a1[i] by {}
        }
        assert(seg_tagged(fin, a1.len() as int, a2.len() as int, bk, true)) by {
            assert forall|i: int| a1.len() <= i < a2.len() implies fin[i] == a2[i] by {}
        }
        assert(seg_tagged(fin, a2.len() as int, fin.len() as int, 2 * bk, false));
        assert forall|i: int, j: int| start <= i < j < a1.len() implies fin[i] != fin[j] by {
            assert(fin[i] == a1[i] && fin[j] == a1[j]);
        }
        assert forall|i: int, j: int| a1.len() <= i < j < a2.len() implies fin[i] != fin[j] by {
            assert(fin[i] == a2[i] && fin[j] == a2[j]);
        }
        lemma_join_tagged(fin, start, a1.len() as int, a2.len() as int, bk, true);
        lemma_join_tagged(fin, start, a2.len() as int, fin.len() as int, 2 * bk, false);
    }
    proof {
        lemma_sourced_chain(a2, out@, start, pawns);
        lemma_lands_chain(a2, out@, start, empty, their, ep, double_push);
        let fin = out@;
        assert forall|f: int, t: int, c: int| push_rule(pawns, us, empty, f, t, c) implies added_since(
            fin,
            start,
            #[trigger] flagged(f, t, c),
        ) by {
            let d = pawn_step(us);
            if t == f + d && empty.has(t) && flag_for(us, t, c) {
                assert(push.has(t));
                assert(single_push.has(t));
                assert(t + back == f);
                if on_last_rank(us, t) {
                    assert(promo_pushes.has(t));
                    lemma_lift(a2, fin, start, a1.len() as int, flagged(f, t, c));
                } else {
                    assert(quiet_pushes.has(t));
                    lemma_lift(a1, fin, start, b1.len() as int, flagged(f, t, c));
                }
            } else {
                assert(can_double.has(f));
                assert(first.has(f + d));
                assert(first_push.has(f + d));
                assert(second.has(t));
                assert(double_push.has(t));
                assert(t + 2 * back == f);
                assert(added_since(fin, a2.len() as int, flagged(f, t, c)));
                lemma_added_grows_from(fin, fin, start, a2.len() as int, flagged(f, t, c));
            }
        }
        assert forall|i: int| start <= i < fin.len() implies pawn_rule(
            pawns,
            us,
            empty,
            their,
            ep,
            (#[trigger] fin[i]).from_spec(),
            fin[i].to_spec(),
            fin[i].code(),
        ) by {
            let m = fin[i];
            let q = m.to_spec();
            let d = pawn_step(us);
            if i < a1.len() {
                assert(a1[i] == m);
                assert(quiet_pushes.has(q));
                assert(m.from_spec() == q + back);
            } else if i < a2.len() {
                assert(a2[i] == m);
                assert(promo_pushes.has(q));
                assert(m.from_spec() == q + back);
            } else {
                assert(double_push.has(q));
                assert(m.from_spec() == q + 2 * back);
                assert(second.has(q));
                assert(first_push.has(q - d));
                assert(first.has(q - d));
                assert(can_double.has(q - 2 * d));
            }
        }
    }
}

/// Pawn captures of enemy pieces by side `us` to either side, promotions
/// included.
fn gen_pawn_captures(pawns: Bitboard, us: Color, empty: Bitboard, their: Bitboard, ep: Option<u8>, out: &mut Vec<Move>)
    ensures
        old(out)@.is_prefix_of(final(out)@),
        sourced_from(final(out)@, old(out)@.len() as int, pawns),
        lands_in(final(out)@, old(out)@.len() as int, empty, their, ep),
        forall|f: int, t: int, c: int|
            capture_rule(pawns, us, their, f, t, c) ==> added_since(
                final(out)@,
                old(out)@.len() as int,
                #[trigger] flagged(f, t, c),
            ),
        pawn_sound(final(out)@, old(out)@.len() as int, pawns, us, empty, their, ep),
        distinct_since(final(out)@, old(out)@.len() as int),
        forall|i: int|
            old(out)@.len() <= i < final(out)@.len() ==> ((#[trigger] final(out)@[i]).from_spec()
                - final(out)@[i].to_spec() == 1 - pawn_step(us) || final(out)@[i].from_spec()
                - final(out)@[i].to_spec() == -1 - pawn_step(us)) && final(out)@[i].code() <= 4,
{
    let ghost start = out@.len() as int;
    assert(sourced_from(out@, start, pawns));
    assert(lands_in(out@, start, empty, their, ep));
    let white = us == Color::White;
    let start_rank = Bitboard(if white { RANK_2 } else { RANK_7 });
    let promo_rank = Bitboard(if white { RANK_8 } else { RANK_1 });
    let double_rank = Bitboard(if white { RANK_4 } else { RANK_5 });
    proof {
        lemma_rank_masks(us, promo_rank, start_rank, double_rank);
    }
    let attack_left = if white { pawns.north_west() } else { pawns.south_west() };
    let attack_right = if white { pawns.north_east() } else { pawns.south_east() };
    let back_left: i16 = if white { -7 } else { 9 };
    let back_right: i16 = if white { -9 } else { 7 };
    assert(forall|t: int| attack_left.has(t) ==> 0 <= t + back_left < 64 && pawns.has(t + back_left));
    assert(forall|t: int| attack_right.has(t) ==> 0 <= t + back_right < 64 && pawns.has(t + back_right));
    let ghost b4 = out@;
    let left = attack_left.intersect(their);
    let left_captures = left.without(promo_rank);
    push_targets(left_captures, back_left, false, Ghost(pawns), out);
    let ghost a4 = out@;
    proof {
        lemma_sourced_chain(b4, out@, start, pawns);
        lemma_lands_chain(b4, out@, start, empty, their, ep, left_captures);
    }
    let left_promos = left.intersect(promo_rank);
    push_targets(left_promos, back_left, true, Ghost(pawns), out);
    let ghost a5 = out@;
    proof {
        lemma_sourced_chain(a4, out@, start, pawns);
        lemma_lands_chain(a4, out@, start, empty, their, ep, left_promos);
    }
    let right = attack_right.intersect(their);
    let right_captures = right.without(promo_rank);
    push_targets(right_captures, back_right, false, Ghost(pawns), out);
    let ghost a6 = out@;
    proof {
        lemma_sourced_chain(a5, out@, start, pawns);
        lemma_lands_chain(a5, out@, start, empty, their, ep, right_captures);
    }
    let right_promos = right.intersect(promo_rank);
    push_targets(right_promos, back_right, true, Ghost(pawns), out);
    proof {
        let fin = out@;
        let bl = back_left as int;
        let br = back_right as int;
        assert(seg_tagged(fin, start, a4.len() as int, bl, false)) by {
            assert forall|i: int| start <= i < a4.len() implies fin[i] == a4[i] by {}
        }
        assert(seg_tagged(fin, a4.len() as int, a5.len() as int, bl, true)) by {
            assert forall|i: int| a4.len() <= i < a5.len() implies fin[i] == a5[i] by {}
        }
        assert(seg_tagged(fin, a5.len() as int, a6.len() as int, br, false)) by {
            assert forall|i: int| a5.len() <= i < a6.len() implies fin[i] == a6[i] by {}
        }
        assert(seg_tagged(fin, a6.len() as int, fin.len() as int, br, true));
        assert forall|i: int, j: int| start <= i < j < a4.len() implies fin[i] != fin[j] by {
            assert(fin[i] == a4[i] && fin[j] == a4[j]);
        }
        assert forall|i: int, j: int| a4.len() <= i < j < a5.len() implies fin[i] != fin[j] by {
            assert(fin[i] == a5[i] && fin[j] == a5[j]);
        }
        assert forall|i: int, j: int| a5.len() <= i < j < a6.len() implies fin[i] != fin[j] by {
            assert(fin[i] == a6[i] && fin[j] == a6[j]);
        }
        lemma_join_tagged(fin, start, a4.len() as int, a5.len() as int, bl, true);
        lemma_join_tagged(fin, start, a5.len() as int, a6.len() as int, br, false);
        lemma_join_tagged(fin, start, a6.len() as int, fin.len() as int, br, true);
    }
    proof {
        lemma_sourced_chain(a6, out@, start, pawns);
        lemma_lands_chain(a6, out@, start, empty, their, ep, right_promos);
        let fin = out@;
        assert forall|f: int, t: int, c: int| capture_rule(pawns, us, their, f, t, c) implies added_since(
            fin,
            start,
            #[trigger] flagged(f, t, c),
        ) by {
            let d = pawn_step(us);
            if t == f + d - 1 && f % 8 != 0 {
                assert(attack_left.has(t));
                assert(left.has(t));
                assert(t + back_left == f);
                if on_last_rank(us, t) {
                    assert(left_promos.has(t));
                    lemma_lift(a5, fin, start, a4.len() as int, flagged(f, t, c));
                } else {
                    assert(left_captures.has(t));
                    lemma_lift(a4, fin, start, b4.len() as int, flagged(f, t, c));
                }
            } else {
                assert(attack_right.has(t));
                assert(right.has(t));
                assert(t + back_right == f);
                if on_last_rank(us, t) {
                    assert(right_promos.has(t));
                    lemma_added_grows_from(fin, fin, start, a6.len() as int, flagged(f, t, c));
                } else {
                    assert(right_captures.has(t));
                    lemma_lift(a6, fin, start, a5.len() as int, flagged(f, t, c));
                }
            }
        }
        assert forall|i: int| start <= i < fin.len() implies pawn_rule(
            pawns,
            us,
            empty,
            their,
            ep,
            (#[trigger] fin[i]).from_spec(),
            fin[i].to_spec(),
            fin[i].code(),
        ) by {
            let m = fin[i];
            let q = m.to_spec();
            if i < a4.len() {
                assert(a4[i] == m);
                assert(left_captures.has(q));
                assert(attack_left.has(q));
                assert(m.from_spec() == q + back_left);
            } else if i < a5.len() {
                assert(a5[i] == m);
                assert(left_promos.has(q));
                assert(attack_left.has(q));
                assert(m.from_spec() == q + back_left);
            } else if i < a6.len() {
                assert(a6[i] == m);
                assert(right_captures.has(q));
                assert(attack_right.has(q));
                assert(m.from_spec() == q + back_right);
            } else {
                assert(right_promos.has(q));
                assert(attack_right.has(q));
                assert(m.from_spec() == q + back_right);
            }
        }
    }
}

/// En-passant captures of side `us` onto the target `ep`.
fn gen_pawn_ep(pawns: Bitboard, us: Color, empty: Bitboard, their: Bitboard, ep: Option<u8>, out: &mut Vec<Move>)
    requires
        ep matches Some(e) ==> e < 64,
    ensures
        old(out)@.is_prefix_of(final(out)@),
        sourced_from(final(out)@, old(out)@.len() as int, pawns),
        lands_in(final(out)@, old(out)@.len() as int, empty, their, ep),
        forall|f: int, t: int, c: int|
            ep_rule(pawns, us, ep, f, t, c) ==> added_since(
                final(out)@,
                old(out)@.len() as int,
                #[trigger] flagged(f, t, c),
            ),
        pawn_sound(final(out)@, old(out)@.len() as int, pawns, us, empty, their, ep),
        distinct_since(final(out)@, old(out)@.len() as int),
        final(out)@.len() <= old(out)@.len() + 2,
        forall|i: int| old(out)@.len() <= i < final(out)@.len() ==> (#[trigger] final(out)@[i]).code() == 8,
{
    let ghost start = out@.len() as int;
    let white = us == Color::White;
    if let Some(ep_sq) = ep {
        let attack_left = if white { pawns.north_west() } else { pawns.south_west() };
        let attack_right = if white { pawns.north_east() } else { pawns.south_east() };
        let back_left: i16 = if white { -7 } else { 9 };
        let back_right: i16 = if white { -9 } else { 7 };
        {
            let ep_bb = Bitboard::from_square(ep_sq);
            let left_ep = attack_left.intersect(ep_bb);
            let right_ep = attack_right.intersect(ep_bb);
            if !left_ep.is_empty() {
                assert(attack_left.has(ep_sq as int));
                let from = (ep_sq as i16 + back_left) as u8;
                let mut mv = Move::new(from, ep_sq);
                mv.set_en_passant(true);
                out.push(mv);
                proof {
                    assert(out@[start] == flagged(from as int, ep_sq as int, 8));
                }
            }
            let ghost mid = out@;
            if !right_ep.is_empty() {
                assert(attack_right.has(ep_sq as int));
                let from = (ep_sq as i16 + back_right) as u8;
                let mut mv = Move::new(from, ep_sq);
                mv.set_en_passant(true);
                out.push(mv);
                proof {
                    assert(out@[mid.len() as int] == flagged(from as int, ep_sq as int, 8));
                }
            }
            proof {
                let fin = out@;
                assert(mid.len() <= start + 1 && fin.len() <= mid.len() + 1);
                assert forall|k: int| start <= k < fin.len() implies (#[trigger] fin[k]).code() == 8
                    && (k < mid.len() ==> fin[k].from_spec() == ep_sq as int + back_left) && (k
                    >= mid.len() ==> fin[k].from_spec() == ep_sq as int + back_right) by {
                    if k < mid.len() {
                        assert(fin[k] == mid[k]);
                        assert(mid[k] == flagged(ep_sq as int + back_left, ep_sq as int, 8));
                    } else {
                        assert(fin[k] == flagged(ep_sq as int + back_right, ep_sq as int, 8));
                    }
                }
                assert forall|x: int, y: int| start <= x < y < fin.len() implies fin[x] != fin[y] by {
                    assert(x < mid.len() && y >= mid.len());
                    assert(fin[x].from_spec() != fin[y].from_spec());
                }
                assert forall|k: int| start <= k < fin.len() implies pawns.has(
                    #[trigger] fin[k].from_spec(),
                ) && fin[k].to_spec() == ep_sq as int by {
                    if k < mid.len() {
                        assert(fin[k] == mid[k]);
                    }
                }
                assert forall|k: int| start <= k < fin.len() implies empty.has(
                    #[trigger] fin[k].to_spec(),
                ) || their.has(fin[k].to_spec()) || ep == Some(fin[k].to_spec() as u8) by {
                    assert(fin[k].to_spec() == ep_sq as int);
                }
                assert forall|f: int, t: int, c: int| ep_rule(pawns, us, ep, f, t, c) implies added_since(
                    fin,
                    start,
                    #[trigger] flagged(f, t, c),
                ) by {
                    let d = pawn_step(us);
                    assert(t == ep_sq as int);
                    if t == f + d - 1 && f % 8 != 0 {
                        assert(attack_left.has(t));
                        assert(left_ep.has(t));
                        assert(fin[start] == flagged(f, t, c));
                    } else {
                        assert(attack_right.has(t));
                        assert(right_ep.has(t));
                        assert(fin[mid.len() as int] == flagged(f, t, c));
                    }
                }
                assert forall|i: int| start <= i < fin.len() implies pawn_rule(
                    pawns,
                    us,
                    empty,
                    their,
                    ep,
                    (#[trigger] fin[i]).from_spec(),
                    fin[i].to_spec(),
                    fin[i].code(),
                ) by {
                    let m = fin[i];
                    if i < mid.len() {
                        assert(mid[i] == m);
                        assert(m == flagged(ep_sq as int + back_left, ep_sq as int, 8));
                        assert(attack_left.has(ep_sq as int));
                    } else {
                        assert(m == flagged(ep_sq as int + back_right, ep_sq as int, 8));
                        assert(attack_right.has(ep_sq as int));
                    }
                }
            }
        }
    }
}

/// Pawn moves of side `us`: single and double pushes, captures to either
/// side, promotions (four each) and en-passant captures.
fn gen_pawn_moves(pos: &Position, us: Color, their_pieces: Bitboard, empty: Bitboard, out: &mut Vec<Move>)
    requires
        pos.wf(),
    ensures
        old(out)@.is_prefix_of(final(out)@),
        sourced_from(final(out)@, old(out)@.len() as int, pos.set_of(us, PieceKind::Pawn)),
        lands_in(final(out)@, old(out)@.len() as int, empty, their_pieces, pos.en_passant),
        forall|f: int, t: int, c: int|
            pawn_rule(pos.set_of(us, PieceKind::Pawn), us, empty, their_pieces, pos.en_passant, f, t, c)
                ==> added_since(final(out)@, old(out)@.len() as int, #[trigger] flagged(f, t, c)),
        pawn_sound(
            final(out)@,
            old(out)@.len() as int,
            pos.set_of(us, PieceKind::Pawn),
            us,
            empty,
            their_pieces,
            pos.en_passant,
        ),
        distinct_since(final(out)@, old(out)@.len() as int),
{
    let pawns = pos.bitboards.pieces(us, PieceKind::Pawn);
    let ep = pos.en_passant;
    let ghost start = out@.len() as int;
    gen_pawn_pushes(pawns, us, empty, their_pieces, ep, out);
    let ghost a1 = out@;
    gen_pawn_captures(pawns, us, empty, their_pieces, ep, out);
    let ghost a2 = out@;
    proof {
        lemma_sourced_chain(a1, a2, start, pawns);
        lemma_lands_chain_all(a1, a2, start, empty, their_pieces, ep);
        lemma_pawn_sound_chain(a1, a2, start, pawns, us, empty, their_pieces, ep);
    }
    gen_pawn_ep(pawns, us, empty, their_pieces, ep, out);
    proof {
        let fin = out@;
        lemma_sourced_chain(a2, fin, start, pawns);
        lemma_lands_chain_all(a2, fin, start, empty, their_pieces, ep);
        lemma_pawn_sound_chain(a2, fin, start, pawns, us, empty, their_pieces, ep);
        let d = pawn_step(us);
        assert forall|i: int| start <= i < a2.len() implies (#[trigger] fin[i]) == a2[i] by {}
        assert forall|i: int| start <= i < a1.len() implies (#[trigger] fin[i]) == a1[i] by {}
        assert forall|i: int, j: int| start <= i < a1.len() <= j < a2.len() implies fin[i] != fin[j] by {
            assert(fin[i] == a1[i] && fin[j] == a2[j] && a2[i] == a1[i]);
            assert(a1[i].from_spec() - a1[i].to_spec() == -d || a1[i].from_spec() - a1[i].to_spec() == -2 * d);
            assert(a2[j].from_spec() - a2[j].to_spec() == 1 - d || a2[j].from_spec() - a2[j].to_spec() == -1 - d);
        }
        assert forall|i: int, j: int| start <= i < j < a1.len() implies fin[i] != fin[j] by {
            assert(fin[i] == a1[i] && fin[j] == a1[j]);
        }
        assert forall|i: int, j: int| a1.len() <= i < j < a2.len() implies fin[i] != fin[j] by {
            assert(fin[i] == a2[i] && fin[j] == a2[j]);
        }
        lemma_join_distinct(fin, start, a1.len() as int, a2.len() as int);
        assert forall|i: int, j: int| start <= i < a2.len() <= j < fin.len() implies fin[i] != fin[j] by {
            assert(fin[i] == a2[i]);
            if i < a1.len() {
                assert(a2[i] == a1[i]);
                assert(a1[i].code() <= 4);
            } else {
                assert(a2[i].code() <= 4);
            }
            assert(fin[j].code() == 8);
        }
        lemma_join_distinct(fin, start, a2.len() as int, fin.len() as int);
        assert forall|f: int, t: int, c: int|
            pawn_rule(pawns, us, empty, their_pieces, ep, f, t, c) implies added_since(
            fin,
            start,
            #[trigger] flagged(f, t, c),
        ) by {
            if push_rule(pawns, us, empty, f, t, c) {
                lemma_lift(a1, fin, start, start, flagged(f, t, c));
            } else if capture_rule(pawns, us, their_pieces, f, t, c) {
                lemma_lift(a2, fin, start, a1.len() as int, flagged(f, t, c));
            } else {
                lemma_added_grows_from(fin, fin, start, a2.len() as int, flagged(f, t, c));
            }
        }
    }
}

/// Moves of every piece of side `us` and kind `kind` (knight, bishop,
/// rook, queen or king) to squares not held by `us`.
fn gen_piece_moves(pos: &Position, us: Color, kind: PieceKind, our_pieces: Bitboard, occupied: Bitboard, out: &mut Vec<Move>)
    ensures
        old(out)@.is_prefix_of(final(out)@),
        sourced_from(final(out)@, old(out)@.len() as int, pos.set_of(us, kind)),
        kind != PieceKind::Pawn ==> forall|i: int|
            old(out)@.len() <= i < final(out)@.len() ==> piece_move_ok(
                *pos,
                us,
                kind,
                occupied.0,
                our_pieces,
                #[trigger] final(out)@[i],
            ),
        kind != PieceKind::Pawn ==> forall|f: int, q: int|
            pos.set_of(us, kind).has(f) && reaches(kind, f, occupied.0, q) && !our_pieces.has(q)
                ==> added_since(final(out)@, old(out)@.len() as int, #[trigger] plain(f, q)),
{
    let mut froms = pos.bitboards.pieces(us, kind);
    loop
        invariant
            old(out)@.is_prefix_of(out@),
            forall|q: int| froms.has(q) ==> pos.set_of(us, kind).has(q),
            sourced_from(out@, old(out)@.len() as int, pos.set_of(us, kind)),
            kind != PieceKind::Pawn ==> forall|i: int|
                old(out)@.len() <= i < out@.len() ==> piece_move_ok(
                    *pos,
                    us,
                    kind,
                    occupied.0,
                    our_pieces,
                    #[trigger] out@[i],
                ),
            kind != PieceKind::Pawn ==> forall|f: int, q: int|
                pos.set_of(us, kind).has(f) && !froms.has(f) && reaches(kind, f, occupied.0, q)
                    && !our_pieces.has(q) ==> added_since(out@, old(out)@.len() as int, #[trigger] plain(f, q)),
        ensures
            forall|f: int| !froms.has(f),
        decreases froms.0,
    {
        let ghost before = out@;
        let ghost froms_before = froms;
        match froms.pop_lsb() {
            None => {
                proof {
                    assert forall|f: int| !froms.has(f) by {
                        if 0 <= f < 64 {
                            crate::bitboard::lemma_bit_zero(f as u64);
                        }
                    }
                }
                break;
            },
            Some(from) => {
                let attacks = match kind {
                    PieceKind::Knight => knight_attacks(from),
                    PieceKind::Bishop => bishop_attacks(from, occupied),
                    PieceKind::Rook => rook_attacks(from, occupied),
                    PieceKind::Queen => queen_attacks(from, occupied),
                    _ => king_attacks(from),
                };
                let targets = attacks.without(our_pieces);
                assert(forall|t: int| kind != PieceKind::Pawn ==> (targets.has(t) <==> reaches(kind, from as int, occupied.0, t) && !our_pieces.has(t)));
                push_from_square(from, targets, out);
                proof {
                    assert forall|i: int| old(out)@.len() <= i < out@.len() implies pos.set_of(
                        us,
                        kind,
                    ).has(#[trigger] out@[i].from_spec()) by {
                        if i < before.len() {
                            assert(out@[i] == before[i]);
                        }
                    }
                    if kind != PieceKind::Pawn {
                        assert forall|i: int| old(out)@.len() <= i < out@.len() implies piece_move_ok(
                            *pos,
                            us,
                            kind,
                            occupied.0,
                            our_pieces,
                            #[trigger] out@[i],
                        ) by {
                            if i < before.len() {
                                assert(out@[i] == before[i]);
                            } else {
                                assert(out@[i].from_spec() == from);
                                assert(targets.has(out@[i].to_spec()));
                                assert(pos.set_of(us, kind).has(from as int));
                            }
                        }
                    }
                    if kind != PieceKind::Pawn {
                        assert forall|f: int, q: int|
                            pos.set_of(us, kind).has(f) && !froms.has(f) && reaches(kind, f, occupied.0, q)
                                && !our_pieces.has(q) implies added_since(out@, old(out)@.len() as int, #[trigger] plain(f, q)) by {
                            if f == from {
                                assert(targets.has(q));
                                lemma_added_grows_from(before, out@, old(out)@.len() as int, before.len() as int, plain(f, q));
                            } else {
                                assert(!froms_before.has(f));
                                lemma_added_grows(before, out@, old(out)@.len() as int, plain(f, q));
                            }
                        }
                    }
                }
            },
        }
    }
}

/// Castling moves of side `us`, whose king stands on its original square:
/// only out of no check, with the squares between king and rook empty and
/// the two squares the king crosses not attacked.
fn gen_castling_moves(pos: &Position, us: Color, occupied: Bitboard, out: &mut Vec<Move>)
    requires
        pos.wf(),
    ensures
        old(out)@.is_prefix_of(final(out)@),
        sourced_from(final(out)@, old(out)@.len() as int, pos.set_of(us, PieceKind::King)),
        forall|i: int|
            old(out)@.len() <= i < final(out)@.len() ==> (#[trigger] final(out)@[i]).is_castle_spec(),
        us == pos.side_to_move && occupied.0 == pos.occ() ==> forall|f: int, t: int, c: int|
            castle_move_of(*pos, f, t, c) ==> added_since(
                final(out)@,
                old(out)@.len() as int,
                #[trigger] flagged(f, t, c),
            ),
        us == pos.side_to_move && occupied.0 == pos.occ() ==> forall|i: int|
            old(out)@.len() <= i < final(out)@.len() ==> castle_move_of(
                *pos,
                (#[trigger] final(out)@[i]).from_spec(),
                final(out)@[i].to_spec(),
                final(out)@[i].code(),
            ),
{
    let ghost start = out@.len() as int;
    if pos.in_check(us) {
        return;
    }
    let enemy = us.other();
    let (k_right, q_right, base) = match us {
        Color::White => (pos.castling.wk, pos.castling.wq, 0u8),
        Color::Black => (pos.castling.bk, pos.castling.bq, 56u8),
    };
    if !pos.bitboards.pieces(us, PieceKind::King).contains(base + 4) {
        return;
    }
    proof {
        crate::bitboard::lemma_castle_paths(occupied.0);
    }
    let mut k_pushed = false;
    if k_right {
        let path: u64 = if base == 0 {
            0x60u64
        } else {
            0x6000000000000000u64
        };
        if occupied.0 & path == 0 && !pos.is_square_attacked(base + 5, enemy)
            && !pos.is_square_attacked(base + 6, enemy) {
            let mut mv = Move::new(base + 4, base + 6);
            mv.set_castle(true);
            out.push(mv);
            k_pushed = true;
            proof {
                assert(out@[start] == flagged(base + 4, base + 6, 12));
            }
        }
    }
    let ghost mid = out@;
    assert(k_pushed ==> mid[start] == flagged(base + 4, base + 6, 12));
    if q_right {
        let path: u64 = if base == 0 {
            0x0Eu64
        } else {
            0x0E00000000000000u64
        };
        if occupied.0 & path == 0 && !pos.is_square_attacked(base + 2, enemy)
            && !pos.is_square_attacked(base + 3, enemy) {
            let ghost snap = out@;
            let mut mv = Move::new(base + 4, base + 2);
            mv.set_castle(true);
            out.push(mv);
            proof {
                assert forall|i: int| old(out)@.len() <= i < out@.len() implies pos.set_of(
                    us,
                    PieceKind::King,
                ).has(#[trigger] out@[i].from_spec()) by {
                    if i < snap.len() {
                        assert(out@[i] == snap[i]);
                    }
                }
                assert forall|i: int| old(out)@.len() <= i < out@.len() implies (
                #[trigger] out@[i]).is_castle_spec() by {
                    if i < snap.len() {
                        assert(out@[i] == snap[i]);
                    }
                }
                assert(out@[mid.len() as int] == flagged(base + 4, base + 2, 12));
            }
        }
    }
    proof {
        let fin = out@;
        if us == pos.side_to_move && occupied.0 == pos.occ() {
            assert forall|f: int, t: int, c: int| castle_move_of(*pos, f, t, c) implies added_since(
                fin,
                start,
                #[trigger] flagged(f, t, c),
            ) by {
                if t == base + 6 {
                    assert(k_pushed);
                    assert(fin[start] == mid[start]);
                } else {
                    assert(fin[mid.len() as int] == flagged(f, t, c));
                }
            }
            assert forall|i: int| start <= i < fin.len() implies castle_move_of(
                *pos,
                (#[trigger] fin[i]).from_spec(),
                fin[i].to_spec(),
                fin[i].code(),
            ) by {
                if i < mid.len() {
                    assert(mid[i] == fin[i]);
                    assert(fin[i] == flagged(base + 4, base + 6, 12));
                } else {
                    assert(fin[i] == flagged(base + 4, base + 2, 12));
                }
            }
        }
    }
}

/// All pseudo-legal moves of the side to move: moves by the rules of each
/// piece that may still leave the mover's king attacked. Each starts on a
/// square holding a piece of the side to move.
pub fn pseudo_moves(pos: &Position, out: &mut Vec<Move>)
    requires
        pos.wf(),
        from_own_piece(*pos, pos.side_to_move, old(out)@),
        all_pseudo_legal(*pos, old(out)@, 0),
    ensures
        old(out)@.is_prefix_of(final(out)@),
        from_own_piece(*pos, pos.side_to_move, final(out)@),
        all_pseudo_legal(*pos, final(out)@, 0),
        forall|f: int, q: int| piece_rule_move(*pos, f, q) ==> final(out)@.contains(#[trigger] plain(f, q)),
        forall|f: int, t: int, c: int|
            pawn_move_of(*pos, f, t, c) ==> final(out)@.contains(#[trigger] flagged(f, t, c)),
        forall|f: int, t: int, c: int|
            castle_move_of(*pos, f, t, c) ==> final(out)@.contains(#[trigger] flagged(f, t, c)),
{
    let us = pos.side_to_move;
    let them = us.other();
    let our_pieces = pos.bitboards.color(us);
    let their_pieces = pos.bitboards.color(them);
    let occupied = pos.bitboards.occupied();
    let empty = occupied.complement();
    let ghost o0 = out@;
    proof {
        lemma_kind_set_own(*pos, us, PieceKind::Pawn);
        lemma_kind_set_own(*pos, us, PieceKind::Knight);
        lemma_kind_set_own(*pos, us, PieceKind::Bishop);
        lemma_kind_set_own(*pos, us, PieceKind::Rook);
        lemma_kind_set_own(*pos, us, PieceKind::Queen);
        lemma_kind_set_own(*pos, us, PieceKind::King);
    }
    gen_pawn_moves(pos, us, their_pieces, empty, out);
    let ghost p1 = out@;
    proof {
        lemma_extend_own(*pos, us, o0, out@, pos.set_of(us, PieceKind::Pawn));
        assert(empty == Bitboard(!pos.occ()));
        assert forall|i: int| o0.len() <= i < out@.len() implies pseudo_legal(*pos, #[trigger] out@[i]) by {
            assert(pawn_rule(
                pos.set_of(us, PieceKind::Pawn),
                us,
                empty,
                their_pieces,
                pos.en_passant,
                out@[i].from_spec(),
                out@[i].to_spec(),
                out@[i].code(),
            ));
        }
        lemma_pseudo_chain(*pos, o0, out@);
    }
    let ghost o1 = out@;
    gen_piece_moves(pos, us, PieceKind::Knight, our_pieces, occupied, out);
    proof {
        lemma_extend_own(*pos, us, o1, out@, pos.set_of(us, PieceKind::Knight));
        assert forall|i: int| o1.len() <= i < out@.len() implies pseudo_legal(*pos, #[trigger] out@[i]) by {
            assert(piece_move_ok(*pos, us, PieceKind::Knight, occupied.0, our_pieces, out@[i]));
        }
        lemma_pseudo_chain(*pos, o1, out@);
    }
    let ghost o2 = out@;
    gen_piece_moves(pos, us, PieceKind::Bishop, our_pieces, occupied, out);
    proof {
        lemma_extend_own(*pos, us, o2, out@, pos.set_of(us, PieceKind::Bishop));
        assert forall|i: int| o2.len() <= i < out@.len() implies pseudo_legal(*pos, #[trigger] out@[i]) by {
            assert(piece_move_ok(*pos, us, PieceKind::Bishop, occupied.0, our_pieces, out@[i]));
        }
        lemma_pseudo_chain(*pos, o2, out@);
    }
    let ghost o3 = out@;
    gen_piece_moves(pos, us, PieceKind::Rook, our_pieces, occupied, out);
    proof {
        lemma_extend_own(*pos, us, o3, out@, pos.set_of(us, PieceKind::Rook));
        assert forall|i: int| o3.len() <= i < out@.len() implies pseudo_legal(*pos, #[trigger] out@[i]) by {
            assert(piece_move_ok(*pos, us, PieceKind::Rook, occupied.0, our_pieces, out@[i]));
        }
        lemma_pseudo_chain(*pos, o3, out@);
    }
    let ghost o4 = out@;
    gen_piece_moves(pos, us, PieceKind::Queen, our_pieces, occupied, out);
    proof {
        lemma_extend_own(*pos, us, o4, out@, pos.set_of(us, PieceKind::Queen));
        assert forall|i: int| o4.len() <= i < out@.len() implies pseudo_legal(*pos, #[trigger] out@[i]) by {
            assert(piece_move_ok(*pos, us, PieceKind::Queen, occupied.0, our_pieces, out@[i]));
        }
        lemma_pseudo_chain(*pos, o4, out@);
    }
    let ghost o5 = out@;
    gen_piece_moves(pos, us, PieceKind::King, our_pieces, occupied, out);
    proof {
        lemma_extend_own(*pos, us, o5, out@, pos.set_of(us, PieceKind::King));
        assert forall|i: int| o5.len() <= i < out@.len() implies pseudo_legal(*pos, #[trigger] out@[i]) by {
            assert(piece_move_ok(*pos, us, PieceKind::King, occupied.0, our_pieces, out@[i]));
        }
        lemma_pseudo_chain(*pos, o5, out@);
    }
    let ghost o6 = out@;
    gen_castling_moves(pos, us, occupied, out);
    proof {
        lemma_extend_own(*pos, us, o6, out@, pos.set_of(us, PieceKind::King));
        assert forall|i: int| o6.len() <= i < out@.len() implies pseudo_legal(*pos, #[trigger] out@[i]) by {
            assert(pos.set_of(us, PieceKind::King).has(out@[i].from_spec()));
            assert(out@[i].is_castle_spec());
        }
        lemma_pseudo_chain(*pos, o6, out@);
    }
    proof {
        let fin = out@;
        assert forall|f: int, q: int| piece_rule_move(*pos, f, q) implies fin.contains(#[trigger] plain(f, q)) by {
            let own = pos.bitboards.side_set(us.index());
            let occ = pos.occ();
            if pos.set_of(us, PieceKind::Knight).has(f) && reaches(PieceKind::Knight, f, occ, q) && !own.has(q) {
                lemma_added_contains(o2, fin, o1.len() as int, plain(f, q));
            } else if pos.set_of(us, PieceKind::Bishop).has(f) && reaches(PieceKind::Bishop, f, occ, q) && !own.has(q) {
                lemma_added_contains(o3, fin, o2.len() as int, plain(f, q));
            } else if pos.set_of(us, PieceKind::Rook).has(f) && reaches(PieceKind::Rook, f, occ, q) && !own.has(q) {
                lemma_added_contains(o4, fin, o3.len() as int, plain(f, q));
            } else if pos.set_of(us, PieceKind::Queen).has(f) && reaches(PieceKind::Queen, f, occ, q) && !own.has(q) {
                lemma_added_contains(o5, fin, o4.len() as int, plain(f, q));
            } else {
                lemma_added_contains(o6, fin, o5.len() as int, plain(f, q));
            }
        }
    }
    proof {
        let fin = out@;
        assert(empty == Bitboard(!pos.occ()));
        assert forall|f: int, t: int, c: int| pawn_move_of(*pos, f, t, c) implies fin.contains(
            #[trigger] flagged(f, t, c),
        ) by {
            lemma_added_contains(p1, fin, o0.len() as int, flagged(f, t, c));
        }
        assert forall|f: int, t: int, c: int| castle_move_of(*pos, f, t, c) implies fin.contains(
            #[trigger] flagged(f, t, c),
        ) by {
            lemma_added_contains(fin, fin, o6.len() as int, flagged(f, t, c));
        }
    }
}

/// The legal moves of the side to move, in the order the generator finds
/// them: the pseudo-legal moves after which the mover's king is not
/// attacked.
fn collect_legal(pos: &mut Position, out: &mut Vec<Move>)
    requires
        old(pos).wf(),
    ensures
        *final(pos) == *old(pos),
        from_own_piece(*old(pos), old(pos).side_to_move, final(out)@),
        all_pseudo_legal(*old(pos), final(out)@, 0),
        all_leave_king_safe(*old(pos), final(out)@),
        forall|f: int, q: int|
            piece_rule_move(*old(pos), f, q) && leaves_king_safe(*old(pos), plain(f, q))
                ==> final(out)@.contains(#[trigger] plain(f, q)),
        forall|f: int, t: int, c: int|
            pawn_move_of(*old(pos), f, t, c) && leaves_king_safe(*old(pos), flagged(f, t, c))
                ==> final(out)@.contains(#[trigger] flagged(f, t, c)),
        forall|f: int, t: int, c: int|
            castle_move_of(*old(pos), f, t, c) && leaves_king_safe(*old(pos), flagged(f, t, c))
                ==> final(out)@.contains(#[trigger] flagged(f, t, c)),        forall|m: Move| #[trigger] final(out)@.contains(m) <==> legal_move(*old(pos), m),
{
    out.clear();
    let mut pseudo: Vec<Move> = Vec::new();
    pseudo_moves(pos, &mut pseudo);
    let mover = pos.side_to_move;
    let mut i: usize = 0;
    while i < pseudo.len()
        invariant
            pos.wf(),
            mover == pos.side_to_move,
            from_own_piece(*pos, mover, out@),
            from_own_piece(*pos, mover, pseudo@),
            all_pseudo_legal(*pos, pseudo@, 0),
            all_pseudo_legal(*pos, out@, 0),
            all_leave_king_safe(*pos, out@),
            forall|f: int, q: int| piece_rule_move(*pos, f, q) ==> pseudo@.contains(#[trigger] plain(f, q)),
            forall|f: int, t: int, c: int| pawn_move_of(*pos, f, t, c) ==> pseudo@.contains(#[trigger] flagged(f, t, c)),
            forall|f: int, t: int, c: int| castle_move_of(*pos, f, t, c) ==> pseudo@.contains(#[trigger] flagged(f, t, c)),
            forall|j: int|
                0 <= j < i && leaves_king_safe(*pos, #[trigger] pseudo@[j]) ==> out@.contains(pseudo@[j]),
        decreases pseudo@.len() - i,
    {
        let mv = pseudo[i];
        let mut tmp = *pos;
        let _undo = tmp.make_move(mv);
        let ghost before = out@;
        if !tmp.in_check(mover) {
            proof {
                assert(leaves_king_safe(*pos, mv)) by {
                    assert(tmp.board@ == board_after(pos.board@, mv));
                }
            }
            out.push(mv);
            proof {
                assert(pseudo_legal(*pos, pseudo@[i as int]));
                lemma_pseudo_chain(*pos, before, out@);
                assert(out@[before.len() as int] == mv);
            }
        } else {
            proof {
                if leaves_king_safe(*pos, mv) {
                    lemma_king_safe_at_rest(*pos, mv, tmp);
                }
            }
        }
        proof {
            assert forall|j: int|
                0 <= j < i + 1 && leaves_king_safe(*pos, #[trigger] pseudo@[j]) implies out@.contains(pseudo@[j]) by {
                if j < i {
                    lemma_contains_grows(before, out@, pseudo@[j]);
                }
            }
        }
        i = i + 1;
    }
    proof {
        assert forall|m: Move| #[trigger] out@.contains(m) <==> legal_move(*pos, m) by {
            if out@.contains(m) {
                let k = choose|k: int| 0 <= k < out@.len() && out@[k] == m;
                assert(pseudo_legal(*pos, out@[k]));
                assert(leaves_king_safe(*pos, out@[k]));
            }
            if legal_move(*pos, m) {
                lemma_move_fields(m);
                let f = m.from_spec();
                let t = m.to_spec();
                let c = m.code();
                if c == 0 && piece_rule_move(*pos, f, t) {
                    assert(plain(f, t) == flagged(f, t, 0));
                    assert(out@.contains(plain(f, t)));
                } else if pawn_move_of(*pos, f, t, c) {
                    assert(out@.contains(flagged(f, t, c)));
                } else {
                    assert(out@.contains(flagged(f, t, c)));
                }
            }
        }
    }
}

/// Moves in strictly increasing order of their 16-bit words, so no move
/// stands twice.
pub open spec fn ascending(s: Seq<Move>) -> bool {
    forall|i: int, j: int| 0 <= i < j < s.len() ==> s[i].0 < s[j].0
}

/// The legal moves of `p` in increasing order of their words.
pub open spec fn legal_list(p: Position) -> Seq<Move> {
    choose|s: Seq<Move>| ascending(s) && forall|m: Move| #[trigger] s.contains(m) <==> legal_move(p, m)
}

/// Two ascending sequences holding the same moves are equal.
pub proof fn lemma_ascending_unique(a: Seq<Move>, b: Seq<Move>)
    requires
        ascending(a),
        ascending(b),
        forall|m: Move| #[trigger] a.contains(m) <==> b.contains(m),
    ensures
        a == b,
    decreases a.len() + b.len(),
{
    if a.len() == 0 {
        if b.len() > 0 {
            assert(b.contains(b[0]));
            assert(a.contains(b[0]));
            assert(false);
        }
        assert(a =~= b);
    } else {
        assert(a.contains(a[0]));
        assert(b.contains(a[0]));
        let k = choose|k: int| 0 <= k < b.len() && b[k] == a[0];
        assert(b.contains(b[0]));
        assert(a.contains(b[0]));
        let j = choose|j: int| 0 <= j < a.len() && a[j] == b[0];
        if k > 0 {
            assert(b[0].0 < b[k].0);
            if j > 0 {
                assert(a[0].0 < a[j].0);
            }
            assert(false);
        }
        assert(b[0] == a[0]);
        let a1 = a.drop_first();
        let b1 = b.drop_first();
        assert forall|m: Move| #[trigger] a1.contains(m) <==> b1.contains(m) by {
            if a1.contains(m) {
                let i = choose|i: int| 0 <= i < a1.len() && a1[i] == m;
                assert(a[i + 1] == m);
                assert(a[0].0 < m.0);
                assert(a.contains(m));
                assert(b.contains(m));
                assert(m != b[0]);
                let t = choose|t: int| 0 <= t < b.len() && b[t] == m;
                assert(t != 0);
                assert(b1[t - 1] == m);
            }
            if b1.contains(m) {
                let i = choose|i: int| 0 <= i < b1.len() && b1[i] == m;
                assert(b[i + 1] == m);
                assert(b[0].0 < m.0);
                assert(b.contains(m));
                assert(a.contains(m));
                assert(m != a[0]);
                let t = choose|t: int| 0 <= t < a.len() && a[t] == m;
                assert(t != 0);
                assert(a1[t - 1] == m);
            }
        }
        lemma_ascending_unique(a1, b1);
        assert(a.len() == b.len());
        assert forall|i: int| 0 <= i < a.len() implies a[i] == b[i] by {
            if i > 0 {
                assert(a[i] == a1[i - 1]);
                assert(b[i] == b1[i - 1]);
            }
        }
        assert(a =~= b);
    }
}

/// Put `mv` into the ascending list `out` at its place, unless it is there.
fn insert_sorted(out: &mut Vec<Move>, mv: Move)
    requires
        ascending(old(out)@),
    ensures
        ascending(final(out)@),
        forall|m: Move| #[trigger] final(out)@.contains(m) <==> (old(out)@.contains(m) || m == mv),
{
    let mut i: usize = 0;
    while i < out.len() && out[i].0 < mv.0
        invariant
            i <= out@.len(),
            forall|k: int| 0 <= k < i ==> out@[k].0 < mv.0,
        decreases out@.len() - i,
    {
        i = i + 1;
    }
    if i < out.len() && out[i].0 == mv.0 {
        proof {
            assert(out@[i as int] == mv);
            assert forall|m: Move| #[trigger] out@.contains(m) <==> (out@.contains(m) || m == mv) by {
                if m == mv {
                    assert(out@[i as int] == m);
                }
            }
        }
        return;
    }
    let ghost before = out@;
    out.insert(i, mv);
    proof {
        assert forall|x: int, y: int| 0 <= x < y < out@.len() implies out@[x].0 < out@[y].0 by {
            if y < i {
                assert(out@[x] == before[x] && out@[y] == before[y]);
            } else if y == i {
                assert(out@[x] == before[x]);
            } else if x < i {
                assert(out@[x] == before[x] && out@[y] == before[y - 1]);
                assert(before[y - 1].0 >= mv.0);
            } else if x == i {
                assert(out@[y] == before[y - 1]);
                assert(before[y - 1].0 >= mv.0);
                assert(before[i as int].0 >= mv.0);
                assert(before[y - 1].0 != mv.0 || y - 1 == i);
            } else {
                assert(out@[x] == before[x - 1] && out@[y] == before[y - 1]);
            }
        }
        assert forall|m: Move| #[trigger] out@.contains(m) <==> (before.contains(m) || m == mv) by {
            if out@.contains(m) {
                let k = choose|k: int| 0 <= k < out@.len() && out@[k] == m;
                if k < i {
                    assert(before[k] == m);
                } else if k > i {
                    assert(before[k - 1] == m);
                }
            }
            if before.contains(m) {
                let k = choose|k: int| 0 <= k < before.len() && before[k] == m;
                if k < i {
                    assert(out@[k] == m);
                } else {
                    assert(out@[k + 1] == m);
                }
            }
            if m == mv {
                assert(out@[i as int] == m);
            }
        }
    }
}

/// Fill `out` with the legal moves of the side to move, the pseudo-legal
/// moves after which the mover's king is not attacked, in increasing order
/// of their words and each once. `pos` is left as it was.
pub fn legal_moves_into(pos: &mut Position, out: &mut Vec<Move>)
    requires
        old(pos).wf(),
    ensures
        *final(pos) == *old(pos),
        final(out)@ == legal_list(*old(pos)),
        ascending(final(out)@),
        forall|m: Move| #[trigger] final(out)@.contains(m) <==> legal_move(*old(pos), m),
        from_own_piece(*old(pos), old(pos).side_to_move, final(out)@),
        all_pseudo_legal(*old(pos), final(out)@, 0),
        all_leave_king_safe(*old(pos), final(out)@),
{
    let mut kept: Vec<Move> = Vec::new();
    collect_legal(pos, &mut kept);
    out.clear();
    let mut i: usize = 0;
    while i < kept.len()
        invariant
            i <= kept@.len(),
            ascending(out@),
            forall|m: Move| #[trigger] out@.contains(m) <==> exists|k: int| 0 <= k < i && kept@[k] == m,
        decreases kept@.len() - i,
    {
        let ghost before = out@;
        insert_sorted(out, kept[i]);
        proof {
            assert forall|m: Move| #[trigger] out@.contains(m) <==> exists|k: int| 0 <= k < i + 1 && kept@[k] == m by {
                if out@.contains(m) && m != kept@[i as int] {
                    assert(before.contains(m));
                }
                if exists|k: int| 0 <= k < i + 1 && kept@[k] == m {
                    let k = choose|k: int| 0 <= k < i + 1 && kept@[k] == m;
                    if k < i {
                        assert(before.contains(m));
                    }
                }
            }
        }
        i = i + 1;
    }
    proof {
        let p = *pos;
        let us = p.side_to_move;
        assert forall|m: Move| #[trigger] out@.contains(m) <==> legal_move(p, m) by {
            if out@.contains(m) {
                let k = choose|k: int| 0 <= k < kept@.len() && kept@[k] == m;
                assert(kept@.contains(m));
            }
            if legal_move(p, m) {
                assert(kept@.contains(m));
                let k = choose|k: int| 0 <= k < kept@.len() && kept@[k] == m;
            }
        }
        assert forall|i: int| 0 <= i < out@.len() implies (#[trigger] p.at(out@[i].from_spec()) is Some
            && p.at(out@[i].from_spec())->0.color == us) by {
            assert(out@.contains(out@[i]));
            let k = choose|k: int| 0 <= k < kept@.len() && kept@[k] == out@[i];
        }
        assert forall|i: int| 0 <= i < out@.len() implies pseudo_legal(p, #[trigger] out@[i]) by {
            assert(out@.contains(out@[i]));
        }
        assert forall|i: int| 0 <= i < out@.len() implies leaves_king_safe(p, #[trigger] out@[i]) by {
            assert(out@.contains(out@[i]));
        }
        let c = legal_list(p);
        assert(ascending(c) && forall|m: Move| #[trigger] c.contains(m) <==> legal_move(p, m));
        lemma_ascending_unique(out@, c);
    }
}

/// The legal moves of the side to move.
pub fn legal_moves(pos: &Position) -> (r: Vec<Move>)
    requires
        pos.wf(),
    ensures
        from_own_piece(*pos, pos.side_to_move, r@),
        all_pseudo_legal(*pos, r@, 0),
        all_leave_king_safe(*pos, r@),
        forall|m: Move| #[trigger] r@.contains(m) <==> legal_move(*pos, m),
        r@ == legal_list(*pos),
        ascending(r@),
{
    let mut tmp = *pos;
    let mut out: Vec<Move> = Vec::new();
    legal_moves_into(&mut tmp, &mut out);
    out
}

} // verus!
