//! Move text in the UCI style: source square, target square and an
//! optional promotion letter (q, r, b, n), such as "e2e4" or "e7e8q".
use vstd::prelude::*;
use vstd::string::StringSliceAdditionalSpecFns;
use crate::board::{lemma_made, made, start_piece, CastlingRights, Position};
use crate::movegen::{
    ascending, ep_target_empty, from_own_piece, lemma_ascending_unique, lemma_legal_fields_unique,
    legal_list, legal_move, legal_moves,
};
use crate::types::{ascii_chars, coord_bytes, coord_of, Color, Move, PieceKind};

verus! {

/// Lower-case letter of a promotion kind; 'q' for any other kind.
pub open spec fn promo_letter(k: PieceKind) -> u8 {
    match k {
        PieceKind::Rook => 114,
        PieceKind::Bishop => 98,
        PieceKind::Knight => 110,
        _ => 113,
    }
}

/// The promotion kind a letter names, either case.
pub open spec fn letter_promo(c: u8) -> Option<PieceKind> {
    if c == 113 || c == 81 {
        Some(PieceKind::Queen)
    } else if c == 114 || c == 82 {
        Some(PieceKind::Rook)
    } else if c == 98 || c == 66 {
        Some(PieceKind::Bishop)
    } else if c == 110 || c == 78 {
        Some(PieceKind::Knight)
    } else {
        None
    }
}

/// The text of a move as bytes.
pub open spec fn uci_bytes(mv: Move) -> Seq<u8> {
    let base = coord_bytes(mv.from_spec()) + coord_bytes(mv.to_spec());
    match mv.promo_spec() {
        Some(k) => base.push(promo_letter(k)),
        None => base,
    }
}

/// What a move text names: source, target and promotion, when its first
/// four bytes are two squares. A fifth byte that is no promotion letter
/// names no promotion.
pub open spec fn uci_fields(b: Seq<u8>) -> Option<(u8, u8, Option<PieceKind>)> {
    if b.len() < 4 {
        None
    } else {
        match (coord_of(b[0], b[1]), coord_of(b[2], b[3])) {
            (Some(f), Some(t)) => Some(
                (
                    f,
                    t,
                    if b.len() >= 5 {
                        letter_promo(b[4])
                    } else {
                        None
                    },
                ),
            ),
            _ => None,
        }
    }
}

/// The text of a move re-reads to its own source, target and promotion.
pub proof fn lemma_uci_round_trip(mv: Move)
    ensures
        uci_fields(uci_bytes(mv)) == Some(
            (mv.from_spec() as u8, mv.to_spec() as u8, mv.promo_spec()),
        ),
{
    let b = uci_bytes(mv);
    let f = mv.from_spec();
    let t = mv.to_spec();
    assert(b[0] == (97 + f % 8) as u8 && b[1] == (49 + f / 8) as u8);
    assert(b[2] == (97 + t % 8) as u8 && b[3] == (49 + t / 8) as u8);
    assert(coord_of(b[0], b[1]) == Some(f as u8));
    assert(coord_of(b[2], b[3]) == Some(t as u8));
}

/// The text of a move: source square, target square, then the promotion
/// letter when the move promotes.
pub fn move_to_uci(mv: Move) -> (r: String)
    ensures
        r@ == ascii_chars(uci_bytes(mv)),
{
    let from = mv.from();
    let to = mv.to();
    let mut v: Vec<u8> = Vec::new();
    v.push(97u8 + from % 8);
    v.push(49u8 + from / 8);
    v.push(97u8 + to % 8);
    v.push(49u8 + to / 8);
    match mv.promo() {
        Some(k) => {
            let ch: u8 = match k {
                PieceKind::Rook => 114,
                PieceKind::Bishop => 98,
                PieceKind::Knight => 110,
                _ => 113,
            };
            v.push(ch);
        },
        None => {},
    }
    assert(v@ =~= uci_bytes(mv));
    crate::types::ascii_string(v)
}

fn square_of(f: u8, r: u8) -> (s: Option<u8>)
    ensures
        s == coord_of(f, r),
{
    if 97u8 <= f && f <= 104u8 && 49u8 <= r && r <= 56u8 {
        Some((r - 49u8) * 8 + (f - 97u8))
    } else {
        None
    }
}

/// Source, target and promotion named by a move text.
pub fn parse_uci_fields(txt: &str) -> (r: Option<(u8, u8, Option<PieceKind>)>)
    ensures
        r == uci_fields(txt.spec_bytes()),
{
    let b = txt.as_bytes();
    if b.len() < 4 {
        return None;
    }
    let from = match square_of(b[0], b[1]) {
        Some(s) => s,
        None => {
            return None;
        },
    };
    let to = match square_of(b[2], b[3]) {
        Some(s) => s,
        None => {
            return None;
        },
    };
    let promo = if b.len() >= 5 {
        let c = b[4];
        if c == 113u8 || c == 81u8 {
            Some(PieceKind::Queen)
        } else if c == 114u8 || c == 82u8 {
            Some(PieceKind::Rook)
        } else if c == 98u8 || c == 66u8 {
            Some(PieceKind::Bishop)
        } else if c == 110u8 || c == 78u8 {
            Some(PieceKind::Knight)
        } else {
            None
        }
    } else {
        None
    };
    Some((from, to, promo))
}

/// Whether `m` has the given source, target and promotion.
pub open spec fn matches_fields(m: Move, from: u8, to: u8, promo: Option<PieceKind>) -> bool {
    m.from_spec() == from && m.to_spec() == to && m.promo_spec() == promo
}

/// The first move of `moves` with source `f`, target `t` and promotion `p`.
pub open spec fn first_match(moves: Seq<Move>, f: u8, t: u8, p: Option<PieceKind>) -> Option<Move>
    decreases moves.len(),
{
    if moves.len() == 0 {
        None
    } else if matches_fields(moves[0], f, t, p) {
        Some(moves[0])
    } else {
        first_match(moves.subrange(1, moves.len() as int), f, t, p)
    }
}

proof fn lemma_first_match_step(moves: Seq<Move>, i: int, f: u8, t: u8, p: Option<PieceKind>)
    requires
        0 <= i < moves.len(),
    ensures
        first_match(moves.subrange(i, moves.len() as int), f, t, p) == if matches_fields(
            moves[i],
            f,
            t,
            p,
        ) {
            Some(moves[i])
        } else {
            first_match(moves.subrange(i + 1, moves.len() as int), f, t, p)
        },
{
    let s = moves.subrange(i, moves.len() as int);
    assert(s[0] == moves[i]);
    assert(s.subrange(1, s.len() as int) =~= moves.subrange(i + 1, moves.len() as int));
}

/// The move text of a move names it again: in a list where a move is the
/// first with its source, target and promotion (as it is among the legal
/// moves, where those three fix the move), reading the move's text back
/// against the list gives that move, castle and en-passant flags included.
pub proof fn lemma_move_round_trip(moves: Seq<Move>, i: int)
    requires
        0 <= i < moves.len(),
        forall|j: int|
            0 <= j < i ==> !matches_fields(
                #[trigger] moves[j],
                moves[i].from_spec() as u8,
                moves[i].to_spec() as u8,
                moves[i].promo_spec(),
            ),
    ensures
        uci_fields(uci_bytes(moves[i])) == Some(
            (moves[i].from_spec() as u8, moves[i].to_spec() as u8, moves[i].promo_spec()),
        ),
        first_match(
            moves,
            moves[i].from_spec() as u8,
            moves[i].to_spec() as u8,
            moves[i].promo_spec(),
        ) == Some(moves[i]),
    decreases i,
{
    lemma_uci_round_trip(moves[i]);
    let m = moves[i];
    let f = m.from_spec() as u8;
    let t = m.to_spec() as u8;
    let p = m.promo_spec();
    assert(matches_fields(m, f, t, p));
    if i > 0 {
        let rest = moves.subrange(1, moves.len() as int);
        assert(rest[i - 1] == m);
        assert forall|j: int| 0 <= j < i - 1 implies !matches_fields(#[trigger] rest[j], f, t, p) by {
            assert(rest[j] == moves[j + 1]);
        }
        lemma_move_round_trip(rest, i - 1);
        assert(!matches_fields(moves[0], f, t, p));
    }
}

/// Move text round trip in a position reached by play: the text of any
/// legal move reads back, against the position's legal moves, as that very
/// move, castle and en-passant flags included. `moves` is the legal list
/// as the generator returns it.
pub proof fn lemma_parse_round_trip(pos: Position, moves: Seq<Move>, i: int)
    requires
        pos.wf(),
        ep_target_empty(pos),
        ascending(moves),
        forall|m: Move| #[trigger] moves.contains(m) <==> legal_move(pos, m),
        0 <= i < moves.len(),
    ensures
        legal_list(pos) == moves,
        uci_fields(uci_bytes(moves[i])) matches Some(fl) && first_match(
            legal_list(pos),
            fl.0,
            fl.1,
            fl.2,
        ) == Some(moves[i]),
{
    let c = legal_list(pos);
    assert(ascending(c) && forall|m: Move| #[trigger] c.contains(m) <==> legal_move(pos, m));
    lemma_ascending_unique(moves, c);
    let m = moves[i];
    assert(moves.contains(m));
    assert forall|j: int|
        0 <= j < i implies !matches_fields(
        #[trigger] moves[j],
        m.from_spec() as u8,
        m.to_spec() as u8,
        m.promo_spec(),
    ) by {
        if matches_fields(moves[j], m.from_spec() as u8, m.to_spec() as u8, m.promo_spec()) {
            assert(moves.contains(moves[j]));
            lemma_legal_fields_unique(pos, moves[j], m);
            assert(moves[j].0 < m.0);
        }
    }
    lemma_move_round_trip(moves, i);
}

/// The first move of `moves` with the given source, target and promotion.
pub fn find_move(moves: &Vec<Move>, from: u8, to: u8, promo: Option<PieceKind>) -> (r: Option<
    Move,
>)
    ensures
        r == first_match(moves@, from, to, promo),
{
    let mut i: usize = 0;
    assert(moves@.subrange(0, moves@.len() as int) =~= moves@);
    while i < moves.len()
        invariant
            i <= moves@.len(),
            first_match(moves@.subrange(i as int, moves@.len() as int), from, to, promo)
                == first_match(moves@, from, to, promo),
        decreases moves@.len() - i,
    {
        proof {
            lemma_first_match_step(moves@, i as int, from, to, promo);
        }
        let m = moves[i];
        if m.from() == from && m.to() == to && m.promo() == promo {
            return Some(m);
        }
        i = i + 1;
    }
    proof {
        assert(moves@.subrange(i as int, moves@.len() as int).len() == 0);
    }
    None
}

/// The move of `moves` that a move text names: the first with its
/// source, target and promotion; `None` when the text is malformed or no
/// move matches.
pub fn parse_uci_move_among(moves: &Vec<Move>, txt: &str) -> (r: Option<Move>)
    ensures
        r == match uci_fields(txt.spec_bytes()) {
            Some(fl) => first_match(moves@, fl.0, fl.1, fl.2),
            None => None,
        },
{
    match parse_uci_fields(txt) {
        Some((from, to, promo)) => find_move(moves, from, to, promo),
        None => None,
    }
}

proof fn lemma_first_match_in(moves: Seq<Move>, f: u8, t: u8, p: Option<PieceKind>)
    ensures
        first_match(moves, f, t, p) matches Some(m) ==> exists|i: int|
            0 <= i < moves.len() && moves[i] == m && matches_fields(m, f, t, p),
    decreases moves.len(),
{
    if moves.len() > 0 && !matches_fields(moves[0], f, t, p) {
        let rest = moves.subrange(1, moves.len() as int);
        lemma_first_match_in(rest, f, t, p);
        if let Some(m) = first_match(rest, f, t, p) {
            let i = choose|i: int| 0 <= i < rest.len() && rest[i] == m && matches_fields(m, f, t, p);
            assert(moves[i + 1] == m);
        }
    } else if moves.len() > 0 {
        assert(moves[0] == moves[0]);
    }
}

/// The legal move of `pos` that the text names, with its castle and
/// en-passant flags; `None` when the text names no legal move.
pub fn parse_uci_move(pos: &Position, txt: &str) -> (r: Option<Move>)
    requires
        pos.wf(),
    ensures
        uci_fields(txt.spec_bytes()) is None ==> r is None,
        r matches Some(m) ==> uci_fields(txt.spec_bytes()) matches Some(fl) && matches_fields(
            m,
            fl.0,
            fl.1,
            fl.2,
        ),
        r matches Some(m) ==> from_own_piece(*pos, pos.side_to_move, seq![m]),
        r matches Some(m) ==> legal_move(*pos, m),
        r == match uci_fields(txt.spec_bytes()) {
            Some(fl) => first_match(legal_list(*pos), fl.0, fl.1, fl.2),
            None => None,
        },
{
    let legals = legal_moves(pos);
    let r = parse_uci_move_among(&legals, txt);
    proof {
        if let Some(fl) = uci_fields(txt.spec_bytes()) {
            lemma_first_match_in(legals@, fl.0, fl.1, fl.2);
        }
        if let Some(m) = r {
            let fl = uci_fields(txt.spec_bytes())->0;
            let i = choose|i: int|
                0 <= i < legals@.len() && legals@[i] == m && matches_fields(m, fl.0, fl.1, fl.2);
            assert(pos.at(legals@[i].from_spec()) is Some);
            assert(legal_move(*pos, legals@[i]));
            assert forall|k: int| 0 <= k < seq![m].len() implies (#[trigger] pos.at(
                seq![m][k].from_spec(),
            ) is Some && pos.at(seq![m][k].from_spec())->0.color == pos.side_to_move) by {
                assert(seq![m][k] == m);
            }
        }
    }
    r
}

/// Whether the text is exactly the bytes of `w`.
fn text_is(s: &str, w: &[u8]) -> (r: bool)
    ensures
        r == (s.spec_bytes() == w@),
{
    let b = s.as_bytes();
    if b.len() != w.len() {
        return false;
    }
    let mut i: usize = 0;
    while i < b.len()
        invariant
            i <= b@.len(),
            b@.len() == w@.len(),
            b@ == s.spec_bytes(),
            forall|j: int| 0 <= j < i ==> b@[j] == w@[j],
        decreases b@.len() - i,
    {
        if b[i] != w[i] {
            return false;
        }
        i = i + 1;
    }
    assert(b@ =~= w@);
    true
}

/// The position after the move a text names, or `p` itself when the text
/// names no legal move of `p`.
pub open spec fn play_text(p: Position, t: Seq<u8>) -> Position {
    match uci_fields(t) {
        Some(fl) => match first_match(legal_list(p), fl.0, fl.1, fl.2) {
            Some(m) => made(p, m),
            None => p,
        },
        None => p,
    }
}

/// The position after playing the move texts `ts` in turn from `p`.
pub open spec fn play_texts(p: Position, ts: Seq<Seq<u8>>) -> Position
    decreases ts.len(),
{
    if ts.len() == 0 {
        p
    } else {
        play_text(play_texts(p, ts.drop_last()), ts.last())
    }
}

/// Whether `p` is the starting position: the start board, White to move,
/// every castling right, no en-passant target, clocks 0 and 1.
pub open spec fn is_start(p: Position) -> bool {
    &&& p.wf()
    &&& forall|s: int| 0 <= s < 64 ==> #[trigger] p.at(s) == start_piece(s)
    &&& p.side_to_move == Color::White
    &&& p.castling == (CastlingRights { wk: true, wq: true, bk: true, bq: true })
    &&& p.en_passant is None
    &&& p.halfmove_clock == 0
    &&& p.fullmove_number == 1
}

/// The bytes of each argument.
pub open spec fn arg_bytes(args: Seq<&str>) -> Seq<Seq<u8>> {
    args.map_values(|a: &str| a.spec_bytes())
}

/// The word "startpos".
pub open spec fn startpos_word() -> Seq<u8> {
    seq![115u8, 116u8, 97u8, 114u8, 116u8, 112u8, 111u8, 115u8]
}

/// The word "moves".
pub open spec fn moves_word() -> Seq<u8> {
    seq![109u8, 111u8, 118u8, 101u8, 115u8]
}

/// Index of the first argument after an optional leading "startpos".
pub open spec fn after_start(a: Seq<Seq<u8>>) -> int {
    if a.len() > 0 && a[0] == startpos_word() {
        1
    } else {
        0
    }
}

/// The move texts of a "position" command: the arguments after "moves",
/// which follows an optional "startpos"; none without "moves".
pub open spec fn move_args(a: Seq<Seq<u8>>) -> Seq<Seq<u8>> {
    let i0 = after_start(a);
    if i0 < a.len() && a[i0] == moves_word() {
        a.subrange(i0 + 1, a.len() as int)
    } else {
        Seq::empty()
    }
}

/// Set `pos` from the arguments of a "position" command: the start
/// position, then each move after "moves" that names a legal move is
/// played (others are skipped).
pub fn set_position_from_uci(pos: &mut Position, args: &[&str])
    ensures
        final(pos).wf(),
        exists|p0: Position| is_start(p0) && *final(pos) == play_texts(p0, move_args(arg_bytes(args@))),
{
    *pos = Position::startpos();
    let ghost p0 = *pos;
    let ghost a = arg_bytes(args@);
    assert(is_start(p0));
    if args.len() == 0 {
        assert(move_args(a) =~= Seq::<Seq<u8>>::empty());
        return;
    }
    let startpos: [u8; 8] = [115, 116, 97, 114, 116, 112, 111, 115];
    let moves_word_bytes: [u8; 5] = [109, 111, 118, 101, 115];
    assert(startpos@ =~= startpos_word());
    assert(moves_word_bytes@ =~= moves_word());
    let mut i: usize = 0;
    if text_is(args[0], &startpos) {
        i = 1;
    }
    assert(a[0] == args@[0].spec_bytes());
    assert(i as int == after_start(a));
    if i < args.len() && text_is(args[i], &moves_word_bytes) {
        assert(a[i as int] == args@[i as int].spec_bytes());
        i = i + 1;
        let ghost j0 = i as int;
        assert(a.subrange(j0, j0) =~= Seq::<Seq<u8>>::empty());
        while i < args.len()
            invariant
                pos.wf(),
                0 <= j0 <= i <= args@.len(),
                j0 == after_start(a) + 1,
                a[j0 - 1] == moves_word(),
                is_start(p0),
                a == arg_bytes(args@),
                a.len() == args@.len(),
                *pos == play_texts(p0, a.subrange(j0, i as int)),
            decreases args@.len() - i,
        {
            let ghost prev = *pos;
            let r = parse_uci_move(pos, args[i]);
            proof {
                assert(a[i as int] == args@[i as int].spec_bytes());
                let t = a.subrange(j0, i + 1);
                assert(t.drop_last() =~= a.subrange(j0, i as int));
                assert(t.last() == a[i as int]);
            }
            if let Some(mv) = r {
                proof {
                    assert(seq![mv][0] == mv);
                }
                let _undo = pos.make_move(mv);
                proof {
                    lemma_made(prev, mv, *pos);
                }
            }
            i = i + 1;
        }
        proof {
            assert(move_args(a) == a.subrange(j0, a.len() as int));
        }
    } else {
        proof {
            assert(move_args(a) =~= Seq::<Seq<u8>>::empty());
        }
    }
}

} // verus!
