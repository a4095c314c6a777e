//! Primitive values of the game: sides, piece kinds, pieces, squares and
//! the compact move encoding.
use vstd::prelude::*;
use vstd::string::StringSliceAdditionalSpecFns;

verus! {

/// A side in the game.
#[derive(Clone, Copy, Debug, PartialEq, Eq, Structural)]
pub enum Color {
    White,
    Black,
}

impl Color {
    /// Index of the side in per-color tables: White is 0, Black is 1.
    pub open spec fn index(self) -> int {
        match self {
            Color::White => 0,
            Color::Black => 1,
        }
    }

    pub open spec fn opposite(self) -> Color {
        match self {
            Color::White => Color::Black,
            Color::Black => Color::White,
        }
    }

    /// The opposing side.
    pub fn other(self) -> (r: Color)
        ensures
            r == self.opposite(),
    {
        match self {
            Color::White => Color::Black,
            Color::Black => Color::White,
        }
    }

    /// Index of the side in per-color tables.
    pub fn idx(self) -> (r: usize)
        ensures
            r as int == self.index(),
    {
        match self {
            Color::White => 0,
            Color::Black => 1,
        }
    }
}

/// The six kinds of chess pieces.
#[derive(Clone, Copy, Debug, PartialEq, Eq, Structural)]
pub enum PieceKind {
    Pawn,
    Knight,
    Bishop,
    Rook,
    Queen,
    King,
}

impl PieceKind {
    /// Index of the kind in per-kind tables, Pawn = 0 up to King = 5.
    pub open spec fn index(self) -> int {
        match self {
            PieceKind::Pawn => 0,
            PieceKind::Knight => 1,
            PieceKind::Bishop => 2,
            PieceKind::Rook => 3,
            PieceKind::Queen => 4,
            PieceKind::King => 5,
        }
    }

    /// The kind whose index is `i`.
    pub open spec fn of_index(i: int) -> PieceKind {
        if i == 0 {
            PieceKind::Pawn
        } else if i == 1 {
            PieceKind::Knight
        } else if i == 2 {
            PieceKind::Bishop
        } else if i == 3 {
            PieceKind::Rook
        } else if i == 4 {
            PieceKind::Queen
        } else {
            PieceKind::King
        }
    }

    /// Index of the kind in per-kind tables.
    pub fn idx(self) -> (r: usize)
        ensures
            r as int == self.index(),
    {
        match self {
            PieceKind::Pawn => 0,
            PieceKind::Knight => 1,
            PieceKind::Bishop => 2,
            PieceKind::Rook => 3,
            PieceKind::Queen => 4,
            PieceKind::King => 5,
        }
    }
}

/// A piece: its side and its kind.
#[derive(Clone, Copy, Debug, PartialEq, Eq, Structural)]
pub struct Piece {
    pub color: Color,
    pub kind: PieceKind,
}

/// Promotion code of a kind in a move: 1 = knight, 2 = bishop, 3 = rook,
/// 4 = queen, 0 for the kinds a pawn cannot become.
pub open spec fn promo_code(k: PieceKind) -> int {
    match k {
        PieceKind::Knight => 1,
        PieceKind::Bishop => 2,
        PieceKind::Rook => 3,
        PieceKind::Queen => 4,
        _ => 0,
    }
}

/// Flag field (bits 12 to 15) of a move that is an en-passant capture.
pub const EP_CODE: u16 = 8;

/// Flag field (bits 12 to 15) of a move that is a castle.
pub const CASTLE_CODE: u16 = 12;

/// A move packed into 16 bits: bits 0-5 the source square, bits 6-11 the
/// target square, bits 12-15 a flag field. A flag field of 1 to 4 is a
/// promotion (knight, bishop, rook, queen); bit 15 alone marks en passant,
/// bits 15 and 14 together mark a castle.
#[derive(Clone, Copy, Debug, PartialEq, Eq, Structural, Default)]
pub struct Move(pub u16);

impl Move {
    pub open spec fn from_spec(self) -> int {
        self.0 as int % 64
    }

    pub open spec fn to_spec(self) -> int {
        (self.0 as int / 64) % 64
    }

    pub open spec fn code(self) -> int {
        self.0 as int / 4096
    }

    pub open spec fn promo_spec(self) -> Option<PieceKind> {
        if self.code() == 1 {
            Some(PieceKind::Knight)
        } else if self.code() == 2 {
            Some(PieceKind::Bishop)
        } else if self.code() == 3 {
            Some(PieceKind::Rook)
        } else if self.code() == 4 {
            Some(PieceKind::Queen)
        } else {
            None
        }
    }

    pub open spec fn is_ep_spec(self) -> bool {
        8 <= self.code() < 12
    }

    pub open spec fn is_castle_spec(self) -> bool {
        12 <= self.code()
    }

    /// Create a plain move from one square to another.
    pub fn new(from: u8, to: u8) -> (r: Move)
        requires
            from < 64,
            to < 64,
        ensures
            r.0 == from as int + 64 * to as int,
            r.from_spec() == from,
            r.to_spec() == to,
            r.code() == 0,
    {
        Move((from as u16) + 64 * (to as u16))
    }

    /// The source square (0-63).
    pub fn from(self) -> (r: u8)
        ensures
            r as int == self.from_spec(),
            r < 64,
    {
        (self.0 % 64) as u8
    }

    /// The destination square (0-63).
    pub fn to(self) -> (r: u8)
        ensures
            r as int == self.to_spec(),
            r < 64,
    {
        ((self.0 / 64) % 64) as u8
    }

    /// The promotion piece kind, if any.
    pub fn promo(self) -> (r: Option<PieceKind>)
        ensures
            r == self.promo_spec(),
    {
        let bits = self.0 / 4096;
        if bits == 1 {
            Some(PieceKind::Knight)
        } else if bits == 2 {
            Some(PieceKind::Bishop)
        } else if bits == 3 {
            Some(PieceKind::Rook)
        } else if bits == 4 {
            Some(PieceKind::Queen)
        } else {
            None
        }
    }

    /// Replace the flag field: a promotion to `promo`, or no flag at all
    /// when `promo` is `None` or a kind that a pawn cannot become.
    pub fn set_promo(&mut self, promo: Option<PieceKind>)
        ensures
            final(self).from_spec() == old(self).from_spec(),
            final(self).to_spec() == old(self).to_spec(),
            final(self).code() == match promo {
                Some(k) => promo_code(k),
                None => 0,
            },
            final(self).0 == old(self).0 % 4096 + 4096 * match promo {
                Some(k) => promo_code(k),
                None => 0,
            },
    {
        let bits: u16 = match promo {
            None => 0,
            Some(PieceKind::Knight) => 1,
            Some(PieceKind::Bishop) => 2,
            Some(PieceKind::Rook) => 3,
            Some(PieceKind::Queen) => 4,
            Some(_) => 0,
        };
        let low = self.0 % 4096;
        self.0 = low + 4096 * bits;
    }

    /// Create a promotion move.
    pub fn with_promo(from: u8, to: u8, promo: PieceKind) -> (r: Move)
        requires
            from < 64,
            to < 64,
        ensures
            r.from_spec() == from,
            r.to_spec() == to,
            r.code() == promo_code(promo),
            r.0 == from + 64 * to + 4096 * promo_code(promo),
    {
        let mut mv = Move::new(from, to);
        mv.set_promo(Some(promo));
        mv
    }

    /// Whether this move is an en-passant capture.
    pub fn is_en_passant(self) -> (r: bool)
        ensures
            r == self.is_ep_spec(),
    {
        let bits = self.0 / 4096;
        8 <= bits && bits < 12
    }

    /// Mark the move as an en-passant capture, or clear every flag.
    pub fn set_en_passant(&mut self, value: bool)
        ensures
            final(self).from_spec() == old(self).from_spec(),
            final(self).to_spec() == old(self).to_spec(),
            value ==> final(self).code() == EP_CODE,
            value ==> final(self).0 == old(self).0 % 4096 + 4096 * EP_CODE,
            !value ==> final(self).code() == if old(self).is_ep_spec() {
                0
            } else {
                old(self).code()
            },
    {
        let low = self.0 % 4096;
        if value {
            self.0 = low + 4096 * EP_CODE;
        } else if self.is_en_passant() {
            self.0 = low;
        }
    }

    /// Whether this move is a castle.
    pub fn is_castle(self) -> (r: bool)
        ensures
            r == self.is_castle_spec(),
    {
        self.0 / 4096 >= 12
    }

    /// Mark the move as a castle, or clear the castle flag.
    pub fn set_castle(&mut self, value: bool)
        ensures
            final(self).from_spec() == old(self).from_spec(),
            final(self).to_spec() == old(self).to_spec(),
            value ==> final(self).code() == CASTLE_CODE,
            value ==> final(self).0 == old(self).0 % 4096 + 4096 * CASTLE_CODE,
            !value ==> final(self).code() == if old(self).is_castle_spec() {
                0
            } else {
                old(self).code()
            },
    {
        let low = self.0 % 4096;
        if value {
            self.0 = low + 4096 * CASTLE_CODE;
        } else if self.is_castle() {
            self.0 = low;
        }
    }
}

/// File of a square, 0 (file a) to 7 (file h).
pub fn file_of(sq: u8) -> (r: i8)
    ensures
        r as int == sq as int % 8,
{
    (sq % 8) as i8
}

/// Rank of a square, 0 (rank 1) to 7 (rank 8) for squares on the board.
pub fn rank_of(sq: u8) -> (r: i8)
    ensures
        r as int == sq as int / 8,
{
    (sq / 8) as i8
}

/// The square at a file and rank, if both are on the board.
pub fn sq(file: i8, rank: i8) -> (r: Option<u8>)
    ensures
        r == if 0 <= file < 8 && 0 <= rank < 8 {
            Some((rank * 8 + file) as u8)
        } else {
            None
        },
{
    if file >= 0 && file < 8 && rank >= 0 && rank < 8 {
        Some((rank as u8) * 8 + (file as u8))
    } else {
        None
    }
}

/// The square at a file and rank given as board coordinates.
pub fn sq_from_coords(file: u8, rank: u8) -> (r: u8)
    requires
        file < 8,
        rank < 8,
    ensures
        r == rank * 8 + file,
{
    rank * 8 + file
}

/// Algebraic text of a square as bytes: file letter then rank digit.
pub open spec fn coord_bytes(sq: int) -> Seq<u8> {
    seq![(97 + sq % 8) as u8, (49 + sq / 8) as u8]
}

/// The characters of a sequence of ASCII bytes.
pub open spec fn ascii_chars(b: Seq<u8>) -> Seq<char> {
    b.map_values(|c: u8| c as char)
}

/// Relies on `String::from_utf8`: ASCII bytes are valid UTF-8 and give
/// one character each.
#[verifier::external_body]
pub(crate) fn ascii_string(bytes: Vec<u8>) -> (r: String)
    requires
        forall|i: int| 0 <= i < bytes@.len() ==> bytes@[i] < 128,
    ensures
        r@ == ascii_chars(bytes@),
{
    String::from_utf8(bytes).unwrap_or_default()
}

/// Algebraic name of a square, such as "e4".
pub fn sq_to_coord(sq: u8) -> (r: String)
    requires
        sq < 64,
    ensures
        r@ == ascii_chars(coord_bytes(sq as int)),
{
    let mut v: Vec<u8> = Vec::new();
    v.push(97u8 + (sq % 8));
    v.push(49u8 + (sq / 8));
    assert(v@ =~= coord_bytes(sq as int));
    ascii_string(v)
}

/// The square named by two bytes, if they are a file letter a-h and a
/// rank digit 1-8.
pub open spec fn coord_of(f: u8, r: u8) -> Option<u8> {
    if 97 <= f <= 104 && 49 <= r <= 56 {
        Some(((r - 49) * 8 + (f - 97)) as u8)
    } else {
        None
    }
}

/// The square named by the text, such as "e4"; `None` unless the text is
/// exactly a file letter a-h followed by a rank digit 1-8.
pub fn coord_to_sq(c: &str) -> (r: Option<u8>)
    ensures
        r == if c.spec_bytes().len() == 2 {
            coord_of(c.spec_bytes()[0], c.spec_bytes()[1])
        } else {
            None::<u8>
        },
{
    let b = c.as_bytes();
    if b.len() != 2 {
        return None;
    }
    let f = b[0];
    let r = b[1];
    if !(97u8 <= f && f <= 104u8) || !(49u8 <= r && r <= 56u8) {
        return None;
    }
    let file = f - 97u8;
    let rank = r - 49u8;
    Some(rank * 8 + file)
}

} // verus!
