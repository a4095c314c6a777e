//! Zobrist keys: fixed pseudo-random words for each piece on each square,
//! the side to move, the four castling rights and the eight en-passant
//! files, drawn from an xorshift generator with a fixed seed.
use vstd::prelude::*;
use crate::types::Piece;

verus! {

/// Seed of the key generator.
pub const SEED: u64 = 0x123456789ABCDEF0;

/// One step of the xorshift64 generator.
pub open spec fn xorshift(x: u64) -> u64 {
    let a = x ^ (x << 13u64);
    let b = a ^ (a >> 7u64);
    b ^ (b << 17u64)
}

/// The generator's state after `n` steps from `x`.
pub open spec fn xs_iter(x: u64, n: nat) -> u64
    decreases n,
{
    if n == 0 {
        x
    } else {
        xorshift(xs_iter(x, (n - 1) as nat))
    }
}

proof fn lemma_xs_add(x: u64, a: nat, b: nat)
    ensures
        xs_iter(xs_iter(x, a), b) == xs_iter(x, a + b),
    decreases b,
{
    if b > 0 {
        lemma_xs_add(x, a, (b - 1) as nat);
    }
}

fn xorshift64(x: u64) -> (r: u64)
    ensures
        r == xorshift(x),
{
    let a = x ^ (x << 13u64);
    let b = a ^ (a >> 7u64);
    b ^ (b << 17u64)
}

/// Sixty-four consecutive outputs of the generator after `state`, and the
/// state after the last.
fn fill_row(state: u64) -> (r: ([u64; 64], u64))
    ensures
        forall|i: int| 0 <= i < 64 ==> r.0@[i] == xs_iter(state, (i + 1) as nat),
        r.1 == xs_iter(state, 64),
{
    let mut row = [0u64; 64];
    let mut st = state;
    let mut i: usize = 0;
    while i < 64
        invariant
            i <= 64,
            st == xs_iter(state, i as nat),
            forall|j: int| 0 <= j < i ==> row@[j] == xs_iter(state, (j + 1) as nat),
        decreases 64 - i,
    {
        st = xorshift64(st);
        row[i] = st;
        i = i + 1;
    }
    (row, st)
}

/// The keys of the position hash.
pub struct ZobristKeys {
    /// Keys by side index, kind index and square.
    pub pieces: [[[u64; 64]; 6]; 2],
    /// Key of Black to move.
    pub side_to_move: u64,
    /// Keys of the castling rights: white king side, white queen side,
    /// black king side, black queen side.
    pub castling: [u64; 4],
    /// Keys of the en-passant files a to h.
    pub en_passant: [u64; 8],
}

impl ZobristKeys {
    /// The keys in the order they are drawn: pieces by side, kind and
    /// square, then the side to move, the four castling rights and the
    /// eight en-passant files.
    pub fn new() -> (r: ZobristKeys)
        ensures
            forall|c: int, k: int, s: int|
                0 <= c < 2 && 0 <= k < 6 && 0 <= s < 64 ==> #[trigger] r.pieces@[c]@[k]@[s]
                    == xs_iter(SEED, (c * 384 + k * 64 + s + 1) as nat),
            r.side_to_move == xs_iter(SEED, 769),
            forall|i: int| 0 <= i < 4 ==> #[trigger] r.castling@[i] == xs_iter(SEED, (770 + i) as nat),
            forall|i: int| 0 <= i < 8 ==> #[trigger] r.en_passant@[i] == xs_iter(SEED, (774 + i) as nat),
    {
        let mut pieces = [[[0u64; 64]; 6]; 2];
        let mut state = SEED;
        let mut c: usize = 0;
        while c < 2
            invariant
                c <= 2,
                state == xs_iter(SEED, (c * 384) as nat),
                forall|c2: int, k: int, s: int|
                    0 <= c2 < c && 0 <= k < 6 && 0 <= s < 64 ==> #[trigger] pieces@[c2]@[k]@[s]
                        == xs_iter(SEED, (c2 * 384 + k * 64 + s + 1) as nat),
            decreases 2 - c,
        {
            let mut plane = [[0u64; 64]; 6];
            let mut k: usize = 0;
            while k < 6
                invariant
                    c < 2,
                    k <= 6,
                    state == xs_iter(SEED, (c * 384 + k * 64) as nat),
                    forall|k2: int, s: int|
                        0 <= k2 < k && 0 <= s < 64 ==> #[trigger] plane@[k2]@[s] == xs_iter(
                            SEED,
                            (c * 384 + k2 * 64 + s + 1) as nat,
                        ),
                decreases 6 - k,
            {
                let (row, next) = fill_row(state);
                proof {
                    assert forall|s: int| 0 <= s < 64 implies row@[s] == xs_iter(
                        SEED,
                        (c * 384 + k * 64 + s + 1) as nat,
                    ) by {
                        lemma_xs_add(SEED, (c * 384 + k * 64) as nat, (s + 1) as nat);
                    }
                    lemma_xs_add(SEED, (c * 384 + k * 64) as nat, 64);
                }
                plane[k] = row;
                state = next;
                k = k + 1;
            }
            pieces[c] = plane;
            c = c + 1;
        }
        state = xorshift64(state);
        let side_to_move = state;
        let mut castling = [0u64; 4];
        let mut i: usize = 0;
        while i < 4
            invariant
                i <= 4,
                state == xs_iter(SEED, (769 + i) as nat),
                side_to_move == xs_iter(SEED, 769),
                forall|j: int| 0 <= j < i ==> #[trigger] castling@[j] == xs_iter(SEED, (770 + j) as nat),
            decreases 4 - i,
        {
            state = xorshift64(state);
            castling[i] = state;
            i = i + 1;
        }
        let mut en_passant = [0u64; 8];
        let mut i: usize = 0;
        while i < 8
            invariant
                i <= 8,
                state == xs_iter(SEED, (773 + i) as nat),
                forall|j: int| 0 <= j < i ==> #[trigger] en_passant@[j] == xs_iter(SEED, (774 + j) as nat),
            decreases 8 - i,
        {
            state = xorshift64(state);
            en_passant[i] = state;
            i = i + 1;
        }
        ZobristKeys { pieces, side_to_move, castling, en_passant }
    }

    /// Key of a piece on a square.
    pub fn piece_key(&self, piece: Piece, sq: u8) -> (r: u64)
        requires
            sq < 64,
        ensures
            r == self.pieces@[piece.color.index()]@[piece.kind.index()]@[sq as int],
    {
        self.pieces[piece.color.idx()][piece.kind.idx()][sq as usize]
    }

    /// Key of castling right `index`: 0 white king side, 1 white queen
    /// side, 2 black king side, 3 black queen side.
    pub fn castling_key(&self, index: usize) -> (r: u64)
        requires
            index < 4,
        ensures
            r == self.castling@[index as int],
    {
        self.castling[index]
    }

    /// Key of an en-passant file, 0 (a) to 7 (h).
    pub fn ep_key(&self, file: u8) -> (r: u64)
        requires
            file < 8,
        ensures
            r == self.en_passant@[file as int],
    {
        self.en_passant[file as usize]
    }
}


impl Default for ZobristKeys {
    /// The keys of `ZobristKeys::new`.
    fn default() -> (r: ZobristKeys)
        ensures
            forall|c: int, k: int, s: int|
                0 <= c < 2 && 0 <= k < 6 && 0 <= s < 64 ==> #[trigger] r.pieces@[c]@[k]@[s]
                    == xs_iter(SEED, (c * 384 + k * 64 + s + 1) as nat),
            r.side_to_move == xs_iter(SEED, 769),
            forall|i: int| 0 <= i < 4 ==> #[trigger] r.castling@[i] == xs_iter(SEED, (770 + i) as nat),
            forall|i: int| 0 <= i < 8 ==> #[trigger] r.en_passant@[i] == xs_iter(SEED, (774 + i) as nat),
    {
        ZobristKeys::new()
    }
}

} // verus!
