//! Sets of squares held as 64-bit words: bit i is set when square i is in
//! the set (a1 = 0, h8 = 63).
use vstd::prelude::*;

verus! {

broadcast use vstd::std_specs::bits::axiom_u64_trailing_zeros;

/// Whether bit `i` of `x` is set.
pub open spec fn bit(x: u64, i: int) -> bool {
    0 <= i < 64 && (x >> (i as u64)) & 1u64 == 1u64
}

/// Number of set bits among the lowest `n` bits of `x`.
pub open spec fn pop_n(x: u64, n: nat) -> nat
    decreases n,
{
    if n == 0 {
        0
    } else {
        pop_n(x, (n - 1) as nat) + if bit(x, n - 1) {
            1nat
        } else {
            0nat
        }
    }
}

pub proof fn lemma_bit_or(a: u64, b: u64, i: u64)
    requires
        i < 64,
    ensures
        ((a | b) >> i) & 1u64 == 1u64 <==> ((a >> i) & 1u64 == 1u64 || (b >> i) & 1u64 == 1u64),
{
    assert(((a | b) >> i) & 1u64 == 1u64 <==> ((a >> i) & 1u64 == 1u64 || (b >> i) & 1u64
        == 1u64)) by (bit_vector)
        requires
            i < 64,
    ;
}

pub proof fn lemma_bit_and(a: u64, b: u64, i: u64)
    requires
        i < 64,
    ensures
        ((a & b) >> i) & 1u64 == 1u64 <==> ((a >> i) & 1u64 == 1u64 && (b >> i) & 1u64 == 1u64),
{
    assert(((a & b) >> i) & 1u64 == 1u64 <==> ((a >> i) & 1u64 == 1u64 && (b >> i) & 1u64
        == 1u64)) by (bit_vector)
        requires
            i < 64,
    ;
}

pub proof fn lemma_bit_not(a: u64, i: u64)
    requires
        i < 64,
    ensures
        ((!a) >> i) & 1u64 == 1u64 <==> !((a >> i) & 1u64 == 1u64),
{
    assert(((!a) >> i) & 1u64 == 1u64 <==> !((a >> i) & 1u64 == 1u64)) by (bit_vector)
        requires
            i < 64,
    ;
}

pub proof fn lemma_bit_single(s: u64, i: u64)
    requires
        s < 64,
        i < 64,
    ensures
        ((1u64 << s) >> i) & 1u64 == 1u64 <==> s == i,
{
    assert(((1u64 << s) >> i) & 1u64 == 1u64 <==> s == i) by (bit_vector)
        requires
            s < 64,
            i < 64,
    ;
}

pub proof fn lemma_bit_test(x: u64, s: u64)
    requires
        s < 64,
    ensures
        (x & (1u64 << s)) != 0 <==> (x >> s) & 1u64 == 1u64,
{
    assert((x & (1u64 << s)) != 0 <==> (x >> s) & 1u64 == 1u64) by (bit_vector)
        requires
            s < 64,
    ;
}

pub proof fn lemma_bit_zero(i: u64)
    requires
        i < 64,
    ensures
        !((0u64 >> i) & 1u64 == 1u64),
{
    assert(!((0u64 >> i) & 1u64 == 1u64)) by (bit_vector);
}

pub proof fn lemma_bit_xor(a: u64, b: u64, i: u64)
    requires
        i < 64,
    ensures
        ((a ^ b) >> i) & 1u64 == 1u64 <==> (((a >> i) & 1u64 == 1u64) != ((b >> i) & 1u64 == 1u64)),
{
    assert(((a ^ b) >> i) & 1u64 == 1u64 <==> (((a >> i) & 1u64 == 1u64) != ((b >> i) & 1u64
        == 1u64))) by (bit_vector)
        requires
            i < 64,
    ;
}

/// Bit `t` of `x << k` is bit `t - k` of `x`.
pub proof fn lemma_shl_bit(x: u64, k: u64, t: u64)
    requires
        k < 64,
        t < 64,
    ensures
        ((x << k) >> t) & 1u64 == 1u64 <==> (t >= k && (x >> vstd::prelude::sub(t, k)) & 1u64 == 1u64),
{
    assert(((x << k) >> t) & 1u64 == 1u64 <==> (t >= k && (x >> vstd::prelude::sub(t, k)) & 1u64 == 1u64))
        by (bit_vector)
        requires
            k < 64,
            t < 64,
    ;
}

/// Bit `t` of `x >> k` is bit `t + k` of `x`.
pub proof fn lemma_shr_bit(x: u64, k: u64, t: u64)
    requires
        k < 64,
        t < 64,
    ensures
        ((x >> k) >> t) & 1u64 == 1u64 <==> (t + k < 64 && (x >> vstd::prelude::add(t, k)) & 1u64 == 1u64),
{
    assert(((x >> k) >> t) & 1u64 == 1u64 <==> (t + k < 64 && (x >> vstd::prelude::add(t, k)) & 1u64 == 1u64))
        by (bit_vector)
        requires
            k < 64,
            t < 64,
    ;
}

/// Which squares the file and rank masks hold.
pub proof fn lemma_mask_bits(t: u64)
    requires
        t < 64,
    ensures
        (NOT_FILE_A >> t) & 1u64 == 1u64 <==> t % 8 != 0,
        (NOT_FILE_H >> t) & 1u64 == 1u64 <==> t % 8 != 7,
        (RANK_1 >> t) & 1u64 == 1u64 <==> t < 8,
        (RANK_2 >> t) & 1u64 == 1u64 <==> 8 <= t < 16,
        (RANK_4 >> t) & 1u64 == 1u64 <==> 24 <= t < 32,
        (RANK_5 >> t) & 1u64 == 1u64 <==> 32 <= t < 40,
        (RANK_7 >> t) & 1u64 == 1u64 <==> 48 <= t < 56,
        (RANK_8 >> t) & 1u64 == 1u64 <==> 56 <= t,
{
    assert((0xFEFEFEFEFEFEFEFEu64 >> t) & 1u64 == 1u64 <==> t % 8 != 0) by (bit_vector)
        requires
            t < 64,
    ;
    assert((0x7F7F7F7F7F7F7F7Fu64 >> t) & 1u64 == 1u64 <==> t % 8 != 7) by (bit_vector)
        requires
            t < 64,
    ;
    assert((0x00000000000000FFu64 >> t) & 1u64 == 1u64 <==> t < 8) by (bit_vector)
        requires
            t < 64,
    ;
    assert((0x000000000000FF00u64 >> t) & 1u64 == 1u64 <==> 8 <= t < 16) by (bit_vector)
        requires
            t < 64,
    ;
    assert((0x00000000FF000000u64 >> t) & 1u64 == 1u64 <==> 24 <= t < 32) by (bit_vector)
        requires
            t < 64,
    ;
    assert((0x000000FF00000000u64 >> t) & 1u64 == 1u64 <==> 32 <= t < 40) by (bit_vector)
        requires
            t < 64,
    ;
    assert((0x00FF000000000000u64 >> t) & 1u64 == 1u64 <==> 48 <= t < 56) by (bit_vector)
        requires
            t < 64,
    ;
    assert((0xFF00000000000000u64 >> t) & 1u64 == 1u64 <==> 56 <= t) by (bit_vector)
        requires
            t < 64,
    ;
}

/// The castling paths are empty exactly when none of their squares is
/// occupied: f1 and g1 (b1, c1 and d1 on the queen side), and the same
/// squares of rank 8.
pub proof fn lemma_castle_paths(occ: u64)
    ensures
        (occ & 0x60u64 == 0) <==> (!bit(occ, 5) && !bit(occ, 6)),
        (occ & 0x0Eu64 == 0) <==> (!bit(occ, 1) && !bit(occ, 2) && !bit(occ, 3)),
        (occ & 0x6000000000000000u64 == 0) <==> (!bit(occ, 61) && !bit(occ, 62)),
        (occ & 0x0E00000000000000u64 == 0) <==> (!bit(occ, 57) && !bit(occ, 58) && !bit(occ, 59)),
{
    assert((occ & 0x60u64 == 0) <==> (!((occ >> 5u64) & 1u64 == 1u64) && !((occ >> 6u64) & 1u64
        == 1u64))) by (bit_vector);
    assert((occ & 0x0Eu64 == 0) <==> (!((occ >> 1u64) & 1u64 == 1u64) && !((occ >> 2u64) & 1u64
        == 1u64) && !((occ >> 3u64) & 1u64 == 1u64))) by (bit_vector);
    assert((occ & 0x6000000000000000u64 == 0) <==> (!((occ >> 61u64) & 1u64 == 1u64) && !((occ
        >> 62u64) & 1u64 == 1u64))) by (bit_vector);
    assert((occ & 0x0E00000000000000u64 == 0) <==> (!((occ >> 57u64) & 1u64 == 1u64) && !((occ
        >> 58u64) & 1u64 == 1u64) && !((occ >> 59u64) & 1u64 == 1u64))) by (bit_vector);
}

/// Two words with the same bits are equal.
pub proof fn lemma_bits_ext(x: u64, y: u64)
    requires
        forall|i: int| 0 <= i < 64 ==> bit(x, i) == bit(y, i),
    ensures
        x == y,
{
    assert forall|i: int| 0 <= i < 64 implies !bit(x ^ y, i) by {
        assert(bit(x, i) == bit(y, i));
        lemma_bit_xor(x, y, i as u64);
    }
    lemma_no_bits_zero(x ^ y);
    assert(x ^ y == 0 ==> x == y) by (bit_vector);
}

/// A word with no set bit is zero.
pub proof fn lemma_no_bits_zero(x: u64)
    requires
        forall|i: int| 0 <= i < 64 ==> !bit(x, i),
    ensures
        x == 0,
{
    if x != 0 {
        let t = x.trailing_zeros();
        assert(bit(x, t as int));
    }
}

pub proof fn lemma_clear_lowest(x: u64, t: u64, i: u64)
    requires
        t < 64,
        i < 64,
        (x >> t) & 1u64 == 1u64,
        x << vstd::prelude::sub(64u64, t) == 0,
    ensures
        ((x & vstd::prelude::sub(x, 1u64)) >> i) & 1u64 == 1u64 <==> ((x >> i) & 1u64 == 1u64 && i != t),
        x & vstd::prelude::sub(x, 1u64) < x,
{
    assert(((x & vstd::prelude::sub(x, 1u64)) >> i) & 1u64 == 1u64 <==> ((x >> i) & 1u64 == 1u64 && i != t))
        by (bit_vector)
        requires
            t < 64,
            i < 64,
            (x >> t) & 1u64 == 1u64,
            x << vstd::prelude::sub(64u64, t) == 0,
    ;
    assert(x & vstd::prelude::sub(x, 1u64) < x) by (bit_vector)
        requires
            (x >> t) & 1u64 == 1u64,
            t < 64,
    ;
}

/// The squares of file a.
pub const FILE_A: u64 = 0x0101010101010101;

/// The squares of file h.
pub const FILE_H: u64 = 0x8080808080808080;

/// The squares of rank 1.
pub const RANK_1: u64 = 0x00000000000000FF;

/// The squares of rank 2.
pub const RANK_2: u64 = 0x000000000000FF00;

/// The squares of rank 4.
pub const RANK_4: u64 = 0x00000000FF000000;

/// The squares of rank 5.
pub const RANK_5: u64 = 0x000000FF00000000;

/// The squares of rank 7.
pub const RANK_7: u64 = 0x00FF000000000000;

/// The squares of rank 8.
pub const RANK_8: u64 = 0xFF00000000000000;

/// Every square.
pub const ALL_SQUARES: u64 = 0xFFFFFFFFFFFFFFFF;

/// Every square but those of file a.
pub const NOT_FILE_A: u64 = 0xFEFEFEFEFEFEFEFE;

/// Every square but those of file h.
pub const NOT_FILE_H: u64 = 0x7F7F7F7F7F7F7F7F;

/// Every square but those of files a and b.
pub const NOT_FILE_AB: u64 = 0xFCFCFCFCFCFCFCFC;

/// Every square but those of files g and h.
pub const NOT_FILE_GH: u64 = 0x3F3F3F3F3F3F3F3F;

/// A set of squares.
#[derive(Clone, Copy, Debug, PartialEq, Eq, Structural, Default)]
pub struct Bitboard(pub u64);

impl Bitboard {
    /// Whether square `s` is in the set.
    pub open spec fn has(self, s: int) -> bool {
        bit(self.0, s)
    }

    /// Number of squares in the set.
    pub open spec fn size(self) -> nat {
        pop_n(self.0, 64)
    }

    /// The set holding square `sq` alone.
    pub fn from_square(sq: u8) -> (r: Bitboard)
        requires
            sq < 64,
        ensures
            r.0 == 1u64 << sq,
            forall|i: int| r.has(i) <==> i == sq,
    {
        proof {
            assert forall|i: int| bit(1u64 << sq, i) <==> i == sq by {
                if 0 <= i < 64 {
                    lemma_bit_single(sq as u64, i as u64);
                }
            }
        }
        Bitboard(1u64 << sq)
    }

    /// Whether the set is empty.
    pub fn is_empty(self) -> (r: bool)
        ensures
            r == (self.0 == 0),
            r <==> forall|i: int| !self.has(i),
    {
        proof {
            if self.0 == 0 {
                assert forall|i: int| !self.has(i) by {
                    if 0 <= i < 64 {
                        lemma_bit_zero(i as u64);
                    }
                }
            } else {
                let t = self.0.trailing_zeros();
                assert(self.has(t as int));
            }
        }
        self.0 == 0
    }

    /// Whether square `sq` is in the set.
    pub fn contains(self, sq: u8) -> (r: bool)
        requires
            sq < 64,
        ensures
            r == self.has(sq as int),
    {
        proof {
            lemma_bit_test(self.0, sq as u64);
        }
        (self.0 & (1u64 << sq)) != 0
    }

    /// Add square `sq` to the set.
    pub fn set(&mut self, sq: u8)
        requires
            sq < 64,
        ensures
            final(self).0 == old(self).0 | (1u64 << sq),
            forall|i: int| final(self).has(i) <==> (old(self).has(i) || i == sq),
    {
        let old_v = self.0;
        self.0 = self.0 | (1u64 << sq);
        proof {
            assert forall|i: int| bit(old_v | (1u64 << sq), i) <==> (bit(old_v, i) || i == sq) by {
                if 0 <= i < 64 {
                    lemma_bit_or(old_v, 1u64 << sq, i as u64);
                    lemma_bit_single(sq as u64, i as u64);
                }
            }
        }
    }

    /// Remove square `sq` from the set.
    pub fn clear(&mut self, sq: u8)
        requires
            sq < 64,
        ensures
            final(self).0 == old(self).0 & !(1u64 << sq),
            forall|i: int| final(self).has(i) <==> (old(self).has(i) && i != sq),
    {
        let old_v = self.0;
        self.0 = self.0 & !(1u64 << sq);
        proof {
            assert forall|i: int| bit(old_v & !(1u64 << sq), i) <==> (bit(old_v, i) && i != sq) by {
                if 0 <= i < 64 {
                    lemma_bit_and(old_v, !(1u64 << sq), i as u64);
                    lemma_bit_not(1u64 << sq, i as u64);
                    lemma_bit_single(sq as u64, i as u64);
                }
            }
        }
    }

    /// Number of squares in the set.
    pub fn popcount(self) -> (r: u32)
        ensures
            r as nat == self.size(),
            r <= 64,
    {
        let mut c: u32 = 0;
        let mut i: u64 = 0;
        while i < 64
            invariant
                i <= 64,
                c as nat == pop_n(self.0, i as nat),
                c <= i,
            decreases 64 - i,
        {
            if (self.0 >> i) & 1u64 == 1u64 {
                c = c + 1;
            }
            i = i + 1;
        }
        c
    }

    /// The lowest square of the set, or `None` when it is empty.
    pub fn lsb(self) -> (r: Option<u8>)
        ensures
            r is None <==> self.0 == 0,
            r matches Some(s) ==> s as u32 == vstd::std_specs::bits::u64_trailing_zeros(self.0),
            r matches Some(s) ==> s < 64 && self.has(s as int) && forall|j: int|
                0 <= j < s ==> !self.has(j),
    {
        if self.0 == 0 {
            None
        } else {
            let t = self.0.trailing_zeros();
            proof {
                assert forall|j: int| 0 <= j < t implies !self.has(j) by {
                    assert((self.0 >> (j as u64)) & 1u64 == 0u64);
                }
            }
            Some(t as u8)
        }
    }

    /// Remove the lowest square of the set and return it.
    pub fn pop_lsb(&mut self) -> (r: Option<u8>)
        ensures
            r is None <==> old(self).0 == 0,
            r is None ==> *final(self) == *old(self),
            r matches Some(s) ==> {
                &&& s < 64
                &&& old(self).has(s as int)
                &&& forall|j: int| 0 <= j < s ==> !old(self).has(j)
                &&& forall|i: int| final(self).has(i) <==> (old(self).has(i) && i != s)
                &&& final(self).0 < old(self).0
            },
    {
        if self.0 == 0 {
            None
        } else {
            let x = self.0;
            let t = x.trailing_zeros();
            proof {
                assert forall|j: int| 0 <= j < t implies !bit(x, j) by {
                    assert((x >> (j as u64)) & 1u64 == 0u64);
                }
                assert forall|i: int| bit(x & vstd::prelude::sub(x, 1u64), i) <==> (bit(x, i) && i != t) by {
                    if 0 <= i < 64 {
                        lemma_clear_lowest(x, t as u64, i as u64);
                    }
                }
                lemma_clear_lowest(x, t as u64, 0);
            }
            self.0 = x & (x - 1);
            Some(t as u8)
        }
    }

    /// The squares of the set in increasing order.
    pub fn squares(self) -> (r: Vec<u8>)
        ensures
            forall|k: int| 0 <= k < r@.len() ==> r@[k] < 64 && self.has(r@[k] as int),
            forall|k: int, l: int| 0 <= k < l < r@.len() ==> r@[k] < r@[l],
            forall|i: int| self.has(i) ==> r@.contains(i as u8),
    {
        let mut v: Vec<u8> = Vec::new();
        let mut i: u8 = 0;
        while i < 64
            invariant
                i <= 64,
                forall|k: int| 0 <= k < v@.len() ==> v@[k] < i && self.has(v@[k] as int),
                forall|k: int, l: int| 0 <= k < l < v@.len() ==> v@[k] < v@[l],
                forall|j: int| 0 <= j < i && self.has(j) ==> v@.contains(j as u8),
            decreases 64 - i,
        {
            let ghost before = v@;
            if self.contains(i) {
                v.push(i);
                proof {
                    assert(v@[v@.len() - 1] == i);
                }
            }
            proof {
                assert forall|j: int| 0 <= j < i + 1 && self.has(j) implies v@.contains(j as u8) by {
                    if j < i {
                        let k = choose|k: int| 0 <= k < before.len() && before[k] == j as u8;
                        assert(v@[k] == j as u8);
                    } else {
                        assert(v@[v@.len() - 1] == i);
                    }
                }
            }
            i = i + 1;
        }
        v
    }

    /// Union of two sets.
    pub fn union(self, o: Bitboard) -> (r: Bitboard)
        ensures
            r.0 == self.0 | o.0,
            forall|i: int| r.has(i) <==> (self.has(i) || o.has(i)),
    {
        proof {
            assert forall|i: int| bit(self.0 | o.0, i) <==> (bit(self.0, i) || bit(o.0, i)) by {
                if 0 <= i < 64 {
                    lemma_bit_or(self.0, o.0, i as u64);
                }
            }
        }
        Bitboard(self.0 | o.0)
    }

    /// Intersection of two sets.
    pub fn intersect(self, o: Bitboard) -> (r: Bitboard)
        ensures
            r.0 == self.0 & o.0,
            forall|i: int| r.has(i) <==> (self.has(i) && o.has(i)),
    {
        proof {
            assert forall|i: int| bit(self.0 & o.0, i) <==> (bit(self.0, i) && bit(o.0, i)) by {
                if 0 <= i < 64 {
                    lemma_bit_and(self.0, o.0, i as u64);
                }
            }
        }
        Bitboard(self.0 & o.0)
    }

    /// The squares of the board that are not in the set.
    pub fn complement(self) -> (r: Bitboard)
        ensures
            r.0 == !self.0,
            forall|i: int| 0 <= i < 64 ==> (r.has(i) <==> !self.has(i)),
    {
        proof {
            assert forall|i: int| 0 <= i < 64 implies (bit(!self.0, i) <==> !bit(self.0, i)) by {
                lemma_bit_not(self.0, i as u64);
            }
        }
        Bitboard(!self.0)
    }

    /// The squares of the set that are not in `o`.
    pub fn without(self, o: Bitboard) -> (r: Bitboard)
        ensures
            r.0 == self.0 & !o.0,
            forall|i: int| r.has(i) <==> (self.has(i) && !o.has(i)),
    {
        let n = o.complement();
        self.intersect(n)
    }

    /// Shift the set one rank north (toward rank 8).
    pub fn north(self) -> (r: Bitboard)
        ensures
            r.0 == (self.0 << 8u64),
            forall|t: int| r.has(t) ==> t >= 8 && self.has(t - 8),
            forall|t: int| 8 <= t < 64 && self.has(t - 8) ==> r.has(t),
    {
        proof {
            assert forall|t: int| 8 <= t < 64 && self.has(t - 8) implies bit((self.0 << 8u64), t) by {
                lemma_shl_bit(self.0, 8u64, t as u64);
            }
            assert forall|t: int| bit((self.0 << 8u64), t) implies t >= 8 && bit(self.0, t - 8) by {
                lemma_shl_bit(self.0, 8u64, t as u64);
            }
        }
        Bitboard((self.0 << 8u64))
    }

    /// Shift the set one rank south (toward rank 1).
    pub fn south(self) -> (r: Bitboard)
        ensures
            r.0 == (self.0 >> 8u64),
            forall|t: int| r.has(t) ==> t + 8 < 64 && self.has(t + 8),
            forall|t: int| 0 <= t < 56 && self.has(t + 8) ==> r.has(t),
    {
        proof {
            assert forall|t: int| 0 <= t < 56 && self.has(t + 8) implies bit((self.0 >> 8u64), t) by {
                lemma_shr_bit(self.0, 8u64, t as u64);
            }
            assert forall|t: int| bit((self.0 >> 8u64), t) implies t + 8 < 64 && bit(self.0, t + 8) by {
                lemma_shr_bit(self.0, 8u64, t as u64);
            }
        }
        Bitboard((self.0 >> 8u64))
    }

    /// Shift the set one file east (toward file h), dropping what wraps.
    pub fn east(self) -> (r: Bitboard)
        ensures
            r.0 == (self.0 << 1u64) & 0xFEFEFEFEFEFEFEFEu64,
            forall|t: int| r.has(t) ==> t >= 1 && self.has(t - 1),
    {
        proof {
            assert forall|t: int| bit((self.0 << 1u64) & 0xFEFEFEFEFEFEFEFEu64, t) implies t >= 1 && bit(self.0, t - 1) by {
                lemma_bit_and((self.0 << 1u64), 0xFEFEFEFEFEFEFEFEu64, t as u64);
                lemma_shl_bit(self.0, 1u64, t as u64);
            }
        }
        Bitboard((self.0 << 1u64) & 0xFEFEFEFEFEFEFEFEu64)
    }

    /// Shift the set one file west (toward file a), dropping what wraps.
    pub fn west(self) -> (r: Bitboard)
        ensures
            r.0 == (self.0 >> 1u64) & 0x7F7F7F7F7F7F7F7Fu64,
            forall|t: int| r.has(t) ==> t + 1 < 64 && self.has(t + 1),
    {
        proof {
            assert forall|t: int| bit((self.0 >> 1u64) & 0x7F7F7F7F7F7F7F7Fu64, t) implies t + 1 < 64 && bit(self.0, t + 1) by {
                lemma_bit_and((self.0 >> 1u64), 0x7F7F7F7F7F7F7F7Fu64, t as u64);
                lemma_shr_bit(self.0, 1u64, t as u64);
            }
        }
        Bitboard((self.0 >> 1u64) & 0x7F7F7F7F7F7F7F7Fu64)
    }

    /// Shift the set one square north-east.
    pub fn north_east(self) -> (r: Bitboard)
        ensures
            r.0 == (self.0 << 9u64) & 0xFEFEFEFEFEFEFEFEu64,
            forall|t: int| r.has(t) ==> t >= 9 && self.has(t - 9),
            forall|t: int| 9 <= t < 64 && t % 8 != 0 && self.has(t - 9) ==> r.has(t),
            forall|t: int| r.has(t) ==> t % 8 != 0,
    {
        proof {
            assert forall|t: int| bit((self.0 << 9u64) & 0xFEFEFEFEFEFEFEFEu64, t) implies t % 8 != 0 by {
                lemma_bit_and((self.0 << 9u64), 0xFEFEFEFEFEFEFEFEu64, t as u64);
                lemma_mask_bits(t as u64);
            }
            assert forall|t: int| 9 <= t < 64 && t % 8 != 0 && self.has(t - 9) implies bit((self.0 << 9u64) & 0xFEFEFEFEFEFEFEFEu64, t) by {
                lemma_shl_bit(self.0, 9u64, t as u64);
                lemma_bit_and(self.0 << 9u64, 0xFEFEFEFEFEFEFEFEu64, t as u64);
                lemma_mask_bits(t as u64);
            }
            assert forall|t: int| bit((self.0 << 9u64) & 0xFEFEFEFEFEFEFEFEu64, t) implies t >= 9 && bit(self.0, t - 9) by {
                lemma_bit_and((self.0 << 9u64), 0xFEFEFEFEFEFEFEFEu64, t as u64);
                lemma_shl_bit(self.0, 9u64, t as u64);
            }
        }
        Bitboard((self.0 << 9u64) & 0xFEFEFEFEFEFEFEFEu64)
    }

    /// Shift the set one square north-west.
    pub fn north_west(self) -> (r: Bitboard)
        ensures
            r.0 == (self.0 << 7u64) & 0x7F7F7F7F7F7F7F7Fu64,
            forall|t: int| r.has(t) ==> t >= 7 && self.has(t - 7),
            forall|t: int| 7 <= t < 64 && t % 8 != 7 && self.has(t - 7) ==> r.has(t),
            forall|t: int| r.has(t) ==> t % 8 != 7,
    {
        proof {
            assert forall|t: int| bit((self.0 << 7u64) & 0x7F7F7F7F7F7F7F7Fu64, t) implies t % 8 != 7 by {
                lemma_bit_and((self.0 << 7u64), 0x7F7F7F7F7F7F7F7Fu64, t as u64);
                lemma_mask_bits(t as u64);
            }
            assert forall|t: int| 7 <= t < 64 && t % 8 != 7 && self.has(t - 7) implies bit((self.0 << 7u64) & 0x7F7F7F7F7F7F7F7Fu64, t) by {
                lemma_shl_bit(self.0, 7u64, t as u64);
                lemma_bit_and(self.0 << 7u64, 0x7F7F7F7F7F7F7F7Fu64, t as u64);
                lemma_mask_bits(t as u64);
            }
            assert forall|t: int| bit((self.0 << 7u64) & 0x7F7F7F7F7F7F7F7Fu64, t) implies t >= 7 && bit(self.0, t - 7) by {
                lemma_bit_and((self.0 << 7u64), 0x7F7F7F7F7F7F7F7Fu64, t as u64);
                lemma_shl_bit(self.0, 7u64, t as u64);
            }
        }
        Bitboard((self.0 << 7u64) & 0x7F7F7F7F7F7F7F7Fu64)
    }

    /// Shift the set one square south-east.
    pub fn south_east(self) -> (r: Bitboard)
        ensures
            r.0 == (self.0 >> 7u64) & 0xFEFEFEFEFEFEFEFEu64,
            forall|t: int| r.has(t) ==> t + 7 < 64 && self.has(t + 7),
            forall|t: int| 0 <= t < 57 && t % 8 != 0 && self.has(t + 7) ==> r.has(t),
            forall|t: int| r.has(t) ==> t % 8 != 0,
    {
        proof {
            assert forall|t: int| bit((self.0 >> 7u64) & 0xFEFEFEFEFEFEFEFEu64, t) implies t % 8 != 0 by {
                lemma_bit_and((self.0 >> 7u64), 0xFEFEFEFEFEFEFEFEu64, t as u64);
                lemma_mask_bits(t as u64);
            }
            assert forall|t: int| 0 <= t < 57 && t % 8 != 0 && self.has(t + 7) implies bit((self.0 >> 7u64) & 0xFEFEFEFEFEFEFEFEu64, t) by {
                lemma_shr_bit(self.0, 7u64, t as u64);
                lemma_bit_and(self.0 >> 7u64, 0xFEFEFEFEFEFEFEFEu64, t as u64);
                lemma_mask_bits(t as u64);
            }
            assert forall|t: int| bit((self.0 >> 7u64) & 0xFEFEFEFEFEFEFEFEu64, t) implies t + 7 < 64 && bit(self.0, t + 7) by {
                lemma_bit_and((self.0 >> 7u64), 0xFEFEFEFEFEFEFEFEu64, t as u64);
                lemma_shr_bit(self.0, 7u64, t as u64);
            }
        }
        Bitboard((self.0 >> 7u64) & 0xFEFEFEFEFEFEFEFEu64)
    }

    /// Shift the set one square south-west.
    pub fn south_west(self) -> (r: Bitboard)
        ensures
            r.0 == (self.0 >> 9u64) & 0x7F7F7F7F7F7F7F7Fu64,
            forall|t: int| r.has(t) ==> t + 9 < 64 && self.has(t + 9),
            forall|t: int| 0 <= t < 55 && t % 8 != 7 && self.has(t + 9) ==> r.has(t),
            forall|t: int| r.has(t) ==> t % 8 != 7,
    {
        proof {
            assert forall|t: int| bit((self.0 >> 9u64) & 0x7F7F7F7F7F7F7F7Fu64, t) implies t % 8 != 7 by {
                lemma_bit_and((self.0 >> 9u64), 0x7F7F7F7F7F7F7F7Fu64, t as u64);
                lemma_mask_bits(t as u64);
            }
            assert forall|t: int| 0 <= t < 55 && t % 8 != 7 && self.has(t + 9) implies bit((self.0 >> 9u64) & 0x7F7F7F7F7F7F7F7Fu64, t) by {
                lemma_shr_bit(self.0, 9u64, t as u64);
                lemma_bit_and(self.0 >> 9u64, 0x7F7F7F7F7F7F7F7Fu64, t as u64);
                lemma_mask_bits(t as u64);
            }
            assert forall|t: int| bit((self.0 >> 9u64) & 0x7F7F7F7F7F7F7F7Fu64, t) implies t + 9 < 64 && bit(self.0, t + 9) by {
                lemma_bit_and((self.0 >> 9u64), 0x7F7F7F7F7F7F7F7Fu64, t as u64);
                lemma_shr_bit(self.0, 9u64, t as u64);
            }
        }
        Bitboard((self.0 >> 9u64) & 0x7F7F7F7F7F7F7F7Fu64)
    }
}

} // verus!
