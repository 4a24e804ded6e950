use vstd::prelude::*;

verus! {

/// Whether bit `i` of `x` is set.
pub open spec fn bit(x: u64, i: u64) -> bool {
    (x >> i) & 1u64 == 1u64
}

/// The number of set bits of `x` among its `n` lowest bits.
pub open spec fn bits_below(x: u64, n: nat) -> nat
    decreases n,
{
    if n == 0 {
        0
    } else {
        bits_below(x, (n - 1) as nat) + if bit(x, (n - 1) as u64) {
            1nat
        } else {
            0nat
        }
    }
}

/// The number of set bits of `x`.
pub open spec fn popcount(x: u64) -> nat {
    bits_below(x, 64)
}

pub proof fn lemma_bit_zero(i: u64)
    by (bit_vector)
    ensures
        !bit(0u64, i),
{
}

pub proof fn lemma_bit_full(i: u64)
    by (bit_vector)
    requires
        i < 64,
    ensures
        bit(0xffff_ffff_ffff_ffffu64, i),
{
}

pub proof fn lemma_bit_single(s: u64, i: u64)
    by (bit_vector)
    requires
        s < 64,
        i < 64,
    ensures
        bit(1u64 << s, i) == (i == s),
{
}

pub proof fn lemma_bit_ops(x: u64, y: u64, i: u64)
    by (bit_vector)
    requires
        i < 64,
    ensures
        bit(x | y, i) == (bit(x, i) || bit(y, i)),
        bit(x & y, i) == (bit(x, i) && bit(y, i)),
        bit(x ^ y, i) == (bit(x, i) != bit(y, i)),
        bit(!x, i) == !bit(x, i),
{
}

pub proof fn lemma_test_single(x: u64, s: u64)
    by (bit_vector)
    requires
        s < 64,
    ensures
        ((x & (1u64 << s)) != 0u64) == bit(x, s),
{
}

pub proof fn lemma_bit_nonzero(x: u64, i: u64)
    by (bit_vector)
    ensures
        ((x >> i) & 1u64 != 0u64) == bit(x, i),
{
}

/// Two words with the same bits are equal.
pub proof fn lemma_bits_ext(x: u64, y: u64)
    requires
        forall|i: u64| i < 64 ==> bit(x, i) == bit(y, i),
    ensures
        x == y,
{
    let z = x ^ y;
    vstd::std_specs::bits::axiom_u64_trailing_zeros(z);
    let t = vstd::std_specs::bits::u64_trailing_zeros(z) as u64;
    if z != 0 {
        assert(bit(z, t));
        lemma_bit_ops(x, y, t);
        assert(false);
    }
    assert(x ^ y == 0u64 ==> x == y) by (bit_vector);
}

/// A word with no bit set is zero.
pub proof fn lemma_no_bits_zero(x: u64)
    requires
        forall|i: u64| i < 64 ==> !bit(x, i),
    ensures
        x == 0,
{
    assert forall|i: u64| i < 64 implies bit(x, i) == bit(0u64, i) by {
        lemma_bit_zero(i);
    }
    lemma_bits_ext(x, 0u64);
}

proof fn lemma_clear_lowest(x: u64, t: u64)
    by (bit_vector)
    requires
        x != 0,
        t < 64,
        bit(x, t),
        x << vstd::prelude::sub(64, t) == 0,
    ensures
        x & vstd::prelude::sub(x, 1) == x ^ (1u64 << t),
        x & vstd::prelude::sub(x, 1) < x,
{
}

proof fn lemma_shift_bits(x: u64, i: u64)
    by (bit_vector)
    requires
        i < 64,
    ensures
        bit(x << 8u64, i) == (i >= 8 && bit(x, vstd::prelude::sub(i, 8))),
        bit(x >> 8u64, i) == (i < 56 && bit(x, vstd::prelude::add(i, 8))),
        bit((x << 1u64) & !0x0101010101010101u64, i) == (i & 7 != 0 && bit(x, vstd::prelude::sub(i, 1))),
        bit((x >> 1u64) & !0x8080808080808080u64, i) == (i & 7 != 7 && bit(x, vstd::prelude::add(i, 1))),
{
}

proof fn lemma_file_of(i: u64)
    by (bit_vector)
    requires
        i < 64,
    ensures
        i & 7 == i % 8,
{
}

/// A set of board squares, one bit per square: bit `i` stands for square `i`.
#[derive(Clone, Copy, PartialEq, Eq, Debug)]
pub struct Bitboard(pub u64);

pub const FILE_A: u64 = 0x0101010101010101;
pub const FILE_B: u64 = 0x0202020202020202;
pub const FILE_C: u64 = 0x0404040404040404;
pub const FILE_D: u64 = 0x0808080808080808;
pub const FILE_E: u64 = 0x1010101010101010;
pub const FILE_F: u64 = 0x2020202020202020;
pub const FILE_G: u64 = 0x4040404040404040;
pub const FILE_H: u64 = 0x8080808080808080;

pub const RANK_1: u64 = 0x00000000000000FF;
pub const RANK_2: u64 = 0x000000000000FF00;
pub const RANK_3: u64 = 0x0000000000FF0000;
pub const RANK_4: u64 = 0x00000000FF000000;
pub const RANK_5: u64 = 0x000000FF00000000;
pub const RANK_6: u64 = 0x0000FF0000000000;
pub const RANK_7: u64 = 0x00FF000000000000;
pub const RANK_8: u64 = 0xFF00000000000000;

pub const LIGHT_SQUARES: u64 = 0x55AA55AA55AA55AA;
pub const DARK_SQUARES: u64 = 0xAA55AA55AA55AA55;

impl Bitboard {
    /// Whether square `i` belongs to the set.
    pub open spec fn has(self, i: int) -> bool {
        0 <= i < 64 && bit(self.0, i as u64)
    }

    pub fn empty() -> (r: Bitboard)
        ensures
            r.0 == 0,
            forall|i: int| !r.has(i),
    {
        proof {
            assert forall|i: int| !Bitboard(0).has(i) by {
                if 0 <= i < 64 {
                    lemma_bit_zero(i as u64);
                }
            }
        }
        Bitboard(0)
    }

    pub fn full() -> (r: Bitboard)
        ensures
            r.0 == u64::MAX,
            forall|i: int| 0 <= i < 64 ==> r.has(i),
    {
        proof {
            assert forall|i: int| 0 <= i < 64 implies Bitboard(u64::MAX).has(i) by {
                lemma_bit_full(i as u64);
            }
        }
        Bitboard(u64::MAX)
    }

    pub fn from_square(square: u8) -> (r: Bitboard)
        requires
            square < 64,
        ensures
            r.0 == 1u64 << square,
            forall|i: int| r.has(i) <==> i == square,
    {
        let r = Bitboard(1u64 << square);
        proof {
            assert forall|i: int| r.has(i) <==> i == square by {
                if 0 <= i < 64 {
                    lemma_bit_single(square as u64, i as u64);
                }
            }
        }
        r
    }

    pub fn is_empty(self) -> (r: bool)
        ensures
            r == (self.0 == 0),
            r == (forall|i: int| !self.has(i)),
    {
        proof {
            if self.0 == 0 {
                assert forall|i: int| !self.has(i) by {
                    if 0 <= i < 64 {
                        lemma_bit_zero(i as u64);
                    }
                }
            } else if forall|i: int| !self.has(i) {
                assert forall|i: u64| i < 64 implies !bit(self.0, i) by {
                    assert(!self.has(i as int));
                }
                lemma_no_bits_zero(self.0);
            }
        }
        self.0 == 0
    }

    pub fn has_square(self, square: u8) -> (r: bool)
        requires
            square < 64,
        ensures
            r == self.has(square as int),
    {
        proof {
            lemma_test_single(self.0, square as u64);
        }
        (self.0 & (1u64 << square)) != 0
    }

    pub fn set_square(&mut self, square: u8)
        requires
            square < 64,
        ensures
            forall|i: int| final(self).has(i) <==> (old(self).has(i) || i == square),
    {
        let ghost x = self.0;
        self.0 = self.0 | (1u64 << square);
        proof {
            assert forall|i: int| self.has(i) <==> (Bitboard(x).has(i) || i == square) by {
                if 0 <= i < 64 {
                    lemma_bit_ops(x, 1u64 << square, i as u64);
                    lemma_bit_single(square as u64, i as u64);
                }
            }
        }
    }

    pub fn clear_square(&mut self, square: u8)
        requires
            square < 64,
        ensures
            forall|i: int| final(self).has(i) <==> (old(self).has(i) && i != square),
    {
        let ghost x = self.0;
        self.0 = self.0 & !(1u64 << square);
        proof {
            assert forall|i: int| self.has(i) <==> (Bitboard(x).has(i) && i != square) by {
                if 0 <= i < 64 {
                    lemma_bit_ops(x, !(1u64 << square), i as u64);
                    lemma_bit_ops(1u64 << square, 0, i as u64);
                    lemma_bit_single(square as u64, i as u64);
                }
            }
        }
    }

    pub fn toggle_square(&mut self, square: u8)
        requires
            square < 64,
        ensures
            forall|i: int| final(self).has(i) <==> (old(self).has(i) != (i == square)),
    {
        let ghost x = self.0;
        self.0 = self.0 ^ (1u64 << square);
        proof {
            assert forall|i: int| self.has(i) <==> (Bitboard(x).has(i) != (i == square)) by {
                if 0 <= i < 64 {
                    lemma_bit_ops(x, 1u64 << square, i as u64);
                    lemma_bit_single(square as u64, i as u64);
                }
            }
        }
    }

    pub fn count(self) -> (r: u32)
        ensures
            r == popcount(self.0),
            r <= 64,
    {
        let mut c: u32 = 0;
        let mut i: u64 = 0;
        while i < 64
            invariant
                i <= 64,
                c == bits_below(self.0, i as nat),
                c <= i,
            decreases 64 - i,
        {
            if (self.0 >> i) & 1 == 1 {
                c = c + 1;
            }
            i = i + 1;
        }
        c
    }

    pub fn lsb(self) -> (r: Option<u8>)
        ensures
            r is None <==> self.0 == 0,
            r matches Some(s) ==> s < 64 && self.has(s as int) && forall|j: int|
                0 <= j < s ==> !self.has(j),
    {
        if self.0 == 0 {
            None
        } else {
            proof {
                vstd::std_specs::bits::axiom_u64_trailing_zeros(self.0);
            }
            let t = self.0.trailing_zeros();
            proof {
                assert forall|j: int| 0 <= j < t implies !self.has(j) by {
                    assert((self.0 >> (j as u64)) & 1u64 == 0u64);
                }
            }
            Some(t as u8)
        }
    }

    pub fn msb(self) -> (r: Option<u8>)
        ensures
            r is None <==> self.0 == 0,
            r matches Some(s) ==> s < 64 && self.has(s as int) && forall|j: int|
                s < j < 64 ==> !self.has(j),
    {
        if self.0 == 0 {
            None
        } else {
            proof {
                vstd::std_specs::bits::axiom_u64_leading_zeros(self.0);
            }
            let z = self.0.leading_zeros();
            proof {
                assert forall|j: int| 63 - z < j < 64 implies !self.has(j) by {
                    assert((self.0 >> (j as u64)) & 1u64 == 0u64);
                }
                assert((self.0 >> vstd::prelude::sub(63u64, z as u64)) & 1u64 != 0u64);
                lemma_bit_nonzero(self.0, vstd::prelude::sub(63u64, z as u64));
            }
            Some((63 - z) as u8)
        }
    }

    pub fn pop_lsb(&mut self) -> (r: Option<u8>)
        ensures
            r is None <==> old(self).0 == 0,
            r is None ==> *final(self) == *old(self),
            r matches Some(s) ==> {
                &&& s < 64
                &&& old(self).has(s as int)
                &&& forall|j: int| 0 <= j < s ==> !old(self).has(j)
                &&& forall|i: int| final(self).has(i) <==> (old(self).has(i) && i != s)
                &&& final(self).0 < old(self).0
            },
    {
        if self.0 == 0 {
            return None;
        }
        let ghost x = self.0;
        proof {
            vstd::std_specs::bits::axiom_u64_trailing_zeros(x);
        }
        let t = self.0.trailing_zeros();
        proof {
            assert forall|j: int| 0 <= j < t implies !Bitboard(x).has(j) by {
                assert((x >> (j as u64)) & 1u64 == 0u64);
            }
            lemma_clear_lowest(x, t as u64);
        }
        self.0 = self.0 & (self.0 - 1);
        proof {
            assert forall|i: int| self.has(i) <==> (Bitboard(x).has(i) && i != t) by {
                if 0 <= i < 64 {
                    lemma_bit_ops(x, 1u64 << (t as u64), i as u64);
                    lemma_bit_single(t as u64, i as u64);
                }
            }
        }
        Some(t as u8)
    }

    /// Every square moved one rank up; squares on rank 8 fall off.
    pub fn north(self) -> (r: Bitboard)
        ensures
            forall|i: int| r.has(i) <==> (8 <= i < 64 && self.has(i - 8)),
    {
        let r = Bitboard(self.0 << 8);
        proof {
            assert forall|i: int| r.has(i) <==> (8 <= i < 64 && self.has(i - 8)) by {
                if 0 <= i < 64 {
                    lemma_shift_bits(self.0, i as u64);
                }
            }
        }
        r
    }

    /// Every square moved one rank down; squares on rank 1 fall off.
    pub fn south(self) -> (r: Bitboard)
        ensures
            forall|i: int| r.has(i) <==> (0 <= i < 56 && self.has(i + 8)),
    {
        let r = Bitboard(self.0 >> 8);
        proof {
            assert forall|i: int| r.has(i) <==> (0 <= i < 56 && self.has(i + 8)) by {
                if 0 <= i < 64 {
                    lemma_shift_bits(self.0, i as u64);
                }
            }
        }
        r
    }

    /// Every square moved one file towards h; squares on file h fall off.
    pub fn east(self) -> (r: Bitboard)
        ensures
            forall|i: int| r.has(i) <==> (0 <= i < 64 && i % 8 != 0 && self.has(i - 1)),
    {
        let r = Bitboard((self.0 << 1) & !FILE_A);
        proof {
            assert forall|i: int| r.has(i) <==> (0 <= i < 64 && i % 8 != 0 && self.has(i - 1)) by {
                if 0 <= i < 64 {
                    lemma_shift_bits(self.0, i as u64);
                    lemma_file_of(i as u64);
                }
            }
        }
        r
    }

    /// Every square moved one file towards a; squares on file a fall off.
    pub fn west(self) -> (r: Bitboard)
        ensures
            forall|i: int| r.has(i) <==> (0 <= i < 64 && i % 8 != 7 && self.has(i + 1)),
    {
        let r = Bitboard((self.0 >> 1) & !FILE_H);
        proof {
            assert forall|i: int| r.has(i) <==> (0 <= i < 64 && i % 8 != 7 && self.has(i + 1)) by {
                if 0 <= i < 64 {
                    lemma_shift_bits(self.0, i as u64);
                    lemma_file_of(i as u64);
                }
            }
        }
        r
    }

    pub fn northeast(self) -> (r: Bitboard)
        ensures
            forall|i: int| r.has(i) <==> (9 <= i < 64 && i % 8 != 0 && self.has(i - 9)),
    {
        self.north().east()
    }

    pub fn northwest(self) -> (r: Bitboard)
        ensures
            forall|i: int| r.has(i) <==> (7 <= i < 64 && i % 8 != 7 && self.has(i - 7)),
    {
        self.north().west()
    }

    pub fn southeast(self) -> (r: Bitboard)
        ensures
            forall|i: int| r.has(i) <==> (0 <= i < 57 && i % 8 != 0 && self.has(i + 7)),
    {
        self.south().east()
    }

    pub fn southwest(self) -> (r: Bitboard)
        ensures
            forall|i: int| r.has(i) <==> (0 <= i < 55 && i % 8 != 7 && self.has(i + 9)),
    {
        self.south().west()
    }

    pub fn or(self, other: Bitboard) -> (r: Bitboard)
        ensures
            r.0 == self.0 | other.0,
            forall|i: int| r.has(i) <==> (self.has(i) || other.has(i)),
    {
        let r = Bitboard(self.0 | other.0);
        proof {
            assert forall|i: int| r.has(i) <==> (self.has(i) || other.has(i)) by {
                if 0 <= i < 64 {
                    lemma_bit_ops(self.0, other.0, i as u64);
                }
            }
        }
        r
    }

    pub fn and(self, other: Bitboard) -> (r: Bitboard)
        ensures
            r.0 == self.0 & other.0,
            forall|i: int| r.has(i) <==> (self.has(i) && other.has(i)),
    {
        let r = Bitboard(self.0 & other.0);
        proof {
            assert forall|i: int| r.has(i) <==> (self.has(i) && other.has(i)) by {
                if 0 <= i < 64 {
                    lemma_bit_ops(self.0, other.0, i as u64);
                }
            }
        }
        r
    }

    pub fn xor(self, other: Bitboard) -> (r: Bitboard)
        ensures
            r.0 == self.0 ^ other.0,
            forall|i: int| r.has(i) <==> (self.has(i) != other.has(i)),
    {
        let r = Bitboard(self.0 ^ other.0);
        proof {
            assert forall|i: int| r.has(i) <==> (self.has(i) != other.has(i)) by {
                if 0 <= i < 64 {
                    lemma_bit_ops(self.0, other.0, i as u64);
                }
            }
        }
        r
    }

    pub fn not(self) -> (r: Bitboard)
        ensures
            r.0 == !self.0,
            forall|i: int| r.has(i) <==> (0 <= i < 64 && !self.has(i)),
    {
        let r = Bitboard(!self.0);
        proof {
            assert forall|i: int| r.has(i) <==> (0 <= i < 64 && !self.has(i)) by {
                if 0 <= i < 64 {
                    lemma_bit_ops(self.0, self.0, i as u64);
                }
            }
        }
        r
    }

    pub fn squares(self) -> (r: BitboardIterator)
        ensures
            r.0 == self,
    {
        BitboardIterator(self)
    }
}

/// The squares of a bitboard, handed out from the lowest index up.
pub struct BitboardIterator(pub Bitboard);

impl BitboardIterator {
    pub fn next(&mut self) -> (r: Option<u8>)
        ensures
            r is None <==> old(self).0.0 == 0,
            r is None ==> *final(self) == *old(self),
            r matches Some(s) ==> {
                &&& s < 64
                &&& old(self).0.has(s as int)
                &&& forall|j: int| 0 <= j < s ==> !old(self).0.has(j)
                &&& forall|i: int| final(self).0.has(i) <==> (old(self).0.has(i) && i != s)
            },
    {
        self.0.pop_lsb()
    }

    /// All remaining squares, in increasing order.
    pub fn collect(self) -> (r: Vec<u8>)
        ensures
            forall|k: int| 0 <= k < r@.len() ==> r@[k] < 64,
            forall|a: int, b: int| 0 <= a < b < r@.len() ==> r@[a] < r@[b],
            forall|i: int| 0 <= i < 64 ==> (self.0.has(i) <==> r@.contains(i as u8)),
    {
        let mut rest = self.0;
        let mut out: Vec<u8> = Vec::new();
        loop
            invariant
                forall|k: int| 0 <= k < out@.len() ==> out@[k] < 64,
                forall|a: int, b: int| 0 <= a < b < out@.len() ==> out@[a] < out@[b],
                forall|k: int, i: int| 0 <= k < out@.len() && rest.has(i) ==> out@[k] < i,
                forall|i: int|
                    0 <= i < 64 ==> (self.0.has(i) <==> (rest.has(i) || out@.contains(i as u8))),
            ensures
                forall|k: int| 0 <= k < out@.len() ==> out@[k] < 64,
                forall|a: int, b: int| 0 <= a < b < out@.len() ==> out@[a] < out@[b],
                forall|i: int| 0 <= i < 64 ==> (self.0.has(i) <==> out@.contains(i as u8)),
            decreases rest.0,
        {
            let ghost before = rest;
            let popped = rest.pop_lsb();
            match popped {
                None => {
                    proof {
                        assert forall|i: int| 0 <= i < 64 implies (self.0.has(i) <==> out@.contains(
                            i as u8)) by {
                            lemma_bit_zero(i as u64);
                            assert(!rest.has(i));
                        }
                    }
                    break ;
                },
                Some(s) => {
                    let ghost prev = out@;
                    out.push(s);
                    proof {
                        assert(out@ == prev.push(s));
                        assert(forall|i: int| rest.has(i) <==> (before.has(i) && i != s));
                        assert forall|i: int| 0 <= i < 64 implies (self.0.has(i) <==> (rest.has(i)
                            || out@.contains(i as u8))) by {
                            assert(self.0.has(i) <==> (before.has(i) || prev.contains(i as u8)));
                            if prev.contains(i as u8) {
                                let k = choose|k: int| 0 <= k < prev.len() && prev[k] == i as u8;
                                assert(out@[k] == i as u8);
                            }
                            if i == s {
                                assert(out@[prev.len() as int] == s);
                            }
                            if out@.contains(i as u8) {
                                let k = choose|k: int| 0 <= k < out@.len() && out@[k] == i as u8;
                                if k < prev.len() {
                                    assert(prev.contains(i as u8));
                                } else {
                                    assert(i == s);
                                }
                            }
                        }
                    }
                },
            }
        }
        out
    }
}

} // verus!
