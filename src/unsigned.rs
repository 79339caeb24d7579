//! The capabilities a fixed-width unsigned integer needs to serve as a field
//! element: its value as a polynomial over GF(2), exclusive or, shifts,
//! comparisons, bit tests and the two identities.
use vstd::prelude::*;
use vstd::arithmetic::power2::{pow2, lemma2_to64};
use vstd::bits::{
    lemma_u8_shl_is_mul, lemma_u16_shl_is_mul, lemma_u32_shl_is_mul, lemma_u64_shl_is_mul,
    lemma_u8_shr_is_div, lemma_u16_shr_is_div, lemma_u32_shr_is_div, lemma_u64_shr_is_div,
};
use crate::poly::{xor, lead, bit_at, lemma_lead_bound};

verus! {

/// Arithmetic on the bit pattern of a fixed-width unsigned integer.
pub trait Number: Sized + Copy {
    /// The integer as a polynomial over GF(2).
    spec fn value(self) -> nat;

    /// Number of bits of the type.
    spec fn width() -> nat;

    proof fn lemma_value_range(self)
        ensures
            8 <= Self::width() <= 64,
            self.value() < pow2(Self::width()),
    ;

    fn bits() -> (r: usize)
        ensures
            r == Self::width(),
    ;

    fn xor(self, rhs: Self) -> (r: Self)
        ensures
            r.value() == xor(self.value(), rhs.value()),
    ;

    /// Shift left by one place, dropping the bit shifted out.
    fn shl_one(self) -> (r: Self)
        ensures
            r.value() == (self.value() * 2) % pow2(Self::width()),
    ;

    /// Shift left by `k` places where nothing is shifted out.
    fn shl(self, k: usize) -> (r: Self)
        requires
            k < Self::width(),
            self.value() * pow2(k as nat) < pow2(Self::width()),
        ensures
            r.value() == self.value() * pow2(k as nat),
    ;

    fn shr_one(self) -> (r: Self)
        ensures
            r.value() == self.value() / 2,
    ;

    fn less_than(self, rhs: Self) -> (r: bool)
        ensures
            r == (self.value() < rhs.value()),
    ;

    fn at_most(self, rhs: Self) -> (r: bool)
        ensures
            r == (self.value() <= rhs.value()),
    ;

    fn is_zero(self) -> (r: bool)
        ensures
            r == (self.value() == 0),
    ;
}

/// Bit tests, leading-bit position and identities of a field element.
pub trait Unsigned: Number {
    fn isset(&self, bit: usize) -> (r: bool)
        requires
            bit < Self::width(),
        ensures
            r == bit_at(self.value(), bit as nat),
    ;

    fn lmb_pos(&self) -> (r: usize)
        ensures
            r == lead(self.value()),
    ;

    fn one() -> (r: Self)
        ensures
            r.value() == 1,
    ;

    fn zero() -> (r: Self)
        ensures
            r.value() == 0,
    ;
}

/// Position of the highest set bit, found by shifting right until nothing is
/// left.
pub fn leading_bit_position<T: Number>(v: T) -> (r: usize)
    ensures
        r == lead(v.value()),
{
    let mut value = v;
    let mut bit: usize = 0;
    proof {
        v.lemma_value_range();
        lemma_lead_bound(v.value(), T::width());
    }
    while !value.is_zero()
        invariant
            lead(value.value()) + bit == lead(v.value()),
            lead(v.value()) <= 64,
        decreases value.value(),
    {
        value = value.shr_one();
        bit = bit + 1;
    }
    bit
}

proof fn lemma_xor_u64(x: u64, y: u64)
    ensures
        (x ^ y) as nat == xor(x as nat, y as nat),
    decreases x + y,
{
    if x == 0 && y == 0 {
        assert(0u64 ^ 0u64 == 0) by (bit_vector);
    } else {
        lemma_xor_u64(x / 2, y / 2);
        assert((x ^ y) / 2 == (x / 2) ^ (y / 2) && (x ^ y) % 2 == (x % 2 + y % 2) % 2)
            by (bit_vector);
    }
}

impl Number for u8 {
    open spec fn value(self) -> nat {
        self as nat
    }

    open spec fn width() -> nat {
        8
    }

    proof fn lemma_value_range(self) {
        lemma2_to64();
    }

    fn bits() -> (r: usize) {
        8
    }

    fn xor(self, rhs: Self) -> (r: Self) {
        proof {
            lemma_xor_u64(self as u64, rhs as u64);
            assert((self as u64) ^ (rhs as u64) == (self ^ rhs) as u64) by (bit_vector);
        }
        self ^ rhs
    }

    fn shl_one(self) -> (r: Self) {
        proof {
            lemma2_to64();
            assert(self << 1u8 == (self * 2) % 256) by (bit_vector);
        }
        self << 1u8
    }

    fn shl(self, k: usize) -> (r: Self) {
        proof {
            lemma2_to64();
            lemma_u8_shl_is_mul(self, k as u8);
        }
        self << (k as u8)
    }

    fn shr_one(self) -> (r: Self) {
        proof {
            assert(self >> 1u8 == self / 2) by (bit_vector);
        }
        self >> 1u8
    }

    fn less_than(self, rhs: Self) -> (r: bool) {
        self < rhs
    }

    fn at_most(self, rhs: Self) -> (r: bool) {
        self <= rhs
    }

    fn is_zero(self) -> (r: bool) {
        self == 0
    }
}

impl Unsigned for u8 {
    fn isset(&self, bit: usize) -> (r: bool) {
        let x = *self;
        let b = bit as u8;
        proof {
            lemma_u8_shr_is_div(x, b);
            assert((x & (1u8 << b) != 0) == ((x >> b) % 2 == 1)) by (bit_vector)
                requires b < 8;
        }
        x & (1u8 << b) != 0
    }

    fn lmb_pos(&self) -> (r: usize) {
        leading_bit_position(*self)
    }

    fn one() -> (r: Self) {
        1
    }

    fn zero() -> (r: Self) {
        0
    }
}

impl Number for u16 {
    open spec fn value(self) -> nat {
        self as nat
    }

    open spec fn width() -> nat {
        16
    }

    proof fn lemma_value_range(self) {
        lemma2_to64();
    }

    fn bits() -> (r: usize) {
        16
    }

    fn xor(self, rhs: Self) -> (r: Self) {
        proof {
            lemma_xor_u64(self as u64, rhs as u64);
            assert((self as u64) ^ (rhs as u64) == (self ^ rhs) as u64) by (bit_vector);
        }
        self ^ rhs
    }

    fn shl_one(self) -> (r: Self) {
        proof {
            lemma2_to64();
            assert(self << 1u16 == (self * 2) % 65536) by (bit_vector);
        }
        self << 1u16
    }

    fn shl(self, k: usize) -> (r: Self) {
        proof {
            lemma2_to64();
            lemma_u16_shl_is_mul(self, k as u16);
        }
        self << (k as u16)
    }

    fn shr_one(self) -> (r: Self) {
        proof {
            assert(self >> 1u16 == self / 2) by (bit_vector);
        }
        self >> 1u16
    }

    fn less_than(self, rhs: Self) -> (r: bool) {
        self < rhs
    }

    fn at_most(self, rhs: Self) -> (r: bool) {
        self <= rhs
    }

    fn is_zero(self) -> (r: bool) {
        self == 0
    }
}

impl Unsigned for u16 {
    fn isset(&self, bit: usize) -> (r: bool) {
        let x = *self;
        let b = bit as u16;
        proof {
            lemma_u16_shr_is_div(x, b);
            assert((x & (1u16 << b) != 0) == ((x >> b) % 2 == 1)) by (bit_vector)
                requires b < 16;
        }
        x & (1u16 << b) != 0
    }

    fn lmb_pos(&self) -> (r: usize) {
        leading_bit_position(*self)
    }

    fn one() -> (r: Self) {
        1
    }

    fn zero() -> (r: Self) {
        0
    }
}

impl Number for u32 {
    open spec fn value(self) -> nat {
        self as nat
    }

    open spec fn width() -> nat {
        32
    }

    proof fn lemma_value_range(self) {
        lemma2_to64();
    }

    fn bits() -> (r: usize) {
        32
    }

    fn xor(self, rhs: Self) -> (r: Self) {
        proof {
            lemma_xor_u64(self as u64, rhs as u64);
            assert((self as u64) ^ (rhs as u64) == (self ^ rhs) as u64) by (bit_vector);
        }
        self ^ rhs
    }

    fn shl_one(self) -> (r: Self) {
        proof {
            lemma2_to64();
            assert(self << 1u32 == (self * 2) % 0x1_0000_0000) by (bit_vector);
        }
        self << 1u32
    }

    fn shl(self, k: usize) -> (r: Self) {
        proof {
            lemma2_to64();
            lemma_u32_shl_is_mul(self, k as u32);
        }
        self << (k as u32)
    }

    fn shr_one(self) -> (r: Self) {
        proof {
            assert(self >> 1u32 == self / 2) by (bit_vector);
        }
        self >> 1u32
    }

    fn less_than(self, rhs: Self) -> (r: bool) {
        self < rhs
    }

    fn at_most(self, rhs: Self) -> (r: bool) {
        self <= rhs
    }

    fn is_zero(self) -> (r: bool) {
        self == 0
    }
}

impl Unsigned for u32 {
    fn isset(&self, bit: usize) -> (r: bool) {
        let x = *self;
        let b = bit as u32;
        proof {
            lemma_u32_shr_is_div(x, b);
            assert((x & (1u32 << b) != 0) == ((x >> b) % 2 == 1)) by (bit_vector)
                requires b < 32;
        }
        x & (1u32 << b) != 0
    }

    fn lmb_pos(&self) -> (r: usize) {
        leading_bit_position(*self)
    }

    fn one() -> (r: Self) {
        1
    }

    fn zero() -> (r: Self) {
        0
    }
}

impl Number for u64 {
    open spec fn value(self) -> nat {
        self as nat
    }

    open spec fn width() -> nat {
        64
    }

    proof fn lemma_value_range(self) {
        lemma2_to64();
    }

    fn bits() -> (r: usize) {
        64
    }

    fn xor(self, rhs: Self) -> (r: Self) {
        proof {
            lemma_xor_u64(self, rhs);
        }
        self ^ rhs
    }

    fn shl_one(self) -> (r: Self) {
        proof {
            lemma2_to64();
            assert(self << 1u64 == (self * 2) % 0x1_0000_0000_0000_0000) by (bit_vector);
        }
        self << 1u64
    }

    fn shl(self, k: usize) -> (r: Self) {
        proof {
            lemma2_to64();
            lemma_u64_shl_is_mul(self, k as u64);
        }
        self << (k as u64)
    }

    fn shr_one(self) -> (r: Self) {
        proof {
            assert(self >> 1u64 == self / 2) by (bit_vector);
        }
        self >> 1u64
    }

    fn less_than(self, rhs: Self) -> (r: bool) {
        self < rhs
    }

    fn at_most(self, rhs: Self) -> (r: bool) {
        self <= rhs
    }

    fn is_zero(self) -> (r: bool) {
        self == 0
    }
}

impl Unsigned for u64 {
    fn isset(&self, bit: usize) -> (r: bool) {
        let x = *self;
        let b = bit as u64;
        proof {
            lemma_u64_shr_is_div(x, b);
            assert((x & (1u64 << b) != 0) == ((x >> b) % 2 == 1)) by (bit_vector)
                requires b < 64;
        }
        x & (1u64 << b) != 0
    }

    fn lmb_pos(&self) -> (r: usize) {
        leading_bit_position(*self)
    }

    fn one() -> (r: Self) {
        1
    }

    fn zero() -> (r: Self) {
        0
    }
}

} // verus!
