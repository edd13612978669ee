//! The fixed-width unsigned integer of the searches: 256 bits in four
//! 64-bit limbs, least significant first. Comparisons and conversions are
//! verified here; the arithmetic itself is done by `bnum`.

use num_integer::Roots;
use vstd::arithmetic::power::pow;
use vstd::arithmetic::power2::pow2;
use vstd::prelude::*;

verus! {

/// 2^64, the weight of the second limb.
pub open spec fn limb_1() -> nat {
    0x1_0000_0000_0000_0000nat
}

/// 2^128, the weight of the third limb.
pub open spec fn limb_2() -> nat {
    0x1_0000_0000_0000_0000_0000_0000_0000_0000nat
}

/// 2^192, the weight of the fourth limb.
pub open spec fn limb_3() -> nat {
    0x1_0000_0000_0000_0000_0000_0000_0000_0000_0000_0000_0000_0000nat
}

/// 2^256: the values of a `UInt` are the naturals below it.
pub open spec fn uint_modulus() -> nat {
    0x1_0000_0000_0000_0000_0000_0000_0000_0000_0000_0000_0000_0000_0000_0000_0000_0000nat
}

/// The number of bits of a `UInt`.
pub const UINT_BITS: u32 = 256;

/// An unsigned integer of 256 bits.
#[derive(Clone, Copy, Debug, PartialEq, Eq)]
pub struct UInt {
    /// The four base-2^64 digits, least significant first.
    pub limbs: [u64; 4],
}

impl View for UInt {
    type V = nat;

    /// The number that the limbs stand for.
    open spec fn view(&self) -> nat {
        self.limbs[0] as nat + self.limbs[1] as nat * limb_1() + self.limbs[2] as nat * limb_2()
            + self.limbs[3] as nat * limb_3()
    }
}

impl UInt {
    /// Every value is below 2^256, and the limbs are determined by the value.
    pub proof fn lemma_view(self, other: UInt)
        ensures
            self@ < uint_modulus(),
            self@ == other@ <==> self == other,
    {
        if self@ == other@ {
            assert(self.limbs[3] == other.limbs[3]);
            assert(self.limbs[2] == other.limbs[2]);
            assert(self.limbs[1] == other.limbs[1]);
            assert(self.limbs[0] == other.limbs[0]);
            assert(self.limbs =~= other.limbs);
        }
    }

    /// The value `x`.
    pub fn from_u64(x: u64) -> (r: UInt)
        ensures
            r@ == x,
    {
        UInt { limbs: [x, 0, 0, 0] }
    }

    /// The largest value, 2^256 - 1.
    pub fn max_value() -> (r: UInt)
        ensures
            r@ == uint_modulus() - 1,
    {
        UInt { limbs: [u64::MAX, u64::MAX, u64::MAX, u64::MAX] }
    }

    /// The low 64 bits of the value.
    pub fn low_word(&self) -> (w: u64)
        ensures
            w == self@ % limb_1(),
    {
        self.limbs[0]
    }

    /// Whether the value fits in 64 bits, and then the value.
    pub fn to_u64(&self) -> (w: Option<u64>)
        ensures
            match w {
                Some(x) => x == self@,
                None => self@ >= limb_1(),
            },
    {
        if self.limbs[1] == 0 && self.limbs[2] == 0 && self.limbs[3] == 0 {
            Some(self.limbs[0])
        } else {
            None
        }
    }

    /// `self == other`, as numbers.
    pub fn is_equal(&self, other: &UInt) -> (b: bool)
        ensures
            b == (self@ == other@),
    {
        proof {
            self.lemma_view(*other);
        }
        self.limbs[0] == other.limbs[0] && self.limbs[1] == other.limbs[1] && self.limbs[2]
            == other.limbs[2] && self.limbs[3] == other.limbs[3]
    }

    /// `self < other`, as numbers.
    pub fn is_less(&self, other: &UInt) -> (b: bool)
        ensures
            b == (self@ < other@),
    {
        if self.limbs[3] != other.limbs[3] {
            self.limbs[3] < other.limbs[3]
        } else if self.limbs[2] != other.limbs[2] {
            self.limbs[2] < other.limbs[2]
        } else if self.limbs[1] != other.limbs[1] {
            self.limbs[1] < other.limbs[1]
        } else {
            self.limbs[0] < other.limbs[0]
        }
    }

    /// `self > other`, as numbers.
    pub fn is_greater(&self, other: &UInt) -> (b: bool)
        ensures
            b == (self@ > other@),
    {
        other.is_less(self)
    }

    /// Whether the value is zero.
    pub fn is_zero(&self) -> (b: bool)
        ensures
            b == (self@ == 0),
    {
        self.limbs[0] == 0 && self.limbs[1] == 0 && self.limbs[2] == 0 && self.limbs[3] == 0
    }

    /// The sum. Calls `bnum`'s `+` on `BUint<4>`, which computes the sum of
    /// two values where it is below 2^256.
    #[verifier::external_body]
    pub(crate) fn plus(self, rhs: UInt) -> (r: UInt)
        requires
            self@ + rhs@ < uint_modulus(),
        ensures
            r@ == self@ + rhs@,
    {
        let x = bnum::types::U256::from_digits(self.limbs);
        let y = bnum::types::U256::from_digits(rhs.limbs);
        UInt { limbs: *(x + y).digits() }
    }

    /// The difference. Calls `bnum`'s `-` on `BUint<4>`, which computes the
    /// difference where the right operand is not the larger.
    #[verifier::external_body]
    pub(crate) fn minus(self, rhs: UInt) -> (r: UInt)
        requires
            rhs@ <= self@,
        ensures
            r@ == self@ - rhs@,
    {
        let x = bnum::types::U256::from_digits(self.limbs);
        let y = bnum::types::U256::from_digits(rhs.limbs);
        UInt { limbs: *(x - y).digits() }
    }

    /// The product. Calls `bnum`'s `*` on `BUint<4>`, which computes the
    /// product of two values where it is below 2^256.
    #[verifier::external_body]
    pub(crate) fn times(self, rhs: UInt) -> (r: UInt)
        requires
            self@ * rhs@ < uint_modulus(),
        ensures
            r@ == self@ * rhs@,
    {
        let x = bnum::types::U256::from_digits(self.limbs);
        let y = bnum::types::U256::from_digits(rhs.limbs);
        UInt { limbs: *(x * y).digits() }
    }

    /// The product, or `None` where it does not fit. Calls
    /// `BUint::checked_mul`, which returns the product where it is below
    /// 2^256 and `None` where it is not.
    #[verifier::external_body]
    pub(crate) fn checked_times(self, rhs: UInt) -> (r: Option<UInt>)
        ensures
            match r {
                Some(p) => p@ == self@ * rhs@,
                None => self@ * rhs@ >= uint_modulus(),
            },
    {
        let x = bnum::types::U256::from_digits(self.limbs);
        let y = bnum::types::U256::from_digits(rhs.limbs);
        match x.checked_mul(y) {
            Some(p) => Some(UInt { limbs: *p.digits() }),
            None => None,
        }
    }

    /// The quotient, rounded down. Calls `bnum`'s `/` on `BUint<4>`, which
    /// divides as the primitive unsigned integers do and panics on a zero
    /// divisor.
    #[verifier::external_body]
    pub(crate) fn divided_by(self, rhs: UInt) -> (r: UInt)
        requires
            rhs@ > 0,
        ensures
            r@ == self@ / rhs@,
    {
        let x = bnum::types::U256::from_digits(self.limbs);
        let y = bnum::types::U256::from_digits(rhs.limbs);
        UInt { limbs: *(x / y).digits() }
    }

    /// The value shifted left by `bits`. Calls `bnum`'s `<<` on `BUint<4>`
    /// with a `u32`, which multiplies by 2^bits where no set bit is shifted
    /// out; it panics on a shift of 256 or more.
    #[verifier::external_body]
    pub(crate) fn shifted_left(self, bits: u32) -> (r: UInt)
        requires
            bits < UINT_BITS,
            self@ * pow2(bits as nat) < uint_modulus(),
        ensures
            r@ == self@ * pow2(bits as nat),
    {
        let x = bnum::types::U256::from_digits(self.limbs);
        UInt { limbs: *(x << bits).digits() }
    }

    /// The value shifted right by `bits`. Calls `bnum`'s `>>` on `BUint<4>`
    /// with a `u32`, which divides by 2^bits, rounding down; it panics on a
    /// shift of 256 or more.
    #[verifier::external_body]
    pub(crate) fn shifted_right(self, bits: u32) -> (r: UInt)
        requires
            bits < UINT_BITS,
        ensures
            r@ == self@ / pow2(bits as nat),
    {
        let x = bnum::types::U256::from_digits(self.limbs);
        UInt { limbs: *(x >> bits).digits() }
    }

    /// The integer square root. Calls `num_integer::Roots::sqrt` as `bnum`
    /// implements it for `BUint<4>`: the largest integer whose square is not
    /// above the value.
    #[verifier::external_body]
    pub(crate) fn isqrt(self) -> (r: UInt)
        ensures
            r@ * r@ <= self@ < (r@ + 1) * (r@ + 1),
    {
        let x = bnum::types::U256::from_digits(self.limbs);
        UInt { limbs: *x.sqrt().digits() }
    }

    /// The base-2 logarithm, rounded down. Calls `BUint::ilog2`, which
    /// returns the index of the highest set bit and panics on zero.
    #[verifier::external_body]
    pub(crate) fn ilog2(self) -> (r: u32)
        requires
            self@ > 0,
        ensures
            r < UINT_BITS,
            pow2(r as nat) <= self@ < pow2(r as nat + 1),
    {
        bnum::types::U256::from_digits(self.limbs).ilog2()
    }

    /// The value raised to the power `exp`. Calls `BUint::pow`, which
    /// computes the power where it is below 2^256.
    #[verifier::external_body]
    pub(crate) fn power(self, exp: u32) -> (r: UInt)
        requires
            pow(self@ as int, exp as nat) < uint_modulus(),
        ensures
            r@ == pow(self@ as int, exp as nat),
    {
        let x = bnum::types::U256::from_digits(self.limbs);
        UInt { limbs: *x.pow(exp).digits() }
    }
}

} // verus!
