//! The generic unsigned-integer capability: each supported coordinate
//! width is paired with the double-width key type that holds its Hilbert
//! index (u8 with u16, u16 with u32, u32 with u64, u64 with u128).
//!
//! The engine itself works on the widest pair; these traits describe what
//! a width contributes — its numeric value, its bit width, and lossless
//! conversions through the widest type — so that one engine serves every
//! pair.

use vstd::prelude::*;
use vstd::arithmetic::power2::{pow2, lemma2_to64};
use crate::bitmath::{bit_len, lemma_bit_len_le, lemma_pow2_le_128};
use crate::engine::bit_len_u128;

verus! {

/// An unsigned machine integer of a fixed, even bit width of at most 128.
pub trait UnsignedBase: Sized + Copy {
    /// The numeric value.
    spec fn as_nat(self) -> nat;

    /// The width in bits.
    spec fn bit_width() -> nat;

    /// Every value fits its width, and the width is one of the supported
    /// even sizes.
    proof fn lemma_props(self)
        ensures
            self.as_nat() < pow2(Self::bit_width()),
            Self::bit_width() % 2 == 0,
            8 <= Self::bit_width(),
            Self::bit_width() <= 128;

    /// Widening conversion into the widest supported type.
    fn to_u128(self) -> (r: u128)
        ensures
            r as nat == self.as_nat();

    /// Narrowing conversion from the widest supported type; lossless for
    /// values that fit the width.
    fn from_u128(v: u128) -> (r: Self)
        requires
            (v as nat) < pow2(Self::bit_width()),
        ensures
            r.as_nat() == v as nat;

    /// Number of zero bits above the highest set bit.
    fn leading_zeros(self) -> (r: u32)
        ensures
            r as nat + bit_len(self.as_nat()) == Self::bit_width();
}

/// A coordinate type together with the key type that is exactly twice as
/// wide and holds the Hilbert index of a coordinate pair.
pub trait Unsigned: UnsignedBase {
    /// The double-width Hilbert index type.
    type Key: UnsignedBase;

    /// The key is exactly twice as wide, and a coordinate is at most 64
    /// bits.
    proof fn lemma_key_width()
        ensures
            <Self::Key as UnsignedBase>::bit_width() == 2 * Self::bit_width(),
            Self::bit_width() <= 64;
}

impl UnsignedBase for u8 {
    open spec fn as_nat(self) -> nat {
        self as nat
    }

    open spec fn bit_width() -> nat {
        8
    }

    proof fn lemma_props(self) {
        lemma2_to64();
    }

    fn to_u128(self) -> (r: u128) {
        self as u128
    }

    fn from_u128(v: u128) -> (r: Self) {
        proof {
            lemma2_to64();
        }
        v as u8
    }

    fn leading_zeros(self) -> (r: u32) {
        proof {
            lemma2_to64();
            lemma_bit_len_le(self as nat, 8);
        }
        8 - bit_len_u128(self as u128)
    }
}

impl UnsignedBase for u16 {
    open spec fn as_nat(self) -> nat {
        self as nat
    }

    open spec fn bit_width() -> nat {
        16
    }

    proof fn lemma_props(self) {
        lemma2_to64();
    }

    fn to_u128(self) -> (r: u128) {
        self as u128
    }

    fn from_u128(v: u128) -> (r: Self) {
        proof {
            lemma2_to64();
        }
        v as u16
    }

    fn leading_zeros(self) -> (r: u32) {
        proof {
            lemma2_to64();
            lemma_bit_len_le(self as nat, 16);
        }
        16 - bit_len_u128(self as u128)
    }
}

impl UnsignedBase for u32 {
    open spec fn as_nat(self) -> nat {
        self as nat
    }

    open spec fn bit_width() -> nat {
        32
    }

    proof fn lemma_props(self) {
        lemma2_to64();
    }

    fn to_u128(self) -> (r: u128) {
        self as u128
    }

    fn from_u128(v: u128) -> (r: Self) {
        proof {
            lemma2_to64();
        }
        v as u32
    }

    fn leading_zeros(self) -> (r: u32) {
        proof {
            lemma2_to64();
            lemma_bit_len_le(self as nat, 32);
        }
        32 - bit_len_u128(self as u128)
    }
}

impl UnsignedBase for u64 {
    open spec fn as_nat(self) -> nat {
        self as nat
    }

    open spec fn bit_width() -> nat {
        64
    }

    proof fn lemma_props(self) {
        lemma2_to64();
    }

    fn to_u128(self) -> (r: u128) {
        self as u128
    }

    fn from_u128(v: u128) -> (r: Self) {
        proof {
            lemma2_to64();
        }
        v as u64
    }

    fn leading_zeros(self) -> (r: u32) {
        proof {
            lemma2_to64();
            lemma_bit_len_le(self as nat, 64);
        }
        64 - bit_len_u128(self as u128)
    }
}

impl UnsignedBase for u128 {
    open spec fn as_nat(self) -> nat {
        self as nat
    }

    open spec fn bit_width() -> nat {
        128
    }

    proof fn lemma_props(self) {
        lemma_pow2_le_128(128);
    }

    fn to_u128(self) -> (r: u128) {
        self
    }

    fn from_u128(v: u128) -> (r: Self) {
        v
    }

    fn leading_zeros(self) -> (r: u32) {
        proof {
            lemma_pow2_le_128(128);
            lemma_bit_len_le(self as nat, 128);
        }
        128 - bit_len_u128(self)
    }
}

impl Unsigned for u8 {
    type Key = u16;

    proof fn lemma_key_width() {
    }
}

impl Unsigned for u16 {
    type Key = u32;

    proof fn lemma_key_width() {
    }
}

impl Unsigned for u32 {
    type Key = u64;

    proof fn lemma_key_width() {
    }
}

impl Unsigned for u64 {
    type Key = u128;

    proof fn lemma_key_width() {
    }
}

} // verus!
