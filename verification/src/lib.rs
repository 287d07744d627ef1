//! Hilbert space-filling curve codec: a bijection between 2-dimensional
//! coordinates and their position along the Hilbert curve, in both
//! directions, for unsigned coordinate widths up to 64 bits (128-bit index).
//!
//! The conversion is driven by a four-state automaton that consumes one bit
//! of `x` and one bit of `y` per step (most significant first) and emits two
//! bits of the Hilbert index, rotating the quadrant orientation as it goes.
//! The executable path walks three bits per step through a 256-entry
//! transition table derived from that automaton; the specification walks one
//! bit at a time, and round-trip theorems relate the two directions.
//!
//! The contracts of [`xy2h`] and [`h2xy`] are stated over the numeric values
//! alone, so coordinates holding the same numbers produce numerically equal
//! indices at every supported width.

use vstd::prelude::*;
use vstd::arithmetic::power2::pow2;

pub mod automaton;
pub mod bitmath;
pub mod roundtrip;
pub mod tables;
pub mod engine;
pub mod numeric;
pub mod theorems;

pub use automaton::{spec_encode, spec_decode};
pub use engine::{enc_order, dec_order};
pub use numeric::{Unsigned, UnsignedBase};

verus! {

/// Convert from 2D to 1D Hilbert space.
///
/// The coordinate type `T` has half the width of the result type, for
/// example `(u32, u32)` to `u64`.  The number of bits walked is the even
/// cover of the significant bits of the coordinates; the explicit `order`
/// only contributes its parity, so that odd orders chunk from the correct
/// starting offset.
pub fn xy2h<T: Unsigned>(x: T, y: T, order: u8) -> (h: T::Key)
    ensures
        h.as_nat() == spec_encode(
            0,
            x.as_nat(),
            y.as_nat(),
            enc_order(x.as_nat(), y.as_nat(), order as nat),
        ),
{
    proof {
        T::lemma_key_width();
        x.lemma_props();
        y.lemma_props();
        vstd::arithmetic::power2::lemma2_to64();
        if T::bit_width() < 64 {
            vstd::arithmetic::power2::lemma_pow2_strictly_increases(T::bit_width(), 64);
        }
        assert(x.as_nat() < pow2(64));
        assert(y.as_nat() < pow2(64));
    }
    let xv: u64 = x.to_u128() as u64;
    let yv: u64 = y.to_u128() as u64;
    let hv: u128 = engine::encode_core(xv, yv, order);
    proof {
        engine::lemma_enc_fits(x.as_nat(), y.as_nat(), order as nat, T::bit_width());
    }
    <T::Key as UnsignedBase>::from_u128(hv)
}

/// Convert from 1D Hilbert space to 2D coordinates.
///
/// The index type is twice as wide as the coordinate type `T`, for example
/// `u64` to `(u32, u32)`.  The number of index-bit pairs walked is the even
/// cover of the significant pairs of `h`; the explicit `order` only
/// contributes its parity, mirroring [`xy2h`].
pub fn h2xy<T: Unsigned>(h: T::Key, order: u8) -> (r: (T, T))
    ensures
        r.0.as_nat() == spec_decode(0, h.as_nat(), dec_order(h.as_nat(), order as nat)).0,
        r.1.as_nat() == spec_decode(0, h.as_nat(), dec_order(h.as_nat(), order as nat)).1,
{
    proof {
        T::lemma_key_width();
        h.lemma_props();
    }
    let hv: u128 = h.to_u128();
    let p: (u64, u64) = engine::decode_core(hv, order);
    proof {
        engine::lemma_dec_fits(h.as_nat(), order as nat, T::bit_width());
    }
    (T::from_u128(p.0 as u128), T::from_u128(p.1 as u128))
}

} // verus!
