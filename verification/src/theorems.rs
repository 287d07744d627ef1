//! Round-trip laws of the public conversions, stated over the same order
//! functions that the conversions' contracts use: encoding then decoding
//! with the same requested order recovers the coordinates, and decoding
//! then encoding recovers the index, so the conversions are a bijection
//! between coordinate pairs and index values at every order.

use vstd::prelude::*;
use vstd::arithmetic::power2::{pow2, lemma_pow2_pos, lemma_pow2_strictly_increases};
use vstd::arithmetic::div_mod::{lemma_fundamental_div_mod, lemma_fundamental_div_mod_converse, lemma_small_mod, lemma_div_is_ordered};
use crate::automaton::{spec_encode, spec_decode, lemma_encode_bound, lemma_decode_bound};
use crate::bitmath::{bit_len, lemma_bit_len, lemma_bit_len_le};
use crate::engine::{enc_order, dec_order};
use crate::roundtrip::{lemma_encode_then_decode, lemma_decode_then_encode, lemma_encode_pad, lemma_decode_pad};

verus! {

/// A sum of an even number and a remainder below two has that remainder
/// modulo two.
proof fn lemma_parity(n: nat, t: nat, r: nat)
    requires
        t % 2 == 0,
        r < 2,
        n == t + r,
    ensures
        n % 2 == r,
{
    lemma_fundamental_div_mod(t as int, 2);
    lemma_fundamental_div_mod_converse(n as int, 2, (t / 2) as int, r as int);
}

/// Rounding up to the next even number gives an even number.
proof fn lemma_even_round(b: nat)
    ensures
        (b + b % 2) % 2 == 0,
{
    lemma_fundamental_div_mod(b as int, 2);
    if b % 2 == 0 {
        lemma_fundamental_div_mod_converse((b + b % 2) as int, 2, (b / 2) as int, 0);
    } else {
        lemma_fundamental_div_mod_converse((b + b % 2) as int, 2, (b / 2 + 1) as int, 0);
    }
}

/// The difference of two numbers of equal parity is even.
proof fn lemma_even_diff(a: nat, b: nat)
    requires
        a % 2 == b % 2,
        b <= a,
    ensures
        ((a - b) as nat) % 2 == 0,
{
    lemma_fundamental_div_mod(a as int, 2);
    lemma_fundamental_div_mod(b as int, 2);
    lemma_div_is_ordered(b as int, a as int, 2);
    lemma_fundamental_div_mod_converse((a - b) as int, 2, (a / 2 - b / 2) as int, 0);
}

/// Both order functions agree with the requested order modulo two.
proof fn lemma_order_parity(b: nat, order: nat)
    ensures
        (b + b % 2 + order % 2) % 2 == order % 2,
{
    lemma_even_round(b);
    lemma_fundamental_div_mod(order as int, 2);
    lemma_parity(b + b % 2 + order % 2, b + b % 2, order % 2);
}

/// The significant index-bit pairs fit the decoder's order.
proof fn lemma_dec_order_window(h: nat, order: nat)
    ensures
        bit_len(h) <= 2 * dec_order(h, order),
        h < pow2(2 * dec_order(h, order)),
{
    let c = (bit_len(h) + 1) / 2;
    lemma_fundamental_div_mod((bit_len(h) + 1) as int, 2);
    assert(bit_len(h) <= 2 * c);
    lemma_bit_len(h);
    let n = dec_order(h, order);
    assert(c <= n);
    if bit_len(h) < 2 * n {
        lemma_pow2_strictly_increases(bit_len(h), 2 * n);
    }
}

/// Round trip through the index: for every `(x, y)` that fits the
/// requested order, decoding the encoded index — each side deriving its
/// walked order from its own input, as the conversions do — returns
/// exactly `(x, y)`.  This holds for every requested order up to the full
/// coordinate width.
pub proof fn lemma_encode_decode_roundtrip(x: nat, y: nat, order: nat)
    requires
        x < pow2(order),
        y < pow2(order),
    ensures
        spec_decode(
            0,
            spec_encode(0, x, y, enc_order(x, y, order)),
            dec_order(spec_encode(0, x, y, enc_order(x, y, order)), order),
        ).0 == x,
        spec_decode(
            0,
            spec_encode(0, x, y, enc_order(x, y, order)),
            dec_order(spec_encode(0, x, y, enc_order(x, y, order)), order),
        ).1 == y,
{
    let ne = enc_order(x, y, order);
    let h = spec_encode(0, x, y, ne);
    let nd = dec_order(h, order);
    let bx = bit_len(x);
    let by = bit_len(y);
    let b = if bx >= by { bx } else { by };
    lemma_bit_len(x);
    lemma_bit_len(y);
    if bx < b {
        lemma_pow2_strictly_increases(bx, b);
    }
    if by < b {
        lemma_pow2_strictly_increases(by, b);
    }
    assert(x < pow2(b) && y < pow2(b));
    if b < ne {
        lemma_pow2_strictly_increases(b, ne);
    }
    assert(x < pow2(ne) && y < pow2(ne));

    // decoding at the encoder's own order recovers the coordinates
    lemma_encode_then_decode(0, x, y, ne);
    lemma_pow2_pos(ne);
    lemma_small_mod(x, pow2(ne));
    lemma_small_mod(y, pow2(ne));
    assert(spec_decode(0, h, ne).0 == x);
    assert(spec_decode(0, h, ne).1 == y);

    // the two orders have the parity of the requested order
    lemma_order_parity(b, order);
    assert(ne % 2 == order % 2);
    lemma_order_parity((bit_len(h) + 1) / 2, order);
    assert(nd % 2 == order % 2);

    // the index fits below both orders, so decoding at either gives the
    // same coordinates
    lemma_encode_bound(0, x, y, ne);
    lemma_dec_order_window(h, order);
    if nd >= ne {
        lemma_decode_pad(h, ne, ne);
        lemma_decode_pad(h, ne, nd);
        lemma_even_diff(nd, ne);
        assert(spec_decode(0, h, nd) == spec_decode(0, h, ne));
    } else {
        lemma_decode_pad(h, nd, nd);
        lemma_decode_pad(h, nd, ne);
        lemma_even_diff(ne, nd);
        assert(spec_decode(0, h, ne) == spec_decode(0, h, nd));
    }
}

/// Round trip through the coordinates: for every index that fits the
/// requested order, encoding the decoded coordinates — each side deriving
/// its walked order from its own input, as the conversions do — returns
/// exactly that index.  Walking every index value below `4^order` through
/// this identity shows the conversions form a bijection there: no two
/// indices share a coordinate pair and none is skipped.
pub proof fn lemma_decode_encode_roundtrip(h: nat, order: nat)
    requires
        h < pow2(2 * order),
    ensures
        spec_encode(
            0,
            spec_decode(0, h, dec_order(h, order)).0,
            spec_decode(0, h, dec_order(h, order)).1,
            enc_order(
                spec_decode(0, h, dec_order(h, order)).0,
                spec_decode(0, h, dec_order(h, order)).1,
                order,
            ),
        ) == h,
{
    let nd = dec_order(h, order);
    let x = spec_decode(0, h, nd).0;
    let y = spec_decode(0, h, nd).1;
    let ne = enc_order(x, y, order);

    // encoding at the decoder's own order recovers the index
    lemma_dec_order_window(h, order);
    lemma_decode_then_encode(0, h, nd);
    assert(spec_encode(0, x, y, nd) == h);

    // both coordinates fit below both orders
    lemma_decode_bound(0, h, nd);
    let bx = bit_len(x);
    let by = bit_len(y);
    let b = if bx >= by { bx } else { by };
    lemma_bit_len(x);
    lemma_bit_len(y);
    if bx < b {
        lemma_pow2_strictly_increases(bx, b);
    }
    if by < b {
        lemma_pow2_strictly_increases(by, b);
    }
    assert(x < pow2(b) && y < pow2(b));
    lemma_bit_len_le(x, nd);
    lemma_bit_len_le(y, nd);
    assert(b <= nd);
    assert(b <= ne);

    // the two orders have the parity of the requested order
    lemma_order_parity(b, order);
    assert(ne % 2 == order % 2);
    lemma_order_parity((bit_len(h) + 1) / 2, order);
    assert(nd % 2 == order % 2);

    // so encoding at either order gives the same index
    let mm = if ne <= nd { ne } else { nd };
    if b < mm {
        lemma_pow2_strictly_increases(b, mm);
    }
    assert(x < pow2(mm) && y < pow2(mm));
    lemma_encode_pad(x, y, mm, ne);
    lemma_encode_pad(x, y, mm, nd);
    if nd >= ne {
        lemma_even_diff(nd, ne);
    } else {
        lemma_even_diff(ne, nd);
    }
    assert(spec_encode(0, x, y, ne) == spec_encode(0, x, y, nd));
}

} // verus!
