//! The chunked transition engine: the executable walk over the 256-entry
//! transition tables, three bits of each coordinate (six bits of index) per
//! step, most significant chunk first.
//!
//! The number of bits walked is the even cover of the significant bits of
//! the input, plus one more bit when the requested order is odd; a final
//! chunk of fewer than three bits is handled by shifting the input left
//! into the top of a chunk and shifting the looked-up output right by the
//! padding, so one code path serves every order.

use vstd::prelude::*;
use vstd::arithmetic::power2::{pow2, lemma_pow2_adds, lemma_pow2_pos, lemma_pow2_strictly_increases, lemma2_to64};
use vstd::arithmetic::div_mod::{lemma_mod_multiples_vanish, lemma_small_mod};
use vstd::arithmetic::mul::{lemma_mul_is_distributive_add_other_way, lemma_mul_is_associative};
use vstd::bits::{lemma_u64_shr_is_div, lemma_u64_shl_is_mul, lemma_u128_shr_is_div};
use crate::automaton::{spec_encode, spec_decode, enc_state, dec_state, lemma_encode_bound, lemma_decode_bound, lemma_encode_split, lemma_decode_split};
use crate::bitmath::{bit_len, lemma_bit_len, lemma_bit_len_le, lemma_pow2_le_128, lemma_div_pow2_add, lemma_u128_or_is_add, lemma_u64_or_is_add, lemma_u128_shl_is_mul, lemma_u128_mask63, lemma_u64_mask7, lemma_u64_shl_mask7, lemma_u128_shl_mask63};
use crate::roundtrip::{lemma_encode_capped, lemma_decode_capped};
use crate::tables::{lemma_fwd_chunk, lemma_rev_chunk, lemma_fwd_final, lemma_rev_final, fwd_entry, rev_entry};

verus! {

/// The order the encoder walks for coordinates `x`, `y` and requested
/// order `order`: the even cover of their significant bits, plus a parity
/// correction when the requested order is odd.
pub open spec fn enc_order(x: nat, y: nat, order: nat) -> nat {
    let b = if bit_len(x) >= bit_len(y) { bit_len(x) } else { bit_len(y) };
    b + b % 2 + order % 2
}

/// The order the decoder walks for index `h` and requested order `order`:
/// the even cover of the significant index-bit pairs, plus a parity
/// correction when the requested order is odd.
pub open spec fn dec_order(h: nat, order: nat) -> nat {
    let c = (bit_len(h) + 1) / 2;
    c + c % 2 + order % 2
}

/// Number of significant bits of `v`.
pub fn bit_len_u128(v: u128) -> (n: u32)
    ensures
        n as nat == bit_len(v as nat),
{
    proof {
        lemma_pow2_le_128(128);
        lemma_bit_len_le(v as nat, 128);
    }
    let mut w: u128 = v;
    let mut n: u32 = 0;
    while w > 0
        invariant
            bit_len(v as nat) == n as nat + bit_len(w as nat),
            bit_len(w as nat) + n as nat <= 128,
        decreases w,
    {
        w = w / 2;
        n = n + 1;
    }
    n
}

/// Hilbert index of `(x, y)`: one table lookup per three bits, walking
/// `enc_order` bits in all.
#[verifier::rlimit(100)]
pub fn encode_core(x: u64, y: u64, order: u8) -> (h: u128)
    ensures
        h as nat == spec_encode(0, x as nat, y as nat, enc_order(x as nat, y as nat, order as nat)),
{
    let bx: u32 = bit_len_u128(x as u128);
    let by: u32 = bit_len_u128(y as u128);
    let b: u32 = if bx >= by { bx } else { by };
    proof {
        lemma2_to64();
        lemma_bit_len_le(x as nat, 64);
        lemma_bit_len_le(y as nat, 64);
        assert(b <= 64);
    }
    let n: u32 = b + b % 2 + (order as u32) % 2;
    proof {
        assert(n as nat == enc_order(x as nat, y as nat, order as nat));
        assert(n <= 65);
        lemma_bit_len(x as nat);
        lemma_bit_len(y as nat);
        if (bx as nat) < n as nat {
            lemma_pow2_strictly_increases(bx as nat, n as nat);
        }
        if (by as nat) < n as nat {
            lemma_pow2_strictly_increases(by as nat, n as nat);
        }
        assert((x as nat) < pow2(n as nat));
        assert((y as nat) < pow2(n as nat));
        lemma_pow2_le_128(128);
    }
    let mut result: u128 = 0;
    let mut state: u8 = 0;
    let mut m: u32 = n;
    proof {
        assert(spec_encode(0, x as nat / pow2(m as nat), y as nat / pow2(m as nat), 0) == 0);
        assert(enc_state(0, x as nat / pow2(m as nat), y as nat / pow2(m as nat), 0) == 0);
    }
    while m > 3
        invariant
            m <= n,
            n <= 65,
            (n as nat - m as nat) % 3 == 0,
            (x as nat) < pow2(64),
            (y as nat) < pow2(64),
            (x as nat) < pow2(n as nat),
            (y as nat) < pow2(n as nat),
            state as nat == enc_state(
                0,
                x as nat / pow2(m as nat),
                y as nat / pow2(m as nat),
                (n - m) as nat,
            ),
            state < 4,
            result as nat == spec_encode(
                0,
                x as nat / pow2(m as nat),
                y as nat / pow2(m as nat),
                (n - m) as nat,
            ) * pow2(2 * m as nat),
        decreases m,
    {
        let sf: u32 = m - 3;
        let ghost xq: nat = x as nat / pow2(sf as nat);
        let ghost yq: nat = y as nat / pow2(sf as nat);
        proof {
            lemma2_to64();
            lemma_pow2_pos(sf as nat);
            lemma_pow2_pos(m as nat);
            lemma_pow2_pos(2 * m as nat);
            lemma_pow2_pos(2 * sf as nat);
            lemma_u64_shr_is_div(x, sf as u64);
            lemma_u64_shr_is_div(y, sf as u64);
            lemma_u64_mask7(x >> (sf as u64));
            lemma_u64_mask7(y >> (sf as u64));
        }
        let x3: u8 = ((x >> (sf as u64)) & 7) as u8;
        let y3: u8 = ((y >> (sf as u64)) & 7) as u8;
        let idx: u8 = state * 64 + x3 * 8 + y3;
        let e: u8 = fwd_entry(idx);
        let ghost st: nat = state as nat;
        let ghost etop: nat = spec_encode(
            0,
            x as nat / pow2(m as nat),
            y as nat / pow2(m as nat),
            (n - m) as nat,
        );
        proof {
            // the looked-up entry is one chunk of the specification walk
            lemma_div_pow2_add(x as nat, sf as nat, 3);
            lemma_div_pow2_add(y as nat, sf as nat, 3);
            assert(xq / 8 == x as nat / pow2(m as nat));
            assert(yq / 8 == y as nat / pow2(m as nat));
            lemma2_to64();
            assert(x3 as nat == xq % 8);
            assert(y3 as nat == yq % 8);
            lemma_fwd_chunk(st, xq, yq);
            assert(e as nat % 64 == spec_encode(st, xq, yq, 3));
            assert(e as nat / 64 == enc_state(st, xq, yq, 3));

            // the walk so far extends by this chunk
            lemma_encode_split(0, xq, yq, (n - sf) as nat, 3);
            assert(spec_encode(0, xq, yq, (n - sf) as nat)
                == etop * pow2(6) + spec_encode(st, xq, yq, 3));
            assert(enc_state(0, xq, yq, (n - sf) as nat) == enc_state(st, xq, yq, 3));

            // the new accumulator value, and that it fits
            lemma_mul_is_distributive_add_other_way(
                pow2(2 * sf as nat) as int,
                (etop * pow2(6)) as int,
                spec_encode(st, xq, yq, 3) as int,
            );
            lemma_pow2_adds(6, 2 * sf as nat);
            lemma_mul_is_associative(etop as int, pow2(6) as int, pow2(2 * sf as nat) as int);
            assert(spec_encode(0, xq, yq, (n - sf) as nat) * pow2(2 * sf as nat)
                == etop * pow2(2 * m as nat)
                    + spec_encode(st, xq, yq, 3) * pow2(2 * sf as nat));

            let w: nat = if n <= 64 { (n - sf) as nat } else { (64 - sf) as nat };
            lemma_pow2_adds(sf as nat, w);
            crate::bitmath::lemma_div_bound(x as nat, sf as nat, w);
            crate::bitmath::lemma_div_bound(y as nat, sf as nat, w);
            lemma_encode_capped(xq, yq, w, (n - sf) as nat);
            assert(spec_encode(0, xq, yq, (n - sf) as nat) < pow2(2 * w));
            lemma_pow2_adds(2 * w, 2 * sf as nat);
            assert(spec_encode(0, xq, yq, (n - sf) as nat) * pow2(2 * sf as nat)
                < pow2(2 * w + 2 * sf as nat)) by (nonlinear_arith)
                requires
                    spec_encode(0, xq, yq, (n - sf) as nat) < pow2(2 * w),
                    pow2(2 * w) * pow2(2 * sf as nat) == pow2(2 * w + 2 * sf as nat),
                    pow2(2 * sf as nat) > 0,
            ;
            lemma_pow2_le_128(2 * w + 2 * sf as nat);
            assert(spec_encode(0, xq, yq, (n - sf) as nat) * pow2(2 * sf as nat) < pow2(128));

            // the shifted chunk and the accumulator do not overlap
            assert((e as nat % 64) * pow2(2 * sf as nat) <= etop * pow2(2 * m as nat)
                + (e as nat % 64) * pow2(2 * sf as nat));
            lemma_u128_shl_is_mul((e % 64) as u128, (2 * sf) as u128);
            assert((((e % 64) as u128) << ((2 * sf) as u128)) as nat
                == (e as nat % 64) * pow2(2 * sf as nat));
            lemma_pow2_adds(2 * sf as nat, 6);
            assert((e as nat % 64) * pow2(2 * sf as nat) < pow2(2 * m as nat)) by (nonlinear_arith)
                requires
                    e as nat % 64 < 64,
                    pow2(2 * sf as nat) * 64 == pow2(2 * m as nat),
                    pow2(2 * sf as nat) > 0,
            ;
            lemma_mod_multiples_vanish(etop as int, 0, pow2(2 * m as nat) as int);
            lemma_small_mod(0, pow2(2 * m as nat));
            assert((pow2(2 * m as nat) * etop + 0) % pow2(2 * m as nat) == 0);
            assert(result as nat == pow2(2 * m as nat) * etop + 0) by (nonlinear_arith)
                requires result as nat == etop * pow2(2 * m as nat);
            assert(result as nat % pow2(2 * m as nat) == 0);
            if m >= 64 {
                assert((n as nat) - (m as nat) < 3);
                assert(m == n);
                assert(etop == 0);
                assert(result as nat == 0);
                assert(result == 0);
            } else {
                lemma_u128_or_is_add(
                    result,
                    ((e % 64) as u128) << ((2 * sf) as u128),
                    (2 * m) as u128,
                );
            }
        }
        let h6: u128 = (e % 64) as u128;
        result = result | (h6 << ((2 * sf) as u128));
        proof {
            if m >= 64 {
                assert(result == h6 << ((2 * sf) as u128)) by (bit_vector)
                    requires result == 0u128 | (h6 << ((2 * sf) as u128)),
                ;
            }
            assert(result as nat
                == spec_encode(0, xq, yq, (n - sf) as nat) * pow2(2 * sf as nat));
        }
        state = e / 64;
        m = sf;
    }
    // final chunk of m bits, padded at the bottom
    let pad: u32 = 3 - m;
    let ghost st: nat = state as nat;
    let ghost etop: nat = spec_encode(
        0,
        x as nat / pow2(m as nat),
        y as nat / pow2(m as nat),
        (n - m) as nat,
    );
    proof {
        lemma2_to64();
        lemma_pow2_pos(m as nat);
        lemma_pow2_pos(pad as nat);
        lemma_pow2_pos(2 * m as nat);
        lemma_u64_shl_mask7(x, pad as u64);
        lemma_u64_shl_mask7(y, pad as u64);
        lemma_pow2_adds(m as nat, pad as nat);
        assert((x as nat % pow2(m as nat)) * pow2(pad as nat) < 8) by (nonlinear_arith)
            requires
                x as nat % pow2(m as nat) < pow2(m as nat),
                pow2(m as nat) * pow2(pad as nat) == 8,
                pow2(pad as nat) > 0,
        ;
        assert((y as nat % pow2(m as nat)) * pow2(pad as nat) < 8) by (nonlinear_arith)
            requires
                y as nat % pow2(m as nat) < pow2(m as nat),
                pow2(m as nat) * pow2(pad as nat) == 8,
                pow2(pad as nat) > 0,
        ;
        assert(((x << (pad as u64)) & 7) < 8);
        assert(((y << (pad as u64)) & 7) < 8);
    }
    let x3: u8 = ((x << (pad as u64)) & 7) as u8;
    let y3: u8 = ((y << (pad as u64)) & 7) as u8;
    let idx: u8 = state * 64 + x3 * 8 + y3;
    let e: u8 = fwd_entry(idx);
    let h6: u128 = (e % 64) as u128;
    proof {
        assert(x3 as nat == (x as nat % pow2(m as nat)) * pow2(pad as nat));
        assert(y3 as nat == (y as nat % pow2(m as nat)) * pow2(pad as nat));
        lemma_fwd_final(st, x as nat, y as nat, m as nat);
        lemma_u128_shr_is_div(h6, (2 * pad) as u128);
        assert((h6 >> ((2 * pad) as u128)) as nat
            == (e as nat % 64) / pow2(2 * pad as nat));
        assert((h6 >> ((2 * pad) as u128)) as nat == spec_encode(st, x as nat, y as nat, m as nat));
        lemma_encode_split(0, x as nat, y as nat, n as nat, m as nat);
        assert(spec_encode(0, x as nat, y as nat, n as nat)
            == etop * pow2(2 * m as nat) + spec_encode(st, x as nat, y as nat, m as nat));
        lemma_encode_bound(st, x as nat, y as nat, m as nat);
        lemma_mod_multiples_vanish(etop as int, 0, pow2(2 * m as nat) as int);
        lemma_small_mod(0, pow2(2 * m as nat));
        assert(result as nat == pow2(2 * m as nat) * etop + 0) by (nonlinear_arith)
            requires result as nat == etop * pow2(2 * m as nat);
        assert(result as nat % pow2(2 * m as nat) == 0);
        lemma_u128_or_is_add(result, h6 >> ((2 * pad) as u128), (2 * m) as u128);
    }
    result | (h6 >> ((2 * pad) as u128))
}

/// Coordinates of Hilbert index `h`: one table lookup per six index bits,
/// walking `dec_order` bit pairs in all.
#[verifier::rlimit(100)]
pub fn decode_core(h: u128, order: u8) -> (r: (u64, u64))
    ensures
        r.0 as nat == spec_decode(0, h as nat, dec_order(h as nat, order as nat)).0,
        r.1 as nat == spec_decode(0, h as nat, dec_order(h as nat, order as nat)).1,
{
    let bh: u32 = bit_len_u128(h);
    proof {
        lemma_pow2_le_128(128);
        lemma_bit_len_le(h as nat, 128);
        assert(bh <= 128);
    }
    let c: u32 = (bh + 1) / 2;
    let n: u32 = c + c % 2 + (order as u32) % 2;
    proof {
        assert(n as nat == dec_order(h as nat, order as nat));
        assert(n <= 65);
        lemma_bit_len(h as nat);
        assert(bh as nat <= 2 * c as nat);
        if (bh as nat) < 2 * n as nat {
            lemma_pow2_strictly_increases(bh as nat, 2 * n as nat);
        }
        assert((h as nat) < pow2(2 * n as nat));
    }
    let mut xr: u64 = 0;
    let mut yr: u64 = 0;
    let mut state: u8 = 0;
    let mut m: u32 = n;
    proof {
        assert(spec_decode(0, h as nat / pow2(2 * m as nat), 0) == (0nat, 0nat));
        assert(spec_decode(0, h as nat / pow2(2 * m as nat), 0).0 == 0);
        assert(spec_decode(0, h as nat / pow2(2 * m as nat), 0).1 == 0);
        assert(spec_decode(0, h as nat / pow2(2 * m as nat), 0).0 * pow2(m as nat) == 0);
        assert(spec_decode(0, h as nat / pow2(2 * m as nat), 0).1 * pow2(m as nat) == 0);
        assert(dec_state(0, h as nat / pow2(2 * m as nat), 0) == 0);
    }
    while m > 3
        invariant
            m <= n,
            n <= 65,
            (n as nat - m as nat) % 3 == 0,
            (h as nat) < pow2(128),
            (h as nat) < pow2(2 * n as nat),
            state as nat == dec_state(0, h as nat / pow2(2 * m as nat), (n - m) as nat),
            state < 4,
            xr as nat == spec_decode(0, h as nat / pow2(2 * m as nat), (n - m) as nat).0
                * pow2(m as nat),
            yr as nat == spec_decode(0, h as nat / pow2(2 * m as nat), (n - m) as nat).1
                * pow2(m as nat),
        decreases m,
    {
        let sf: u32 = m - 3;
        let ghost hq: nat = h as nat / pow2(2 * sf as nat);
        proof {
            lemma2_to64();
            lemma_pow2_pos(sf as nat);
            lemma_pow2_pos(m as nat);
            lemma_pow2_pos(2 * m as nat);
            lemma_pow2_pos(2 * sf as nat);
            lemma_u128_shr_is_div(h, (2 * sf) as u128);
            lemma_u128_mask63(h >> ((2 * sf) as u128));
            assert(((h >> ((2 * sf) as u128)) & 63) as nat == hq % 64);
        }
        let h6: u8 = ((h >> ((2 * sf) as u128)) & 63) as u8;
        let idx: u8 = state * 64 + h6;
        let e: u8 = rev_entry(idx);
        let ghost st: nat = state as nat;
        let ghost p: (nat, nat) = spec_decode(
            0,
            h as nat / pow2(2 * m as nat),
            (n - m) as nat,
        );
        let x3: u64 = ((e / 8) % 8) as u64;
        let y3: u64 = (e % 8) as u64;
        proof {
            // the looked-up entry is one chunk of the specification walk
            lemma_div_pow2_add(h as nat, 2 * sf as nat, 6);
            assert(hq / 64 == h as nat / pow2(2 * m as nat));
            lemma2_to64();
            lemma_rev_chunk(st, hq);
            assert(x3 as nat == spec_decode(st, hq, 3).0);
            assert(y3 as nat == spec_decode(st, hq, 3).1);
            assert(e as nat / 64 == dec_state(st, hq, 3));

            // the walk so far extends by this chunk
            lemma_decode_split(0, hq, (n - sf) as nat, 3);
            assert(spec_decode(0, hq, (n - sf) as nat).0
                == p.0 * pow2(3) + spec_decode(st, hq, 3).0);
            assert(spec_decode(0, hq, (n - sf) as nat).1
                == p.1 * pow2(3) + spec_decode(st, hq, 3).1);
            assert(dec_state(0, hq, (n - sf) as nat) == dec_state(st, hq, 3));

            // the new accumulator values, and that they fit
            lemma_mul_is_distributive_add_other_way(
                pow2(sf as nat) as int,
                (p.0 * pow2(3)) as int,
                spec_decode(st, hq, 3).0 as int,
            );
            lemma_mul_is_distributive_add_other_way(
                pow2(sf as nat) as int,
                (p.1 * pow2(3)) as int,
                spec_decode(st, hq, 3).1 as int,
            );
            lemma_pow2_adds(3, sf as nat);
            lemma_mul_is_associative(p.0 as int, pow2(3) as int, pow2(sf as nat) as int);
            lemma_mul_is_associative(p.1 as int, pow2(3) as int, pow2(sf as nat) as int);
            assert(spec_decode(0, hq, (n - sf) as nat).0 * pow2(sf as nat)
                == p.0 * pow2(m as nat) + spec_decode(st, hq, 3).0 * pow2(sf as nat));
            assert(spec_decode(0, hq, (n - sf) as nat).1 * pow2(sf as nat)
                == p.1 * pow2(m as nat) + spec_decode(st, hq, 3).1 * pow2(sf as nat));

            let w: nat = if n <= 64 { (n - sf) as nat } else { (64 - sf) as nat };
            lemma_pow2_adds(2 * sf as nat, 2 * w);
            crate::bitmath::lemma_div_bound(h as nat, 2 * sf as nat, 2 * w);
            assert(hq < pow2(2 * w));
            lemma_decode_capped(hq, w, (n - sf) as nat);
            assert(spec_decode(0, hq, (n - sf) as nat).0 < pow2(w));
            assert(spec_decode(0, hq, (n - sf) as nat).1 < pow2(w));
            lemma_pow2_adds(w, sf as nat);
            assert(spec_decode(0, hq, (n - sf) as nat).0 * pow2(sf as nat)
                < pow2(w + sf as nat)) by (nonlinear_arith)
                requires
                    spec_decode(0, hq, (n - sf) as nat).0 < pow2(w),
                    pow2(w) * pow2(sf as nat) == pow2(w + sf as nat),
                    pow2(sf as nat) > 0,
            ;
            assert(spec_decode(0, hq, (n - sf) as nat).1 * pow2(sf as nat)
                < pow2(w + sf as nat)) by (nonlinear_arith)
                requires
                    spec_decode(0, hq, (n - sf) as nat).1 < pow2(w),
                    pow2(w) * pow2(sf as nat) == pow2(w + sf as nat),
                    pow2(sf as nat) > 0,
            ;
            assert(w + sf as nat <= 64);
            if w + (sf as nat) < 64 {
                lemma_pow2_strictly_increases(w + sf as nat, 64);
            }
            assert(x3 as nat * pow2(sf as nat) <= spec_decode(0, hq, (n - sf) as nat).0
                * pow2(sf as nat));
            assert(y3 as nat * pow2(sf as nat) <= spec_decode(0, hq, (n - sf) as nat).1
                * pow2(sf as nat));
            lemma_u64_shl_is_mul(x3, sf as u64);
            lemma_u64_shl_is_mul(y3, sf as u64);

            // the shifted chunks and the accumulators do not overlap
            lemma_pow2_adds(sf as nat, 3);
            assert(x3 as nat * pow2(sf as nat) < pow2(m as nat)) by (nonlinear_arith)
                requires
                    (x3 as nat) < 8,
                    pow2(sf as nat) * 8 == pow2(m as nat),
                    pow2(sf as nat) > 0,
            ;
            assert(y3 as nat * pow2(sf as nat) < pow2(m as nat)) by (nonlinear_arith)
                requires
                    (y3 as nat) < 8,
                    pow2(sf as nat) * 8 == pow2(m as nat),
                    pow2(sf as nat) > 0,
            ;
            lemma_mod_multiples_vanish(p.0 as int, 0, pow2(m as nat) as int);
            lemma_mod_multiples_vanish(p.1 as int, 0, pow2(m as nat) as int);
            lemma_small_mod(0, pow2(m as nat));
            assert(xr as nat == pow2(m as nat) * p.0 + 0) by (nonlinear_arith)
                requires xr as nat == p.0 * pow2(m as nat);
            assert(yr as nat == pow2(m as nat) * p.1 + 0) by (nonlinear_arith)
                requires yr as nat == p.1 * pow2(m as nat);
            assert(xr as nat % pow2(m as nat) == 0);
            assert(yr as nat % pow2(m as nat) == 0);
            if m >= 64 {
                assert(m == n);
                assert(p.0 == 0 && p.1 == 0);
                assert(xr as nat == 0 && yr as nat == 0);
            } else {
                lemma_u64_or_is_add(xr, x3 << (sf as u64), m as u64);
                lemma_u64_or_is_add(yr, y3 << (sf as u64), m as u64);
            }
        }
        xr = xr | (x3 << (sf as u64));
        yr = yr | (y3 << (sf as u64));
        proof {
            if m >= 64 {
                assert(xr == x3 << (sf as u64)) by (bit_vector)
                    requires xr == 0u64 | (x3 << (sf as u64)),
                ;
                assert(yr == y3 << (sf as u64)) by (bit_vector)
                    requires yr == 0u64 | (y3 << (sf as u64)),
                ;
            }
            assert(xr as nat == spec_decode(0, hq, (n - sf) as nat).0 * pow2(sf as nat));
            assert(yr as nat == spec_decode(0, hq, (n - sf) as nat).1 * pow2(sf as nat));
        }
        state = e / 64;
        m = sf;
    }
    // final chunk of m index-bit pairs, padded at the bottom
    let pad: u32 = 3 - m;
    let ghost st: nat = state as nat;
    let ghost p: (nat, nat) = spec_decode(0, h as nat / pow2(2 * m as nat), (n - m) as nat);
    proof {
        lemma2_to64();
        lemma_pow2_pos(m as nat);
        lemma_pow2_pos(2 * m as nat);
        lemma_pow2_pos(2 * pad as nat);
        lemma_u128_shl_mask63(h, (2 * pad) as u128);
        assert(((h << ((2 * pad) as u128)) & 63) as nat
            == (h as nat % pow2(2 * m as nat)) * pow2(2 * pad as nat));
        lemma_pow2_adds(2 * m as nat, 2 * pad as nat);
        assert((h as nat % pow2(2 * m as nat)) * pow2(2 * pad as nat) < 64) by (nonlinear_arith)
            requires
                h as nat % pow2(2 * m as nat) < pow2(2 * m as nat),
                pow2(2 * m as nat) * pow2(2 * pad as nat) == 64,
                pow2(2 * pad as nat) > 0,
        ;
        assert(((h << ((2 * pad) as u128)) & 63) < 64);
    }
    let h6: u8 = ((h << ((2 * pad) as u128)) & 63) as u8;
    let idx: u8 = state * 64 + h6;
    let e: u8 = rev_entry(idx);
    let x3: u64 = ((e / 8) % 8) as u64;
    let y3: u64 = (e % 8) as u64;
    proof {
        lemma_rev_final(st, h as nat, m as nat);
        lemma_u64_shr_is_div(x3, pad as u64);
        lemma_u64_shr_is_div(y3, pad as u64);
        assert((x3 >> (pad as u64)) as nat == spec_decode(st, h as nat, m as nat).0);
        assert((y3 >> (pad as u64)) as nat == spec_decode(st, h as nat, m as nat).1);
        lemma_decode_split(0, h as nat, n as nat, m as nat);
        assert(spec_decode(0, h as nat, n as nat).0
            == p.0 * pow2(m as nat) + spec_decode(st, h as nat, m as nat).0);
        assert(spec_decode(0, h as nat, n as nat).1
            == p.1 * pow2(m as nat) + spec_decode(st, h as nat, m as nat).1);
        lemma_decode_bound(st, h as nat, m as nat);
        lemma_mod_multiples_vanish(p.0 as int, 0, pow2(m as nat) as int);
        lemma_mod_multiples_vanish(p.1 as int, 0, pow2(m as nat) as int);
        lemma_small_mod(0, pow2(m as nat));
        assert(xr as nat == pow2(m as nat) * p.0 + 0) by (nonlinear_arith)
            requires xr as nat == p.0 * pow2(m as nat);
        assert(yr as nat == pow2(m as nat) * p.1 + 0) by (nonlinear_arith)
            requires yr as nat == p.1 * pow2(m as nat);
        assert(xr as nat % pow2(m as nat) == 0);
        assert(yr as nat % pow2(m as nat) == 0);
        lemma_u64_or_is_add(xr, x3 >> (pad as u64), m as u64);
        lemma_u64_or_is_add(yr, y3 >> (pad as u64), m as u64);
    }
    (xr | (x3 >> (pad as u64)), yr | (y3 >> (pad as u64)))
}

/// The encoder's result fits the double of any even width that holds both
/// coordinates.
pub proof fn lemma_enc_fits(x: nat, y: nat, order: nat, w: nat)
    requires
        x < pow2(w),
        y < pow2(w),
    ensures
        spec_encode(0, x, y, enc_order(x, y, order)) < pow2(2 * w),
{
    let n = enc_order(x, y, order);
    if n >= w {
        lemma_encode_capped(x, y, w, n);
    } else {
        lemma_encode_bound(0, x, y, n);
        lemma_pow2_strictly_increases(2 * n, 2 * w);
    }
}

/// The decoder's results fit any even width whose double holds the index.
pub proof fn lemma_dec_fits(h: nat, order: nat, w: nat)
    requires
        h < pow2(2 * w),
    ensures
        spec_decode(0, h, dec_order(h, order)).0 < pow2(w),
        spec_decode(0, h, dec_order(h, order)).1 < pow2(w),
{
    let n = dec_order(h, order);
    if n >= w {
        lemma_decode_capped(h, w, n);
    } else {
        lemma_decode_bound(0, h, n);
        lemma_pow2_strictly_increases(n, w);
    }
}

} // verus!
