//! The canonical Hilbert automaton, one bit per axis per step, and the
//! specification-level encode and decode walks built on it.
//!
//! A step of the automaton is described by a 16-entry map: the current
//! orientation state (2 bits) together with one bit of `x` and one bit of
//! `y` determine the next state and two bits of the Hilbert index (forward
//! direction), or the state together with two index bits determine the next
//! state and one bit of each coordinate (reverse direction).

use vstd::prelude::*;
use vstd::arithmetic::power2::pow2;
use vstd::arithmetic::power2::{lemma_pow2_adds, lemma_pow2_pos};
use vstd::arithmetic::mul::{lemma_mul_is_distributive_add_other_way, lemma_mul_is_associative};
use crate::bitmath::lemma_div_pow2_add;

verus! {

/// Bit `i` of `x` (0 or 1).
pub open spec fn nbit(x: nat, i: nat) -> nat {
    (x / pow2(i)) % 2
}

/// Forward step of the canonical automaton.
///
/// The index packs `state * 4 + x_bit * 2 + y_bit`; the result packs
/// `next_state * 4 + index_bits`, where `index_bits` is the 2-bit Hilbert
/// index chunk emitted for this step.
pub open spec fn base_fwd(i: nat) -> nat {
    if i == 0 { 4 }
    else if i == 1 { 1 }
    else if i == 2 { 11 }
    else if i == 3 { 2 }
    else if i == 4 { 0 }
    else if i == 5 { 15 }
    else if i == 6 { 5 }
    else if i == 7 { 6 }
    else if i == 8 { 10 }
    else if i == 9 { 9 }
    else if i == 10 { 3 }
    else if i == 11 { 12 }
    else if i == 12 { 14 }
    else if i == 13 { 7 }
    else if i == 14 { 13 }
    else { 8 }
}

/// Reverse step of the canonical automaton.
///
/// The index packs `state * 4 + index_bits`; the result packs
/// `next_state * 4 + x_bit * 2 + y_bit`.
pub open spec fn base_rev(i: nat) -> nat {
    if i == 0 { 4 }
    else if i == 1 { 1 }
    else if i == 2 { 3 }
    else if i == 3 { 10 }
    else if i == 4 { 0 }
    else if i == 5 { 6 }
    else if i == 6 { 7 }
    else if i == 7 { 13 }
    else if i == 8 { 15 }
    else if i == 9 { 9 }
    else if i == 10 { 8 }
    else if i == 11 { 2 }
    else if i == 12 { 11 }
    else if i == 13 { 14 }
    else if i == 14 { 12 }
    else { 5 }
}

/// Hilbert index of `(x, y)` at order `n`, starting from orientation `s`:
/// the automaton consumes bits `n-1` down to `0` of each coordinate, most
/// significant first, emitting two index bits per step.
pub open spec fn spec_encode(s: nat, x: nat, y: nat, n: nat) -> nat
    decreases n,
{
    if n == 0 {
        0
    } else {
        let m = (n - 1) as nat;
        let r = base_fwd(s * 4 + nbit(x, m) * 2 + nbit(y, m));
        (r % 4) * pow2(2 * m) + spec_encode(r / 4, x, y, m)
    }
}

/// Orientation state after encoding `n` bits of `(x, y)` from state `s`.
pub open spec fn enc_state(s: nat, x: nat, y: nat, n: nat) -> nat
    decreases n,
{
    if n == 0 {
        s
    } else {
        let m = (n - 1) as nat;
        let r = base_fwd(s * 4 + nbit(x, m) * 2 + nbit(y, m));
        enc_state(r / 4, x, y, m)
    }
}

/// Coordinates `(x, y)` of Hilbert index `h` at order `n`, starting from
/// orientation `s`: the automaton consumes two index bits per step, most
/// significant first, emitting one bit of each coordinate.
pub open spec fn spec_decode(s: nat, h: nat, n: nat) -> (nat, nat)
    decreases n,
{
    if n == 0 {
        (0, 0)
    } else {
        let m = (n - 1) as nat;
        let h2 = (h / pow2(2 * m)) % 4;
        let r = base_rev(s * 4 + h2);
        let p = spec_decode(r / 4, h, m);
        (((r / 2) % 2) * pow2(m) + p.0, (r % 2) * pow2(m) + p.1)
    }
}

/// Orientation state after decoding `n` index-bit pairs of `h` from state `s`.
pub open spec fn dec_state(s: nat, h: nat, n: nat) -> nat
    decreases n,
{
    if n == 0 {
        s
    } else {
        let m = (n - 1) as nat;
        let h2 = (h / pow2(2 * m)) % 4;
        let r = base_rev(s * 4 + h2);
        dec_state(r / 4, h, m)
    }
}

/// Every forward step result fits in 4 bits, so the next state and the
/// emitted chunk are both in range.
pub proof fn lemma_base_fwd_bound(i: nat)
    ensures
        base_fwd(i) < 16,
{
}

/// Every reverse step result fits in 4 bits.
pub proof fn lemma_base_rev_bound(i: nat)
    ensures
        base_rev(i) < 16,
{
}

/// The encoded index occupies at most `2 * n` bits.
pub proof fn lemma_encode_bound(s: nat, x: nat, y: nat, n: nat)
    ensures
        spec_encode(s, x, y, n) < pow2(2 * n),
    decreases n,
{
    vstd::arithmetic::power2::lemma2_to64();
    vstd::arithmetic::power2::lemma_pow2_pos(2 * n);
    if n == 0 {
    } else {
        let m = (n - 1) as nat;
        let r = base_fwd(s * 4 + nbit(x, m) * 2 + nbit(y, m));
        lemma_encode_bound(r / 4, x, y, m);
        vstd::arithmetic::power2::lemma_pow2_adds(2 * m, 2);
        assert((r % 4) * pow2(2 * m) + spec_encode(r / 4, x, y, m)
            < (r % 4) * pow2(2 * m) + pow2(2 * m));
        assert((r % 4) * pow2(2 * m) + pow2(2 * m) <= 4 * pow2(2 * m)) by (nonlinear_arith)
            requires r % 4 < 4, pow2(2 * m) > 0;
    }
}

/// Each decoded coordinate occupies at most `n` bits.
pub proof fn lemma_decode_bound(s: nat, h: nat, n: nat)
    ensures
        spec_decode(s, h, n).0 < pow2(n),
        spec_decode(s, h, n).1 < pow2(n),
    decreases n,
{
    vstd::arithmetic::power2::lemma2_to64();
    vstd::arithmetic::power2::lemma_pow2_pos(n);
    if n == 0 {
    } else {
        let m = (n - 1) as nat;
        let h2 = (h / pow2(2 * m)) % 4;
        let r = base_rev(s * 4 + h2);
        lemma_decode_bound(r / 4, h, m);
        vstd::arithmetic::power2::lemma_pow2_adds(m, 1);
    }
}

/// Walking `n` bits splits after the top `n - m` of them: the index is the
/// index of the high coordinate bits followed by the index of the low `m`
/// bits, walked from the state the high bits reach.
pub proof fn lemma_encode_split(s: nat, x: nat, y: nat, n: nat, m: nat)
    requires
        s < 4,
        m <= n,
    ensures
        spec_encode(s, x, y, n) == spec_encode(s, x / pow2(m), y / pow2(m), (n - m) as nat)
            * pow2(2 * m)
            + spec_encode(enc_state(s, x / pow2(m), y / pow2(m), (n - m) as nat), x, y, m),
        enc_state(s, x, y, n)
            == enc_state(enc_state(s, x / pow2(m), y / pow2(m), (n - m) as nat), x, y, m),
    decreases n,
{
    lemma_pow2_pos(m);
    lemma_pow2_pos(2 * m);
    let xt = x / pow2(m);
    let yt = y / pow2(m);
    if n == m {
        assert(spec_encode(s, xt, yt, 0) == 0);
        assert(enc_state(s, xt, yt, 0) == s);
    } else {
        let k = (n - 1) as nat;
        let kt = (n - m - 1) as nat;
        lemma_pow2_pos(k);
        lemma_pow2_pos(kt);
        lemma_div_pow2_add(x, m, kt);
        lemma_div_pow2_add(y, m, kt);
        assert(nbit(xt, kt) == nbit(x, k));
        assert(nbit(yt, kt) == nbit(y, k));
        let r = base_fwd(s * 4 + nbit(x, k) * 2 + nbit(y, k));
        lemma_base_fwd_bound(s * 4 + nbit(x, k) * 2 + nbit(y, k));
        lemma_encode_split(r / 4, x, y, k, m);
        assert(spec_encode(s, xt, yt, (n - m) as nat)
            == (r % 4) * pow2(2 * kt) + spec_encode(r / 4, xt, yt, kt));
        assert(enc_state(s, xt, yt, (n - m) as nat) == enc_state(r / 4, xt, yt, kt));
        lemma_mul_is_distributive_add_other_way(
            pow2(2 * m) as int,
            ((r % 4) * pow2(2 * kt)) as int,
            spec_encode(r / 4, xt, yt, kt) as int,
        );
        lemma_pow2_adds(2 * kt, 2 * m);
        lemma_mul_is_associative((r % 4) as int, pow2(2 * kt) as int, pow2(2 * m) as int);
        assert(((r % 4) * pow2(2 * kt)) * pow2(2 * m) == (r % 4) * pow2(2 * k));
    }
}

/// Walking `n` index-bit pairs splits after the top `n - m` of them: each
/// coordinate is the high decoded bits shifted up by `m`, plus the bits
/// decoded from the low `m` pairs, walked from the state the high pairs
/// reach.
pub proof fn lemma_decode_split(s: nat, h: nat, n: nat, m: nat)
    requires
        s < 4,
        m <= n,
    ensures
        spec_decode(s, h, n).0 == spec_decode(s, h / pow2(2 * m), (n - m) as nat).0 * pow2(m)
            + spec_decode(dec_state(s, h / pow2(2 * m), (n - m) as nat), h, m).0,
        spec_decode(s, h, n).1 == spec_decode(s, h / pow2(2 * m), (n - m) as nat).1 * pow2(m)
            + spec_decode(dec_state(s, h / pow2(2 * m), (n - m) as nat), h, m).1,
        dec_state(s, h, n)
            == dec_state(dec_state(s, h / pow2(2 * m), (n - m) as nat), h, m),
    decreases n,
{
    lemma_pow2_pos(m);
    lemma_pow2_pos(2 * m);
    let ht = h / pow2(2 * m);
    if n == m {
        assert(spec_decode(s, ht, 0) == (0nat, 0nat));
        assert(dec_state(s, ht, 0) == s);
        assert(spec_decode(s, ht, (n - m) as nat).0 == 0);
        assert(spec_decode(s, ht, (n - m) as nat).1 == 0);
        assert(spec_decode(s, ht, (n - m) as nat).0 * pow2(m) == 0);
        assert(spec_decode(s, ht, (n - m) as nat).1 * pow2(m) == 0);
        assert(spec_decode(dec_state(s, ht, (n - m) as nat), h, m).0 == spec_decode(s, h, m).0);
        assert(spec_decode(s, h, n).0 == spec_decode(s, h, m).0);
        assert(spec_decode(s, h, n).0
            == spec_decode(s, ht, (n - m) as nat).0 * pow2(m) + spec_decode(dec_state(s, ht, (n - m) as nat), h, m).0);
        assert(spec_decode(s, h, n).1
            == spec_decode(s, ht, (n - m) as nat).1 * pow2(m) + spec_decode(dec_state(s, ht, (n - m) as nat), h, m).1);
    } else {
        let k = (n - 1) as nat;
        let kt = (n - m - 1) as nat;
        lemma_pow2_pos(2 * k);
        lemma_pow2_pos(2 * kt);
        lemma_div_pow2_add(h, 2 * m, 2 * kt);
        assert(ht / pow2(2 * kt) == h / pow2(2 * k));
        let h2 = (h / pow2(2 * k)) % 4;
        let r = base_rev(s * 4 + h2);
        lemma_base_rev_bound(s * 4 + h2);
        lemma_decode_split(r / 4, h, k, m);
        let pl = spec_decode(r / 4, h, k);
        assert(spec_decode(s, h, n).0 == ((r / 2) % 2) * pow2(k) + pl.0);
        assert(spec_decode(s, h, n).1 == (r % 2) * pow2(k) + pl.1);
        let pt = spec_decode(r / 4, ht, kt);
        assert(spec_decode(s, ht, (n - m) as nat).0 == ((r / 2) % 2) * pow2(kt) + pt.0);
        assert(spec_decode(s, ht, (n - m) as nat).1 == (r % 2) * pow2(kt) + pt.1);
        assert(dec_state(s, ht, (n - m) as nat) == dec_state(r / 4, ht, kt));
        lemma_mul_is_distributive_add_other_way(
            pow2(m) as int,
            (((r / 2) % 2) * pow2(kt)) as int,
            pt.0 as int,
        );
        lemma_mul_is_distributive_add_other_way(
            pow2(m) as int,
            ((r % 2) * pow2(kt)) as int,
            pt.1 as int,
        );
        lemma_pow2_adds(kt, m);
        lemma_mul_is_associative(((r / 2) % 2) as int, pow2(kt) as int, pow2(m) as int);
        lemma_mul_is_associative((r % 2) as int, pow2(kt) as int, pow2(m) as int);
        assert((((r / 2) % 2) * pow2(kt)) * pow2(m) == ((r / 2) % 2) * pow2(k));
        assert(((r % 2) * pow2(kt)) * pow2(m) == (r % 2) * pow2(k));
        let dst = dec_state(s, ht, (n - m) as nat);
        assert(dst == dec_state(r / 4, ht, kt));
        assert(pl.0 == pt.0 * pow2(m) + spec_decode(dst, h, m).0);
        assert(pl.1 == pt.1 * pow2(m) + spec_decode(dst, h, m).1);
        assert(spec_decode(s, h, n).0
            == spec_decode(s, ht, (n - m) as nat).0 * pow2(m) + spec_decode(dst, h, m).0);
        assert(spec_decode(s, h, n).1
            == spec_decode(s, ht, (n - m) as nat).1 * pow2(m) + spec_decode(dst, h, m).1);
    }
}

} // verus!
