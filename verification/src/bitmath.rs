//! Small arithmetic facts about extracting bit fields with division and
//! remainder by powers of two, shared by the automaton lemmas and the
//! chunked engine.

use vstd::prelude::*;
use vstd::arithmetic::power2::{pow2, lemma_pow2_adds, lemma_pow2_pos, lemma_pow2_strictly_increases, lemma2_to64};
use vstd::arithmetic::power2::lemma_pow2_unfold;
use vstd::arithmetic::div_mod::{lemma_div_denominator, lemma_fundamental_div_mod, lemma_hoist_over_denominator, lemma_mod_multiples_vanish, lemma_fundamental_div_mod_converse, lemma_multiply_divide_lt};

verus! {

/// Dividing twice by powers of two is dividing by the sum of the exponents.
pub proof fn lemma_div_pow2_add(x: nat, a: nat, b: nat)
    ensures
        (x / pow2(a)) / pow2(b) == x / pow2(a + b),
{
    lemma_pow2_pos(a);
    lemma_pow2_pos(b);
    lemma_div_denominator(x as int, pow2(a) as int, pow2(b) as int);
    lemma_pow2_adds(a, b);
}

/// A field of `c` bits starting at bit `a` is unchanged by first truncating
/// `x` to its low `b` bits, as long as the field lies inside those bits.
pub proof fn lemma_extract_mod(x: nat, a: nat, c: nat, b: nat)
    requires
        a + c <= b,
    ensures
        ((x % pow2(b)) / pow2(a)) % pow2(c) == (x / pow2(a)) % pow2(c),
{
    lemma_pow2_pos(a);
    lemma_pow2_pos(b);
    lemma_pow2_pos(c);
    let q = x / pow2(b);
    let r = x % pow2(b);
    lemma_fundamental_div_mod(x as int, pow2(b) as int);
    assert(x == pow2(b) * q + r);
    let e = (b - a) as nat;
    lemma_pow2_adds(a, e);
    lemma_pow2_pos(e);
    // x / pow2(a) == pow2(b - a) * q + r / pow2(a)
    lemma_hoist_over_denominator(r as int, (pow2(e) * q) as int, pow2(a));
    assert((pow2(e) * q) * pow2(a) == pow2(b) * q) by (nonlinear_arith)
        requires pow2(a) * pow2(e) == pow2(b);
    assert(x / pow2(a) == pow2(e) * q + r / pow2(a));
    // the multiple of pow2(e) vanishes modulo pow2(c) since c <= e
    let f = (e - c) as nat;
    lemma_pow2_adds(c, f);
    assert(pow2(e) * q == pow2(c) * (pow2(f) * q)) by (nonlinear_arith)
        requires pow2(c) * pow2(f) == pow2(e);
    lemma_mod_multiples_vanish((pow2(f) * q) as int, (r / pow2(a)) as int, pow2(c) as int);
}

/// A value strictly below `pow2(a + c)` has a quotient by `pow2(a)` below
/// `pow2(c)`.
pub proof fn lemma_div_bound(x: nat, a: nat, c: nat)
    requires
        x < pow2(a + c),
    ensures
        x / pow2(a) < pow2(c),
{
    lemma_pow2_pos(a);
    lemma_pow2_pos(c);
    lemma_pow2_adds(a, c);
    lemma_multiply_divide_lt(x as int, pow2(a) as int, pow2(c) as int);
}

/// Adding a multiple of `pow2(a)` to a value below `pow2(a)`: the quotient
/// and remainder by `pow2(a)` recover the two parts.
pub proof fn lemma_place_field(q: nat, r: nat, a: nat)
    requires
        r < pow2(a),
    ensures
        (q * pow2(a) + r) / pow2(a) == q,
        (q * pow2(a) + r) % pow2(a) == r,
{
    lemma_pow2_pos(a);
    lemma_fundamental_div_mod_converse((q * pow2(a) + r) as int, pow2(a) as int, q as int, r as int);
}

/// `pow2` values for every even exponent that a 128-bit index can use.
pub proof fn lemma_pow2_le_128(e: nat)
    requires
        e <= 128,
    ensures
        pow2(e) <= pow2(128),
        pow2(128) == 0x100000000000000000000000000000000,
{
    lemma2_to64();
    lemma_pow2_adds(64, 64);
    assert(pow2(64) * pow2(64) == 0x100000000000000000000000000000000) by (nonlinear_arith)
        requires pow2(64) == 0x10000000000000000;
    if e < 128 {
        lemma_pow2_strictly_increases(e, 128);
    }
}

/// Number of significant bits of `v`: the least `n` with `v < pow2(n)`.
pub open spec fn bit_len(v: nat) -> nat
    decreases v,
{
    if v == 0 {
        0
    } else {
        1 + bit_len(v / 2)
    }
}

/// `bit_len` names the tight power-of-two window around `v`.
pub proof fn lemma_bit_len(v: nat)
    ensures
        v < pow2(bit_len(v)),
        v > 0 ==> pow2((bit_len(v) - 1) as nat) <= v,
    decreases v,
{
    lemma2_to64();
    if v > 0 {
        lemma_bit_len(v / 2);
        let b = bit_len(v);
        let bp = bit_len(v / 2);
        lemma_fundamental_div_mod(v as int, 2);
        lemma_pow2_unfold(b);
        assert(v < pow2(b));
        if v / 2 == 0 {
            assert(b == 1);
        } else {
            lemma_pow2_unfold(bp);
            assert(pow2((b - 1) as nat) == pow2(bp));
        }
    }
}

/// Any power-of-two bound on `v` bounds its bit length.
pub proof fn lemma_bit_len_le(v: nat, k: nat)
    requires
        v < pow2(k),
    ensures
        bit_len(v) <= k,
    decreases v,
{
    lemma2_to64();
    if v > 0 {
        if k == 0 {
            assert(false);
        } else {
            lemma_pow2_unfold(k);
            lemma_fundamental_div_mod(v as int, 2);
            assert(v / 2 < pow2((k - 1) as nat));
            lemma_bit_len_le(v / 2, (k - 1) as nat);
        }
    }
}

/// A single bit shifted left is the corresponding power of two.
pub proof fn lemma_u128_one_shl(k: u128)
    requires
        k < 128,
    ensures
        (1u128 << k) as nat == pow2(k as nat),
    decreases k,
{
    lemma2_to64();
    if k == 0 {
        assert(1u128 << 0u128 == 1) by (bit_vector);
    } else {
        let km = (k - 1) as u128;
        lemma_u128_one_shl(km);
        let v = 1u128 << km;
        lemma_pow2_127();
        lemma_pow2_strictly_increases(km as nat, 127);
        assert((v as nat) < pow2(127));
        assert(1u128 << k == v * 2) by (bit_vector)
            requires 0 < k < 128, km == k - 1, v == 1u128 << km,
                v < 0x80000000000000000000000000000000u128,
        ;
        lemma_pow2_unfold(k as nat);
    }
}

/// The value of `pow2` at the top bit of a 128-bit word.
pub proof fn lemma_pow2_127()
    ensures
        pow2(127) == 0x80000000000000000000000000000000,
{
    lemma2_to64();
    vstd::arithmetic::power2::lemma2_to64_rest();
    lemma_pow2_adds(63, 64);
    assert(pow2(63) * pow2(64) == 0x80000000000000000000000000000000) by (nonlinear_arith)
        requires pow2(63) == 0x8000000000000000, pow2(64) == 0x10000000000000000;
}

/// Shifting left multiplies by a power of two, as long as nothing is
/// shifted out at the top.
pub proof fn lemma_u128_shl_is_mul(x: u128, k: u128)
    requires
        k < 128,
        x as nat * pow2(k as nat) <= u128::MAX as nat,
    ensures
        (x << k) as nat == x as nat * pow2(k as nat),
    decreases k,
{
    lemma2_to64();
    if k == 0 {
        assert(x << 0u128 == x) by (bit_vector);
        assert((x << k) as nat == x as nat * pow2(0));
    } else {
        let km = (k - 1) as u128;
        lemma_pow2_unfold(k as nat);
        assert(x as nat * pow2(km as nat) * 2 == x as nat * pow2(k as nat)) by (nonlinear_arith)
            requires pow2(k as nat) == 2 * pow2(km as nat);
        lemma_u128_shl_is_mul(x, km);
        let v = x << km;
        lemma_pow2_127();
        assert((v as nat) * 2 == x as nat * pow2(k as nat));
        assert((v as nat) < pow2(127));
        assert(x << k == v * 2) by (bit_vector)
            requires 0 < k < 128, km == k - 1, v == x << km,
                v < 0x80000000000000000000000000000000u128,
        ;
        assert((x << k) as nat == (v as nat) * 2);
        assert((x << k) as nat == x as nat * pow2(k as nat));
    }
}

/// Bitwise or of values whose set bits lie on opposite sides of bit `k` is
/// their sum, and the sum does not overflow.
pub proof fn lemma_u64_or_is_add(a: u64, b: u64, k: u64)
    requires
        k < 64,
        a as nat % pow2(k as nat) == 0,
        (b as nat) < pow2(k as nat),
    ensures
        (a | b) as nat == a as nat + b as nat,
{
    vstd::bits::lemma_u64_pow2_no_overflow(k as nat);
    vstd::bits::lemma_u64_shl_is_mul(1u64, k);
    let p = 1u64 << k;
    assert(p as nat == pow2(k as nat));
    vstd::bits::lemma_u64_shr_is_div(a, k);
    let q = a >> k;
    lemma_pow2_pos(k as nat);
    lemma_fundamental_div_mod(a as int, pow2(k as nat) as int);
    assert(q as nat * pow2(k as nat) == a as nat) by (nonlinear_arith)
        requires a as nat == pow2(k as nat) * (a as nat / pow2(k as nat)) + a as nat % pow2(k as nat),
            a as nat % pow2(k as nat) == 0, q as nat == a as nat / pow2(k as nat);
    vstd::bits::lemma_u64_shl_is_mul(q, k);
    assert(q << k == a);
    assert((a | b) == a + b) by (bit_vector)
        requires k < 64, a == q << k, b < (1u64 << k),
    ;
}

/// The 128-bit version of the disjoint-or fact.
pub proof fn lemma_u128_or_is_add(a: u128, b: u128, k: u128)
    requires
        k < 128,
        a as nat % pow2(k as nat) == 0,
        (b as nat) < pow2(k as nat),
    ensures
        (a | b) as nat == a as nat + b as nat,
{
    lemma_u128_one_shl(k);
    let p = 1u128 << k;
    assert(p as nat == pow2(k as nat));
    vstd::bits::lemma_u128_shr_is_div(a, k);
    let q = a >> k;
    lemma_pow2_pos(k as nat);
    lemma_fundamental_div_mod(a as int, pow2(k as nat) as int);
    assert(q as nat * pow2(k as nat) == a as nat) by (nonlinear_arith)
        requires a as nat == pow2(k as nat) * (a as nat / pow2(k as nat)) + a as nat % pow2(k as nat),
            a as nat % pow2(k as nat) == 0, q as nat == a as nat / pow2(k as nat);
    lemma_u128_shl_is_mul(q, k);
    assert(q << k == a);
    assert((a | b) == a + b) by (bit_vector)
        requires k < 128, a == q << k, b < (1u128 << k),
    ;
}

/// Masking with the six low bits set is taking the remainder by 64.
pub proof fn lemma_u128_mask63(z: u128)
    ensures
        (z & 63) as nat == z as nat % 64,
{
    assert(z & 63 == z % 64) by (bit_vector);
}

/// Masking with the three low bits set is taking the remainder by 8.
pub proof fn lemma_u64_mask7(z: u64)
    ensures
        (z & 7) as nat == z as nat % 8,
{
    assert(z & 7 == z % 8) by (bit_vector);
}

/// Shifting a coordinate left by the padding width and masking to a 3-bit
/// chunk places its remaining low bits at the top of the chunk.
pub proof fn lemma_u64_shl_mask7(x: u64, p: u64)
    requires
        p <= 3,
    ensures
        ((x << p) & 7) as nat == (x as nat % pow2((3 - p) as nat)) * pow2(p as nat),
{
    lemma2_to64();
    if p == 0 {
        assert((x << 0u64) & 7 == x % 8) by (bit_vector);
    } else if p == 1 {
        assert((x << 1u64) & 7 == (x % 4) * 2) by (bit_vector);
    } else if p == 2 {
        assert((x << 2u64) & 7 == (x % 2) * 4) by (bit_vector);
    } else {
        assert((x << 3u64) & 7 == 0) by (bit_vector);
        assert(x as nat % 1 == 0) by (nonlinear_arith);
    }
}

/// Shifting an index left by the padding width and masking to a 6-bit
/// chunk places its remaining low bit pairs at the top of the chunk.
pub proof fn lemma_u128_shl_mask63(h: u128, q: u128)
    requires
        q <= 6,
        q % 2 == 0,
    ensures
        ((h << q) & 63) as nat == (h as nat % pow2((6 - q) as nat)) * pow2(q as nat),
{
    lemma2_to64();
    if q == 0 {
        assert((h << 0u128) & 63 == h % 64) by (bit_vector);
    } else if q == 2 {
        assert((h << 2u128) & 63 == (h % 16) * 4) by (bit_vector);
    } else if q == 4 {
        assert((h << 4u128) & 63 == (h % 4) * 16) by (bit_vector);
    } else {
        assert((h << 6u128) & 63 == 0) by (bit_vector);
        assert(h as nat % 1 == 0) by (nonlinear_arith);
    }
}

} // verus!
