//! The two directions of the automaton invert each other: encoding then
//! decoding at the same order recovers the coordinates, and decoding then
//! encoding recovers the index.  Leading zero bits only toggle the
//! orientation between the two upright states, which makes the result
//! independent of how far the order overshoots the significant bits, as
//! long as the overshoot keeps its parity.

use vstd::prelude::*;
use vstd::arithmetic::power2::{pow2, lemma_pow2_adds, lemma_pow2_pos, lemma_pow2_strictly_increases, lemma2_to64};
use vstd::arithmetic::div_mod::{lemma_fundamental_div_mod, lemma_basic_div, lemma_small_mod, lemma_mod_breakdown, lemma_fundamental_div_mod_converse, lemma_mod_mod};
use crate::automaton::{nbit, base_fwd, base_rev, spec_encode, spec_decode, enc_state, dec_state, lemma_base_fwd_bound, lemma_base_rev_bound, lemma_encode_bound, lemma_decode_bound};
use crate::bitmath::{lemma_extract_mod, lemma_place_field, lemma_div_bound};

verus! {

/// A forward step followed by the reverse step on the chunk it emitted
/// recovers the coordinate bits and agrees on the next state.
pub proof fn lemma_base_fwd_rev(s: nat, xb: nat, yb: nat)
    requires
        s < 4,
        xb < 2,
        yb < 2,
    ensures
        base_rev(s * 4 + base_fwd(s * 4 + xb * 2 + yb) % 4)
            == (base_fwd(s * 4 + xb * 2 + yb) / 4) * 4 + xb * 2 + yb,
{
}

/// A reverse step followed by the forward step on the coordinate bits it
/// emitted recovers the index chunk and agrees on the next state.
pub proof fn lemma_base_rev_fwd(s: nat, h2: nat)
    requires
        s < 4,
        h2 < 4,
    ensures
        base_fwd(s * 4 + ((base_rev(s * 4 + h2) / 2) % 2) * 2 + base_rev(s * 4 + h2) % 2)
            == (base_rev(s * 4 + h2) / 4) * 4 + h2,
{
}

/// Encoding reads only the low `n` bits of each coordinate.
pub proof fn lemma_encode_mod(s: nat, x: nat, y: nat, n: nat, k: nat)
    requires
        n <= k,
    ensures
        spec_encode(s, x % pow2(k), y % pow2(k), n) == spec_encode(s, x, y, n),
        enc_state(s, x % pow2(k), y % pow2(k), n) == enc_state(s, x, y, n),
    decreases n,
{
    lemma_pow2_pos(k);
    if n > 0 {
        let m = (n - 1) as nat;
        lemma2_to64();
        lemma_extract_mod(x, m, 1, k);
        lemma_extract_mod(y, m, 1, k);
        assert(nbit(x % pow2(k), m) == nbit(x, m));
        assert(nbit(y % pow2(k), m) == nbit(y, m));
        let r = base_fwd(s * 4 + nbit(x, m) * 2 + nbit(y, m));
        lemma_encode_mod(r / 4, x, y, m, k);
    }
}

/// Decoding reads only the low `2 * n` bits of the index.
pub proof fn lemma_decode_mod(s: nat, h: nat, n: nat, k: nat)
    requires
        n <= k,
    ensures
        spec_decode(s, h % pow2(2 * k), n) == spec_decode(s, h, n),
        dec_state(s, h % pow2(2 * k), n) == dec_state(s, h, n),
    decreases n,
{
    lemma_pow2_pos(2 * k);
    if n > 0 {
        let m = (n - 1) as nat;
        lemma2_to64();
        lemma_extract_mod(h, 2 * m, 2, 2 * k);
        assert((h % pow2(2 * k)) / pow2(2 * m) % 4 == h / pow2(2 * m) % 4);
        let h2 = (h / pow2(2 * m)) % 4;
        let r = base_rev(s * 4 + h2);
        lemma_decode_mod(r / 4, h, m, k);
    }
}

/// Decoding an encoded index at the same order recovers the low `n` bits of
/// both coordinates, from any starting orientation.
pub proof fn lemma_encode_then_decode(s: nat, x: nat, y: nat, n: nat)
    requires
        s < 4,
    ensures
        spec_decode(s, spec_encode(s, x, y, n), n).0 == x % pow2(n),
        spec_decode(s, spec_encode(s, x, y, n), n).1 == y % pow2(n),
    decreases n,
{
    lemma2_to64();
    if n == 0 {
        assert(x % 1 == 0) by (nonlinear_arith);
        assert(y % 1 == 0) by (nonlinear_arith);
    } else {
        let m = (n - 1) as nat;
        let xb = nbit(x, m);
        let yb = nbit(y, m);
        let r = base_fwd(s * 4 + xb * 2 + yb);
        lemma_base_fwd_bound(s * 4 + xb * 2 + yb);
        let rest = spec_encode(r / 4, x, y, m);
        lemma_encode_bound(r / 4, x, y, m);
        let h = (r % 4) * pow2(2 * m) + rest;
        assert(h == spec_encode(s, x, y, n));

        // the top index chunk of h is exactly the emitted chunk
        lemma_place_field(r % 4, rest, 2 * m);
        assert(h / pow2(2 * m) == r % 4);
        lemma_small_mod(r % 4, 4);
        let h2 = (h / pow2(2 * m)) % 4;
        assert(h2 == r % 4);

        // the reverse step undoes the forward step
        lemma_base_fwd_rev(s, xb, yb);
        let rr = base_rev(s * 4 + h2);
        assert(rr == (r / 4) * 4 + (xb * 2 + yb));
        lemma_fundamental_div_mod_converse(rr as int, 4, (r / 4) as int, (xb * 2 + yb) as int);
        assert(rr / 4 == r / 4);
        assert(rr % 4 == xb * 2 + yb);
        lemma_mod_mod(rr as int, 2, 2);
        assert(rr % 2 == (xb * 2 + yb) % 2);
        lemma_fundamental_div_mod_converse((xb * 2 + yb) as int, 2, xb as int, yb as int);
        assert(rr % 2 == yb);
        lemma_extract_mod(rr, 1, 1, 2);
        assert((rr / 2) % 2 == ((rr % 4) / 2) % 2);
        assert((xb * 2 + yb) / 2 == xb);
        lemma_small_mod(xb, 2);
        assert((rr / 2) % 2 == xb);

        // the tail of h is the recursively encoded remainder
        lemma_place_field(r % 4, rest, 2 * m);
        assert(h % pow2(2 * m) == rest);
        lemma_decode_mod(r / 4, h, m, m);
        assert(spec_decode(r / 4, h, m) == spec_decode(r / 4, rest, m));

        lemma_encode_then_decode(r / 4, x, y, m);
        let p = spec_decode(r / 4, h, m);
        assert(p.0 == x % pow2(m));
        assert(p.1 == y % pow2(m));

        // recompose bit m with the low m bits
        lemma_pow2_pos(m);
        lemma_mod_breakdown(x as int, pow2(m) as int, 2);
        lemma_pow2_adds(m, 1);
        assert(pow2(n) == pow2(m) * 2);
        assert(x % pow2(n) == pow2(m) * xb + x % pow2(m));
        lemma_mod_breakdown(y as int, pow2(m) as int, 2);
        assert(y % pow2(n) == pow2(m) * yb + y % pow2(m));
    }
}

/// Encoding the decoded coordinates at the same order recovers the index,
/// from any starting orientation, for any index the order can hold.
pub proof fn lemma_decode_then_encode(s: nat, h: nat, n: nat)
    requires
        s < 4,
        h < pow2(2 * n),
    ensures
        spec_encode(s, spec_decode(s, h, n).0, spec_decode(s, h, n).1, n) == h,
    decreases n,
{
    lemma2_to64();
    if n == 0 {
    } else {
        let m = (n - 1) as nat;
        lemma_div_bound(h, 2 * m, 2);
        assert(h / pow2(2 * m) < 4);
        lemma_small_mod(h / pow2(2 * m), 4);
        let h2 = (h / pow2(2 * m)) % 4;
        assert(h2 == h / pow2(2 * m));
        let r = base_rev(s * 4 + h2);
        lemma_base_rev_bound(s * 4 + h2);
        let xb = (r / 2) % 2;
        let yb = r % 2;
        let p = spec_decode(r / 4, h, m);
        lemma_decode_bound(r / 4, h, m);
        let x = xb * pow2(m) + p.0;
        let y = yb * pow2(m) + p.1;
        assert(spec_decode(s, h, n).0 == x);
        assert(spec_decode(s, h, n).1 == y);

        // the top coordinate bits are the emitted bits
        lemma_place_field(xb, p.0, m);
        lemma_place_field(yb, p.1, m);
        lemma_small_mod(xb, 2);
        lemma_small_mod(yb, 2);
        assert(nbit(x, m) == xb);
        assert(nbit(y, m) == yb);

        // the forward step undoes the reverse step
        lemma_base_rev_fwd(s, h2);
        let rf = base_fwd(s * 4 + xb * 2 + yb);
        assert(rf == (r / 4) * 4 + h2);
        lemma_fundamental_div_mod_converse(rf as int, 4, (r / 4) as int, h2 as int);
        assert(rf / 4 == r / 4);
        assert(rf % 4 == h2);

        // the recursive encoding recovers the low index bits
        lemma_encode_mod(r / 4, x, y, m, m);
        assert(spec_encode(r / 4, x, y, m) == spec_encode(r / 4, x % pow2(m), y % pow2(m), m));
        lemma_place_field(xb, p.0, m);
        assert(x % pow2(m) == p.0);
        assert(y % pow2(m) == p.1);
        lemma_pow2_pos(2 * m);
        let hl = h % pow2(2 * m);
        lemma_pow2_adds(2 * m, 2);
        assert(hl < pow2(2 * m));
        lemma_decode_mod(r / 4, h, m, m);
        assert(spec_decode(r / 4, hl, m) == p);
        lemma_decode_then_encode(r / 4, hl, m);
        assert(spec_encode(r / 4, p.0, p.1, m) == hl);

        lemma_fundamental_div_mod(h as int, pow2(2 * m) as int);
        assert(h == pow2(2 * m) * h2 + hl);
        assert(spec_encode(s, x, y, n) == h2 * pow2(2 * m) + hl);
    }
}

/// Bits above the significant bits of both coordinates leave the encoding
/// unchanged apart from toggling between the two upright orientations: from
/// orientation 0 or 1, a step on a `(0, 0)` bit pair emits zero index bits
/// and moves to the other of the two.
pub proof fn lemma_encode_pad(x: nat, y: nat, m: nat, n: nat)
    requires
        x < pow2(m),
        y < pow2(m),
        m <= n,
    ensures
        spec_encode(0, x, y, n) == spec_encode(((n - m) as nat) % 2, x, y, m),
        spec_encode(1, x, y, n) == spec_encode(((n - m) as nat + 1) % 2, x, y, m),
        enc_state(0, x, y, n) == enc_state(((n - m) as nat) % 2, x, y, m),
        enc_state(1, x, y, n) == enc_state(((n - m) as nat + 1) % 2, x, y, m),
    decreases n,
{
    if n == m {
    } else {
        let k = (n - 1) as nat;
        lemma_pow2_pos(m);
        lemma_pow2_pos(k);
        lemma_pow2_pos(2 * k);
        if m < k {
            lemma_pow2_strictly_increases(m, k);
        }
        lemma_basic_div(x as int, pow2(k) as int);
        lemma_basic_div(y as int, pow2(k) as int);
        assert(nbit(x, k) == 0);
        assert(nbit(y, k) == 0);
        assert(base_fwd(0) == 4);
        assert(base_fwd(4) == 0);
        lemma_encode_pad(x, y, m, k);
        assert(spec_encode(0, x, y, n) == spec_encode(1, x, y, k));
        assert(spec_encode(1, x, y, n) == spec_encode(0, x, y, k));
        assert(enc_state(0, x, y, n) == enc_state(1, x, y, k));
        assert(enc_state(1, x, y, n) == enc_state(0, x, y, k));
    }
}

/// Index bits above the significant bits leave the decoding unchanged apart
/// from toggling between the two upright orientations: from orientation 0
/// or 1, a step on a zero index chunk emits `(0, 0)` and moves to the other
/// of the two.
pub proof fn lemma_decode_pad(h: nat, m: nat, n: nat)
    requires
        h < pow2(2 * m),
        m <= n,
    ensures
        spec_decode(0, h, n) == spec_decode(((n - m) as nat) % 2, h, m),
        spec_decode(1, h, n) == spec_decode(((n - m) as nat + 1) % 2, h, m),
    decreases n,
{
    if n == m {
    } else {
        let k = (n - 1) as nat;
        lemma_pow2_pos(2 * m);
        lemma_pow2_pos(k);
        lemma_pow2_pos(2 * k);
        if m < k {
            lemma_pow2_strictly_increases(2 * m, 2 * k);
        }
        lemma_basic_div(h as int, pow2(2 * k) as int);
        assert((h / pow2(2 * k)) % 4 == 0) by {
            assert(0nat % 4 == 0);
        }
        assert(base_rev(0) == 4);
        assert(base_rev(4) == 0);
        lemma_decode_pad(h, m, k);
        let p1 = spec_decode(1, h, k);
        assert(spec_decode(0, h, n) == (0nat * pow2(k) + p1.0, 0nat * pow2(k) + p1.1));
        assert(spec_decode(0, h, n) == (p1.0, p1.1));
        assert(p1 == (p1.0, p1.1));
        let p0 = spec_decode(0, h, k);
        assert(spec_decode(1, h, n) == (p0.0, p0.1));
        assert(p0 == (p0.0, p0.1));
    }
}

/// However far the order overshoots a power-of-two window that holds both
/// coordinates, the index stays inside the doubled window.
pub proof fn lemma_encode_capped(x: nat, y: nat, w: nat, n: nat)
    requires
        x < pow2(w),
        y < pow2(w),
        w <= n,
    ensures
        spec_encode(0, x, y, n) < pow2(2 * w),
{
    lemma_encode_pad(x, y, w, n);
    lemma_encode_bound(((n - w) as nat) % 2, x, y, w);
}

/// However far the order overshoots a power-of-two window that holds the
/// index, the coordinates stay inside the halved window.
pub proof fn lemma_decode_capped(h: nat, w: nat, n: nat)
    requires
        h < pow2(2 * w),
        w <= n,
    ensures
        spec_decode(0, h, n).0 < pow2(w),
        spec_decode(0, h, n).1 < pow2(w),
{
    lemma_decode_pad(h, w, n);
    lemma_decode_bound(((n - w) as nat) % 2, h, w);
}

} // verus!
