//! The 256-entry transition tables, derived from the canonical automaton by
//! composing three consecutive one-bit steps into one three-bit step.
//!
//! A forward entry is indexed by `state * 64 + x3 * 8 + y3` and packs
//! `state' * 64 + h6`; a reverse entry is indexed by `state * 64 + h6` and
//! packs `state' * 64 + x3 * 8 + y3`.  The chunk lemmas identify one table
//! step with three steps of the specification walk, which is what lets the
//! engine consume three bits per lookup.

use vstd::prelude::*;
use vstd::arithmetic::power2::{pow2, lemma_pow2_pos, lemma2_to64};
use vstd::arithmetic::div_mod::{lemma_small_mod, lemma_mod_mod};
use crate::automaton::{nbit, base_fwd, base_rev, spec_encode, spec_decode, enc_state, dec_state, lemma_base_fwd_bound, lemma_base_rev_bound, lemma_encode_bound, lemma_decode_bound, lemma_encode_split, lemma_decode_split};
use crate::bitmath::{lemma_extract_mod, lemma_place_field, lemma_div_bound};
use crate::roundtrip::{lemma_encode_mod, lemma_decode_mod};

verus! {

/// Forward table entry: three composed forward steps of the canonical
/// automaton on a 3-bit chunk of each coordinate.
pub open spec fn lut3_fwd_spec(i: nat) -> nat {
    let s = i / 64;
    let x3 = (i / 8) % 8;
    let y3 = i % 8;
    let r1 = base_fwd(s * 4 + (x3 / 4) * 2 + y3 / 4);
    let r2 = base_fwd((r1 / 4) * 4 + ((x3 / 2) % 2) * 2 + (y3 / 2) % 2);
    let r3 = base_fwd((r2 / 4) * 4 + (x3 % 2) * 2 + y3 % 2);
    (r3 / 4) * 64 + (r1 % 4) * 16 + (r2 % 4) * 4 + r3 % 4
}

/// Reverse table entry: three composed reverse steps of the canonical
/// automaton on a 6-bit chunk of the index.
pub open spec fn lut3_rev_spec(i: nat) -> nat {
    let s = i / 64;
    let h6 = i % 64;
    let r1 = base_rev(s * 4 + h6 / 16);
    let r2 = base_rev((r1 / 4) * 4 + (h6 / 4) % 4);
    let r3 = base_rev((r2 / 4) * 4 + h6 % 4);
    let x3 = ((r1 / 2) % 2) * 4 + ((r2 / 2) % 2) * 2 + (r3 / 2) % 2;
    let y3 = (r1 % 2) * 4 + (r2 % 2) * 2 + r3 % 2;
    (r3 / 4) * 64 + x3 * 8 + y3
}

/// One forward table step is three steps of the specification walk: on the
/// low three bits of each coordinate it emits the six index bits that the
/// walk emits and lands in the state the walk lands in.
pub proof fn lemma_fwd_chunk(s: nat, x: nat, y: nat)
    requires
        s < 4,
    ensures
        spec_encode(s, x, y, 3) == lut3_fwd_spec(s * 64 + (x % 8) * 8 + y % 8) % 64,
        enc_state(s, x, y, 3) == lut3_fwd_spec(s * 64 + (x % 8) * 8 + y % 8) / 64,
{
    lemma2_to64();
    reveal_with_fuel(spec_encode, 4);
    reveal_with_fuel(enc_state, 4);
    let x3 = x % 8;
    let y3 = y % 8;
    let i = s * 64 + x3 * 8 + y3;

    // fields of the packed index
    lemma_place_field(s, x3 * 8 + y3, 6);
    assert(i / 64 == s);
    assert(i % 64 == x3 * 8 + y3);
    lemma_place_field(x3, y3, 3);
    lemma_extract_mod(i, 3, 3, 6);
    assert((i / 8) % 8 == ((i % 64) / 8) % 8);
    lemma_small_mod(x3, 8);
    assert((i / 8) % 8 == x3);
    lemma_mod_mod(i as int, 8, 8);
    assert(i % 8 == y3);

    // chunk bits are coordinate bits
    lemma_extract_mod(x, 2, 1, 3);
    assert((x3 / 4) % 2 == nbit(x, 2));
    lemma_small_mod(x3 / 4, 2);
    assert(x3 / 4 == nbit(x, 2));
    lemma_extract_mod(x, 1, 1, 3);
    assert((x3 / 2) % 2 == nbit(x, 1));
    lemma_mod_mod(x as int, 2, 4);
    assert(x3 % 2 == nbit(x, 0));
    lemma_extract_mod(y, 2, 1, 3);
    lemma_small_mod(y3 / 4, 2);
    assert(y3 / 4 == nbit(y, 2));
    lemma_extract_mod(y, 1, 1, 3);
    assert((y3 / 2) % 2 == nbit(y, 1));
    lemma_mod_mod(y as int, 2, 4);
    assert(y3 % 2 == nbit(y, 0));

    let r1 = base_fwd(s * 4 + nbit(x, 2) * 2 + nbit(y, 2));
    let r2 = base_fwd((r1 / 4) * 4 + nbit(x, 1) * 2 + nbit(y, 1));
    let r3 = base_fwd((r2 / 4) * 4 + nbit(x, 0) * 2 + nbit(y, 0));
    lemma_base_fwd_bound(s * 4 + nbit(x, 2) * 2 + nbit(y, 2));
    lemma_base_fwd_bound((r1 / 4) * 4 + nbit(x, 1) * 2 + nbit(y, 1));
    lemma_base_fwd_bound((r2 / 4) * 4 + nbit(x, 0) * 2 + nbit(y, 0));
    assert(spec_encode(s, x, y, 3) == (r1 % 4) * 16 + (r2 % 4) * 4 + r3 % 4);
    assert(enc_state(s, x, y, 3) == r3 / 4);
    assert(lut3_fwd_spec(i) == (r3 / 4) * 64 + ((r1 % 4) * 16 + (r2 % 4) * 4 + r3 % 4));
    lemma_place_field(r3 / 4, (r1 % 4) * 16 + (r2 % 4) * 4 + r3 % 4, 6);
}

/// One reverse table step is three steps of the specification walk: on the
/// low six bits of the index it emits the three bits of each coordinate
/// that the walk emits and lands in the state the walk lands in.
pub proof fn lemma_rev_chunk(s: nat, h: nat)
    requires
        s < 4,
    ensures
        spec_decode(s, h, 3).0 == (lut3_rev_spec(s * 64 + h % 64) / 8) % 8,
        spec_decode(s, h, 3).1 == lut3_rev_spec(s * 64 + h % 64) % 8,
        dec_state(s, h, 3) == lut3_rev_spec(s * 64 + h % 64) / 64,
{
    lemma2_to64();
    reveal_with_fuel(spec_decode, 4);
    reveal_with_fuel(dec_state, 4);
    let h6 = h % 64;
    let i = s * 64 + h6;

    // fields of the packed index
    lemma_place_field(s, h6, 6);
    assert(i / 64 == s);
    assert(i % 64 == h6);

    // chunk digits are index digits
    lemma_extract_mod(h, 4, 2, 6);
    assert((h6 / 16) % 4 == (h / 16) % 4);
    lemma_div_bound(h6, 4, 2);
    lemma_small_mod(h6 / 16, 4);
    assert(h6 / 16 == (h / pow2(4)) % 4);
    lemma_extract_mod(h, 2, 2, 6);
    assert((h6 / 4) % 4 == (h / pow2(2)) % 4);
    lemma_mod_mod(h as int, 4, 16);
    assert(h6 % 4 == (h / pow2(0)) % 4);

    let r1 = base_rev(s * 4 + (h / pow2(4)) % 4);
    let r2 = base_rev((r1 / 4) * 4 + (h / pow2(2)) % 4);
    let r3 = base_rev((r2 / 4) * 4 + (h / pow2(0)) % 4);
    lemma_base_rev_bound(s * 4 + (h / pow2(4)) % 4);
    lemma_base_rev_bound((r1 / 4) * 4 + (h / pow2(2)) % 4);
    lemma_base_rev_bound((r2 / 4) * 4 + (h / pow2(0)) % 4);
    let x3 = ((r1 / 2) % 2) * 4 + ((r2 / 2) % 2) * 2 + (r3 / 2) % 2;
    let y3 = (r1 % 2) * 4 + (r2 % 2) * 2 + r3 % 2;
    assert(spec_decode(s, h, 3).0 == x3);
    assert(spec_decode(s, h, 3).1 == y3);
    assert(dec_state(s, h, 3) == r3 / 4);
    assert(lut3_rev_spec(i) == (r3 / 4) * 64 + x3 * 8 + y3);
    lemma_place_field((r3 / 4) * 8 + x3, y3, 3);
    assert(((r3 / 4) * 8 + x3) * 8 + y3 == (r3 / 4) * 64 + x3 * 8 + y3);
    assert(lut3_rev_spec(i) / 8 == (r3 / 4) * 8 + x3);
    assert(lut3_rev_spec(i) % 8 == y3);
    lemma_place_field(r3 / 4, x3, 3);
    assert(lut3_rev_spec(i) / 8 % 8 == x3);
    lemma_place_field(r3 / 4, x3 * 8 + y3, 6);
    assert((r3 / 4) * 64 + (x3 * 8 + y3) == lut3_rev_spec(i));
    assert(lut3_rev_spec(i) / 64 == r3 / 4);
}

/// One step of the canonical forward automaton, as executable code.
fn base_fwd_lookup(i: u8) -> (r: u8)
    requires
        i < 16,
    ensures
        r as nat == base_fwd(i as nat),
{
    if i == 0 { 4 }
    else if i == 1 { 1 }
    else if i == 2 { 11 }
    else if i == 3 { 2 }
    else if i == 4 { 0 }
    else if i == 5 { 15 }
    else if i == 6 { 5 }
    else if i == 7 { 6 }
    else if i == 8 { 10 }
    else if i == 9 { 9 }
    else if i == 10 { 3 }
    else if i == 11 { 12 }
    else if i == 12 { 14 }
    else if i == 13 { 7 }
    else if i == 14 { 13 }
    else { 8 }
}

/// One step of the canonical reverse automaton, as executable code.
fn base_rev_lookup(i: u8) -> (r: u8)
    requires
        i < 16,
    ensures
        r as nat == base_rev(i as nat),
{
    if i == 0 { 4 }
    else if i == 1 { 1 }
    else if i == 2 { 3 }
    else if i == 3 { 10 }
    else if i == 4 { 0 }
    else if i == 5 { 6 }
    else if i == 6 { 7 }
    else if i == 7 { 13 }
    else if i == 8 { 15 }
    else if i == 9 { 9 }
    else if i == 10 { 8 }
    else if i == 11 { 2 }
    else if i == 12 { 11 }
    else if i == 13 { 14 }
    else if i == 14 { 12 }
    else { 5 }
}

/// Entry `i` of the forward transition table, derived by replaying the
/// canonical automaton over the three bit pairs packed in `i`.
#[verifier::rlimit(60)]
pub fn fwd_entry(i: u8) -> (r: u8)
    ensures
        r as nat == lut3_fwd_spec(i as nat),
{
    let s = i / 64;
    let x3 = (i / 8) % 8;
    let y3 = i % 8;
    let r1 = base_fwd_lookup(s * 4 + (x3 / 4) * 2 + y3 / 4);
    proof { lemma_base_fwd_bound((s * 4 + (x3 / 4) * 2 + y3 / 4) as nat); }
    let r2 = base_fwd_lookup((r1 / 4) * 4 + ((x3 / 2) % 2) * 2 + (y3 / 2) % 2);
    proof { lemma_base_fwd_bound(((r1 / 4) * 4 + ((x3 / 2) % 2) * 2 + (y3 / 2) % 2) as nat); }
    let r3 = base_fwd_lookup((r2 / 4) * 4 + (x3 % 2) * 2 + y3 % 2);
    proof { lemma_base_fwd_bound(((r2 / 4) * 4 + (x3 % 2) * 2 + y3 % 2) as nat); }
    (r3 / 4) * 64 + (r1 % 4) * 16 + (r2 % 4) * 4 + r3 % 4
}

/// Entry `i` of the reverse transition table, derived by replaying the
/// canonical automaton over the three index-bit pairs packed in `i`.
#[verifier::rlimit(60)]
pub fn rev_entry(i: u8) -> (r: u8)
    ensures
        r as nat == lut3_rev_spec(i as nat),
{
    let s = i / 64;
    let h6 = i % 64;
    let r1 = base_rev_lookup(s * 4 + h6 / 16);
    proof { lemma_base_rev_bound((s * 4 + h6 / 16) as nat); }
    let r2 = base_rev_lookup((r1 / 4) * 4 + (h6 / 4) % 4);
    proof { lemma_base_rev_bound(((r1 / 4) * 4 + (h6 / 4) % 4) as nat); }
    let r3 = base_rev_lookup((r2 / 4) * 4 + h6 % 4);
    proof { lemma_base_rev_bound(((r2 / 4) * 4 + h6 % 4) as nat); }
    let x3 = ((r1 / 2) % 2) * 4 + ((r2 / 2) % 2) * 2 + (r3 / 2) % 2;
    let y3 = (r1 % 2) * 4 + (r2 % 2) * 2 + r3 % 2;
    (r3 / 4) * 64 + x3 * 8 + y3
}

/// The whole 256-byte forward table, regenerated from the canonical
/// automaton.
pub fn fwd_table() -> (t: Vec<u8>)
    ensures
        t.len() == 256,
        forall|j: int| 0 <= j < 256 ==> t[j] as nat == lut3_fwd_spec(j as nat),
{
    let mut t: Vec<u8> = Vec::new();
    let mut i: usize = 0;
    while i < 256
        invariant
            i <= 256,
            t.len() == i,
            forall|j: int| 0 <= j < i ==> t[j] as nat == lut3_fwd_spec(j as nat),
        decreases 256 - i,
    {
        t.push(fwd_entry(i as u8));
        i = i + 1;
    }
    t
}

/// The whole 256-byte reverse table, regenerated from the canonical
/// automaton.
pub fn rev_table() -> (t: Vec<u8>)
    ensures
        t.len() == 256,
        forall|j: int| 0 <= j < 256 ==> t[j] as nat == lut3_rev_spec(j as nat),
{
    let mut t: Vec<u8> = Vec::new();
    let mut i: usize = 0;
    while i < 256
        invariant
            i <= 256,
            t.len() == i,
            forall|j: int| 0 <= j < i ==> t[j] as nat == lut3_rev_spec(j as nat),
        decreases 256 - i,
    {
        t.push(rev_entry(i as u8));
        i = i + 1;
    }
    t
}

/// A final chunk of fewer than three bits: shifting the remaining
/// coordinate bits to the top of a chunk, taking one table step, and
/// dropping the index bits that belong to the padding reproduces the
/// specification walk over just those remaining bits.
pub proof fn lemma_fwd_final(s: nat, x: nat, y: nat, m: nat)
    requires
        s < 4,
        m <= 3,
    ensures
        spec_encode(s, x, y, m) == (lut3_fwd_spec(
            s * 64 + ((x % pow2(m)) * pow2((3 - m) as nat)) * 8
                + (y % pow2(m)) * pow2((3 - m) as nat),
        ) % 64) / pow2(2 * ((3 - m) as nat)),
{
    lemma2_to64();
    let p = (3 - m) as nat;
    lemma_pow2_pos(m);
    lemma_pow2_pos(p);
    lemma_pow2_pos(2 * p);
    let xm = x % pow2(m);
    let ym = y % pow2(m);
    let xp = xm * pow2(p);
    let yp = ym * pow2(p);
    vstd::arithmetic::power2::lemma_pow2_adds(m, p);
    assert(pow2(m) * pow2(p) == 8);
    assert(xp < 8) by (nonlinear_arith)
        requires xm < pow2(m), pow2(m) * pow2(p) == 8, pow2(p) > 0, xp == xm * pow2(p);
    assert(yp < 8) by (nonlinear_arith)
        requires ym < pow2(m), pow2(m) * pow2(p) == 8, pow2(p) > 0, yp == ym * pow2(p);
    lemma_fwd_chunk(s, xp, yp);
    lemma_small_mod(xp, 8);
    lemma_small_mod(yp, 8);
    let e = lut3_fwd_spec(s * 64 + xp * 8 + yp);
    assert(spec_encode(s, xp, yp, 3) == e % 64);
    lemma_encode_split(s, xp, yp, 3, p);
    lemma_place_field(xm, 0, p);
    lemma_place_field(ym, 0, p);
    assert(xp / pow2(p) == xm);
    assert(yp / pow2(p) == ym);
    let st2 = enc_state(s, xm, ym, m);
    assert(spec_encode(s, xp, yp, 3)
        == spec_encode(s, xm, ym, m) * pow2(2 * p) + spec_encode(st2, xp, yp, p));
    lemma_encode_mod(s, x, y, m, m);
    assert(spec_encode(s, xm, ym, m) == spec_encode(s, x, y, m));
    lemma_encode_bound(st2, xp, yp, p);
    lemma_place_field(spec_encode(s, x, y, m), spec_encode(st2, xp, yp, p), 2 * p);
    assert((e % 64) / pow2(2 * p) == spec_encode(s, x, y, m));
}

/// A final chunk of fewer than three index-bit pairs: shifting the
/// remaining index bits to the top of a chunk, taking one table step, and
/// dropping the coordinate bits that belong to the padding reproduces the
/// specification walk over just those remaining pairs.
pub proof fn lemma_rev_final(s: nat, h: nat, m: nat)
    requires
        s < 4,
        m <= 3,
    ensures
        spec_decode(s, h, m).0 == ((lut3_rev_spec(
            s * 64 + (h % pow2(2 * m)) * pow2(2 * ((3 - m) as nat)),
        ) / 8) % 8) / pow2((3 - m) as nat),
        spec_decode(s, h, m).1 == (lut3_rev_spec(
            s * 64 + (h % pow2(2 * m)) * pow2(2 * ((3 - m) as nat)),
        ) % 8) / pow2((3 - m) as nat),
{
    lemma2_to64();
    let p = (3 - m) as nat;
    lemma_pow2_pos(m);
    lemma_pow2_pos(p);
    lemma_pow2_pos(2 * m);
    lemma_pow2_pos(2 * p);
    let hm = h % pow2(2 * m);
    let hp = hm * pow2(2 * p);
    vstd::arithmetic::power2::lemma_pow2_adds(2 * m, 2 * p);
    assert(pow2(2 * m) * pow2(2 * p) == 64);
    assert(hp < 64) by (nonlinear_arith)
        requires hm < pow2(2 * m), pow2(2 * m) * pow2(2 * p) == 64, pow2(2 * p) > 0,
            hp == hm * pow2(2 * p);
    lemma_rev_chunk(s, hp);
    lemma_small_mod(hp, 64);
    let e = lut3_rev_spec(s * 64 + hp);
    assert(spec_decode(s, hp, 3).0 == (e / 8) % 8);
    assert(spec_decode(s, hp, 3).1 == e % 8);
    lemma_decode_split(s, hp, 3, p);
    lemma_place_field(hm, 0, 2 * p);
    assert(hp / pow2(2 * p) == hm);
    let dst = dec_state(s, hm, m);
    assert(spec_decode(s, hp, 3).0
        == spec_decode(s, hm, m).0 * pow2(p) + spec_decode(dst, hp, p).0);
    assert(spec_decode(s, hp, 3).1
        == spec_decode(s, hm, m).1 * pow2(p) + spec_decode(dst, hp, p).1);
    lemma_decode_mod(s, h, m, m);
    assert(spec_decode(s, hm, m) == spec_decode(s, h, m));
    assert(spec_decode(s, hm, m).0 == spec_decode(s, h, m).0);
    assert(spec_decode(s, hm, m).1 == spec_decode(s, h, m).1);
    lemma_decode_bound(dst, hp, p);
    lemma_place_field(spec_decode(s, h, m).0, spec_decode(dst, hp, p).0, p);
    lemma_place_field(spec_decode(s, h, m).1, spec_decode(dst, hp, p).1, p);
    assert(((e / 8) % 8) / pow2(p) == spec_decode(s, h, m).0);
    assert((e % 8) / pow2(p) == spec_decode(s, h, m).1);
}

} // verus!
