//! Representation bridge: conversion between the fixed-width limb
//! representation and the big-endian byte encoding used on the wire.
//!
//! The encoding is big-endian and bounded at 512 bytes (4096 bits); shorter
//! inputs zero-pad at the most-significant end on decode.

use vstd::prelude::*;
use vstd::arithmetic::power2::pow2;
use vstd::arithmetic::power2::lemma2_to64;
use vstd::arithmetic::power2::lemma2_to64_rest;
use vstd::arithmetic::power2::lemma_pow2_adds;
use vstd::arithmetic::power2::lemma_pow2_pos;
use vstd::arithmetic::div_mod::lemma_fundamental_div_mod;
use vstd::arithmetic::div_mod::lemma_fundamental_div_mod_converse;
use vstd::arithmetic::div_mod::lemma_div_denominator;
use vstd::arithmetic::div_mod::lemma_basic_div;
use vstd::arithmetic::div_mod::lemma_mod_division_less_than_divisor;
use crate::limbs::limbs_zeroed;
use crate::bignum4096::Bignum4096;

verus! {

/// Byte `k` of a little-endian byte stream, zero past its end.
pub open spec fn byte_at(v: Seq<u8>, k: int) -> nat {
    if 0 <= k < v.len() {
        v[k] as nat
    } else {
        0nat
    }
}

/// Byte `j` of a big-endian byte stream, counted from the least-significant
/// end, zero past the most-significant end.
pub open spec fn byte_at_be(v: Seq<u8>, j: int) -> nat {
    if 0 <= j < v.len() {
        v[v.len() - 1 - j] as nat
    } else {
        0nat
    }
}

/// Limb `i` assembled from eight consecutive bytes of a little-endian stream.
pub open spec fn le_limb_at(v: Seq<u8>, i: int) -> nat {
    byte_at(v, 8 * i) + 0x100 * byte_at(v, 8 * i + 1) + 0x10000 * byte_at(v, 8 * i + 2)
        + 0x1000000 * byte_at(v, 8 * i + 3) + 0x100000000 * byte_at(v, 8 * i + 4) + 0x10000000000
        * byte_at(v, 8 * i + 5) + 0x1000000000000 * byte_at(v, 8 * i + 6) + 0x100000000000000
        * byte_at(v, 8 * i + 7)
}

/// Limb `i` assembled from a big-endian stream, least-significant end first.
pub open spec fn be_limb_at(v: Seq<u8>, i: int) -> nat {
    byte_at_be(v, 8 * i) + 0x100 * byte_at_be(v, 8 * i + 1) + 0x10000 * byte_at_be(v, 8 * i + 2)
        + 0x1000000 * byte_at_be(v, 8 * i + 3) + 0x100000000 * byte_at_be(v, 8 * i + 4)
        + 0x10000000000 * byte_at_be(v, 8 * i + 5) + 0x1000000000000 * byte_at_be(v, 8 * i + 6)
        + 0x100000000000000 * byte_at_be(v, 8 * i + 7)
}

/// Byte `j` of the little-endian byte stream that spells out a limb buffer.
pub open spec fn le_byte_of(s: Seq<u64>, j: int) -> nat {
    ((s[j / 8] as nat) / pow2((8 * (j % 8)) as nat)) % 256
}

/// A byte of the input, or zero past its end.
fn byte_or_zero(v: &Vec<u8>, k: usize) -> (b: u64)
    ensures
        b as nat == byte_at(v@, k as int),
        b <= 255,
{
    if k < v.len() {
        v[k] as u64
    } else {
        0
    }
}

/// A power of 256 as a limb.
fn pow_byte(t: usize) -> (r: u64)
    requires
        t < 8,
    ensures
        r as nat == pow2((8 * t) as nat),
        r >= 1,
{
    proof {
        lemma2_to64();
        lemma2_to64_rest();
    }
    if t == 0 {
        1
    } else if t == 1 {
        0x100
    } else if t == 2 {
        0x10000
    } else if t == 3 {
        0x1000000
    } else if t == 4 {
        0x100000000
    } else if t == 5 {
        0x10000000000
    } else if t == 6 {
        0x1000000000000
    } else {
        0x100000000000000
    }
}

/// Decode of a little-endian byte stream of at most 512 bytes into the
/// fixed 128-limb buffer; the reserved high half stays clear.
pub fn convert(v: Vec<u8>) -> (r: Vec<u64>)
    requires
        v@.len() <= 512,
    ensures
        r@.len() == 128,
        forall|i: int| 0 <= i < 64 ==> r@[i] as nat == le_limb_at(v@, i),
        forall|i: int| 64 <= i < 128 ==> r@[i] == 0u64,
{
    let mut res = limbs_zeroed();
    let mut i: usize = 0;
    while i < 64
        invariant
            v@.len() <= 512,
            res@.len() == 128,
            i <= 64,
            forall|t: int| 0 <= t < i ==> res@[t] as nat == le_limb_at(v@, t),
            forall|t: int| i <= t < 128 ==> res@[t] == 0u64,
        decreases 64 - i,
    {
        let b0 = byte_or_zero(&v, 8 * i);
        let b1 = byte_or_zero(&v, 8 * i + 1);
        let b2 = byte_or_zero(&v, 8 * i + 2);
        let b3 = byte_or_zero(&v, 8 * i + 3);
        let b4 = byte_or_zero(&v, 8 * i + 4);
        let b5 = byte_or_zero(&v, 8 * i + 5);
        let b6 = byte_or_zero(&v, 8 * i + 6);
        let b7 = byte_or_zero(&v, 8 * i + 7);
        let limb: u64 = b0 + b1 * 0x100 + b2 * 0x10000 + b3 * 0x1000000 + b4 * 0x100000000 + b5
            * 0x10000000000 + b6 * 0x1000000000000 + b7 * 0x100000000000000;
        res[i] = limb;
        i = i + 1;
    }
    res
}

/// Encode of the low 64 limbs into the full 512-byte big-endian form,
/// most-significant byte first, zero-padded at the most-significant end.
pub fn inverse_convert(limbs: &Vec<u64>) -> (r: Vec<u8>)
    requires
        limbs@.len() == 128,
    ensures
        r@.len() == 512,
        forall|k: int| 0 <= k < 512 ==> r@[k] as nat == le_byte_of(limbs@, 511 - k),
{
    let mut res: Vec<u8> = Vec::new();
    let mut a: usize = 0;
    while a < 64
        invariant
            limbs@.len() == 128,
            a <= 64,
            res@.len() == 8 * a,
            forall|k: int| 0 <= k < res@.len() ==> res@[k] as nat == le_byte_of(limbs@, 511 - k),
        decreases 64 - a,
    {
        let limb = limbs[63 - a];
        let mut bb: usize = 0;
        while bb < 8
            invariant
                limbs@.len() == 128,
                a < 64,
                bb <= 8,
                limb == limbs@[63 - a],
                res@.len() == 8 * a + bb,
                forall|k: int|
                    0 <= k < res@.len() ==> res@[k] as nat == le_byte_of(limbs@, 511 - k),
            decreases 8 - bb,
        {
            let p = pow_byte(7 - bb);
            let byte: u64 = (limb / p) % 256;
            proof {
                let k = res@.len() as int;
                let j = 511 - k;
                lemma_fundamental_div_mod_converse(j, 8, 63 - a as int, 7 - bb as int);
                lemma_mod_division_less_than_divisor((limb / p) as int, 256);
            }
            res.push(byte as u8);
            bb = bb + 1;
        }
        a = a + 1;
    }
    res
}

/// A limb is exactly the recomposition of its eight little-endian bytes.
proof fn lemma_limb_recompose(x: u64)
    ensures
        x as nat == ((x as nat) / pow2(0)) % 256 + 0x100 * (((x as nat) / pow2(8)) % 256) + 0x10000
            * (((x as nat) / pow2(16)) % 256) + 0x1000000 * (((x as nat) / pow2(24)) % 256)
            + 0x100000000 * (((x as nat) / pow2(32)) % 256) + 0x10000000000 * (((x as nat) / pow2(
            40,
        )) % 256) + 0x1000000000000 * (((x as nat) / pow2(48)) % 256) + 0x100000000000000 * (((
        x as nat) / pow2(56)) % 256),
{
    lemma2_to64();
    lemma2_to64_rest();
    let x0 = x as nat;
    assert(x0 / pow2(0) == x0) by {
        lemma_basic_div(0, 1);
        assert(pow2(0) == 1);
        lemma_fundamental_div_mod_converse(x0 as int, 1, x0 as int, 0);
    }
    let d1 = x0 / pow2(8);
    let d2 = x0 / pow2(16);
    let d3 = x0 / pow2(24);
    let d4 = x0 / pow2(32);
    let d5 = x0 / pow2(40);
    let d6 = x0 / pow2(48);
    let d7 = x0 / pow2(56);
    lemma_pow2_pos(8);
    lemma_pow2_pos(16);
    lemma_pow2_pos(24);
    lemma_pow2_pos(32);
    lemma_pow2_pos(40);
    lemma_pow2_pos(48);
    lemma_pow2_pos(56);
    lemma_div_denominator(x0 as int, pow2(8) as int, 256);
    lemma_pow2_adds(8, 8);
    lemma_div_denominator(x0 as int, pow2(16) as int, 256);
    lemma_pow2_adds(16, 8);
    lemma_div_denominator(x0 as int, pow2(24) as int, 256);
    lemma_pow2_adds(24, 8);
    lemma_div_denominator(x0 as int, pow2(32) as int, 256);
    lemma_pow2_adds(32, 8);
    lemma_div_denominator(x0 as int, pow2(40) as int, 256);
    lemma_pow2_adds(40, 8);
    lemma_div_denominator(x0 as int, pow2(48) as int, 256);
    lemma_pow2_adds(48, 8);
    lemma_div_denominator(x0 as int, pow2(56) as int, 256);
    lemma_pow2_adds(56, 8);
    assert(d1 / 256 == d2);
    assert(d2 / 256 == d3);
    assert(d3 / 256 == d4);
    assert(d4 / 256 == d5);
    assert(d5 / 256 == d6);
    assert(d6 / 256 == d7);
    assert(x0 / 256 == d1) by {
        lemma_div_denominator(x0 as int, pow2(0) as int, 256);
        lemma_pow2_adds(0, 8);
        assert(pow2(0) == 1);
        lemma_fundamental_div_mod_converse(x0 as int, 1, x0 as int, 0);
    }
    lemma_fundamental_div_mod(x0 as int, 256);
    lemma_fundamental_div_mod(d1 as int, 256);
    lemma_fundamental_div_mod(d2 as int, 256);
    lemma_fundamental_div_mod(d3 as int, 256);
    lemma_fundamental_div_mod(d4 as int, 256);
    lemma_fundamental_div_mod(d5 as int, 256);
    lemma_fundamental_div_mod(d6 as int, 256);
    assert(d7 < 256) by {
        assert(x0 < pow2(64));
        lemma_div_denominator(x0 as int, pow2(56) as int, 256);
        lemma_pow2_adds(56, 8);
        lemma_mod_division_less_than_divisor(x0 as int, pow2(64) as int);
        vstd::arithmetic::div_mod::lemma_multiply_divide_lt(x0 as int, pow2(56) as int, 256);
    }
    lemma_fundamental_div_mod(d7 as int, 256);
    lemma_basic_div(d7 as int, 256);
    vstd::arithmetic::div_mod::lemma_small_mod(d7, 256);
}

/// Round trip: decoding the big-endian encoding of any well-formed
/// magnitude gives back exactly the limbs that were encoded.
pub proof fn lemma_bytes_round_trip(s: Seq<u64>, be: Seq<u8>)
    requires
        s.len() == 128,
        forall|i: int| 64 <= i < 128 ==> s[i] == 0u64,
        be.len() == 512,
        forall|k: int| 0 <= k < 512 ==> be[k] as nat == le_byte_of(s, 511 - k),
    ensures
        forall|i: int| 0 <= i < 64 ==> be_limb_at(be, i) == s[i] as nat,
{
    assert forall|i: int| 0 <= i < 64 implies be_limb_at(be, i) == s[i] as nat by {
        lemma_be_byte(s, be, i, 0);
        lemma_be_byte(s, be, i, 1);
        lemma_be_byte(s, be, i, 2);
        lemma_be_byte(s, be, i, 3);
        lemma_be_byte(s, be, i, 4);
        lemma_be_byte(s, be, i, 5);
        lemma_be_byte(s, be, i, 6);
        lemma_be_byte(s, be, i, 7);
        lemma_limb_recompose(s[i]);
    }
}

/// One byte of the encoding, read back as the matching slice of its limb.
proof fn lemma_be_byte(s: Seq<u64>, be: Seq<u8>, i: int, t: int)
    requires
        s.len() == 128,
        be.len() == 512,
        forall|k: int| 0 <= k < 512 ==> be[k] as nat == le_byte_of(s, 511 - k),
        0 <= i < 64,
        0 <= t < 8,
    ensures
        byte_at_be(be, 8 * i + t) == ((s[i] as nat) / pow2((8 * t) as nat)) % 256,
{
    let j = 8 * i + t;
    assert(0 <= j < 512);
    assert(byte_at_be(be, j) == be[511 - j] as nat);
    assert(be[511 - j] as nat == le_byte_of(s, j));
    lemma_fundamental_div_mod_converse(j, 8, i, t);
}

impl Bignum4096 {
    /// The 512-byte big-endian encoding of the magnitude.
    pub fn to_bytes_be(&self) -> (r: Vec<u8>)
        requires
            self.wf(),
        ensures
            r@.len() == 512,
            forall|k: int| 0 <= k < 512 ==> r@[k] as nat == le_byte_of(self.limbs@, 511 - k),
    {
        inverse_convert(&self.limbs)
    }

    /// Decode of a big-endian byte encoding of at most 512 bytes into a
    /// non-negative value; shorter inputs are zero-padded at the
    /// most-significant end.
    pub fn from_bytes_be(b: Vec<u8>) -> (r: Self)
        requires
            b@.len() <= 512,
        ensures
            r.wf(),
            r.fits(),
            r.positive,
            forall|i: int| 0 <= i < 64 ==> r.limbs@[i] as nat == be_limb_at(b@, i),
    {
        let mut le: Vec<u8> = Vec::new();
        let mut t = b.len();
        while t > 0
            invariant
                t <= b@.len(),
                b@.len() <= 512,
                le@.len() == b@.len() - t,
                forall|k: int| 0 <= k < le@.len() ==> le@[k] == b@[b@.len() - 1 - k],
            decreases t,
        {
            t = t - 1;
            le.push(b[t]);
        }
        proof {
            assert(forall|x: int| #[trigger] byte_at(le@, x) == byte_at_be(b@, x));
        }
        let limbs = convert(le);
        Bignum4096 { positive: true, limbs }
    }

    /// A uniformly random non-negative value, built from 512 bytes drawn by
    /// a cryptographically secure source that the caller supplies.
    pub fn from_random_bytes(bytes: Vec<u8>) -> (r: Self)
        requires
            bytes@.len() == 512,
        ensures
            r.wf(),
            r.fits(),
            r.positive,
            forall|i: int| 0 <= i < 64 ==> r.limbs@[i] as nat == le_limb_at(bytes@, i),
    {
        let limbs = convert(bytes);
        Bignum4096 { positive: true, limbs }
    }
}

} // verus!
