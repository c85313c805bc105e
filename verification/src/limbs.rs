//! Fixed-width limb arithmetic: the constant-time-style primitive layer.
//!
//! All routines work on buffers of exactly 128 limbs of 64 bits, process a
//! fixed number of limbs independent of the values held, and never branch on
//! magnitude content beyond the boolean results they are specified to return.

use vstd::prelude::*;
use vstd::arithmetic::power2::*;
use vstd::arithmetic::div_mod::*;

verus! {

/// Value of the limbs `s[lo..hi]`, least-significant limb first.
pub open spec fn val_range(s: Seq<u64>, lo: int, hi: int) -> nat
    decreases hi - lo,
{
    if lo >= hi {
        0nat
    } else {
        s[lo] as nat + pow2(64) * val_range(s, lo + 1, hi)
    }
}

/// The value of an all-zero range is zero.
pub proof fn lemma_val_range_zero(s: Seq<u64>, lo: int, hi: int)
    requires
        forall|j: int| lo <= j < hi ==> s[j] == 0u64,
    ensures
        val_range(s, lo, hi) == 0,
    decreases hi - lo,
{
    if lo < hi {
        lemma_val_range_zero(s, lo + 1, hi);
        assert(s[lo] == 0u64);
        assert(val_range(s, lo, hi) == s[lo] as nat + pow2(64) * val_range(s, lo + 1, hi));
    }
}

/// Ranges that agree limb by limb have the same value.
pub proof fn lemma_val_range_congruence(s: Seq<u64>, t: Seq<u64>, lo: int, hi: int)
    requires
        forall|j: int| lo <= j < hi ==> s[j] == t[j],
    ensures
        val_range(s, lo, hi) == val_range(t, lo, hi),
    decreases hi - lo,
{
    if lo < hi {
        lemma_val_range_congruence(s, t, lo + 1, hi);
    }
}

/// Peeling the most-significant limb off a range.
pub proof fn lemma_val_range_snoc(s: Seq<u64>, lo: int, hi: int)
    requires
        lo < hi,
    ensures
        val_range(s, lo, hi) == val_range(s, lo, hi - 1) + s[hi - 1] * pow2(
            (64 * (hi - 1 - lo)) as nat,
        ),
    decreases hi - lo,
{
    lemma2_to64();
    if lo + 1 == hi {
        assert(pow2(0) == 1);
        assert(val_range(s, lo, hi) == s[lo] as nat + pow2(64) * val_range(s, lo + 1, hi));
        assert(val_range(s, lo + 1, hi) == 0);
        assert(val_range(s, lo, hi - 1) == 0);
        assert(pow2(64) * val_range(s, lo + 1, hi) == 0) by (nonlinear_arith)
            requires
                val_range(s, lo + 1, hi) == 0,
        ;
        assert((64 * (hi - 1 - lo)) as nat == 0nat);
        assert(s[hi - 1] as nat * pow2((64 * (hi - 1 - lo)) as nat) == s[lo] as nat);
    } else {
        lemma_val_range_snoc(s, lo + 1, hi);
        lemma_pow2_adds(64, (64 * (hi - 2 - lo)) as nat);
        let b = pow2(64);
        let p = pow2((64 * (hi - 2 - lo)) as nat);
        let v = val_range(s, lo + 1, hi - 1);
        let x = s[hi - 1] as nat;
        assert(val_range(s, lo, hi) == s[lo] as nat + b * val_range(s, lo + 1, hi));
        assert(val_range(s, lo + 1, hi) == v + x * p);
        assert(b * (v + x * p) == b * v + x * (b * p)) by (nonlinear_arith);
        assert(b * p == pow2((64 * (hi - 1 - lo)) as nat));
        assert(val_range(s, lo, hi - 1) == s[lo] as nat + b * v);
        assert(val_range(s, lo, hi) == s[lo] as nat + b * v + x * (b * p));
        assert(val_range(s, lo, hi) == val_range(s, lo, hi - 1) + x * pow2(
            (64 * (hi - 1 - lo)) as nat,
        ));
    }
}

/// Every range value is below the power of two matching its width.
pub proof fn lemma_val_range_bound(s: Seq<u64>, lo: int, hi: int)
    requires
        lo <= hi,
    ensures
        val_range(s, lo, hi) < pow2((64 * (hi - lo)) as nat),
    decreases hi - lo,
{
    lemma2_to64();
    if lo >= hi {
        assert(pow2(0) == 1);
    } else {
        lemma_val_range_bound(s, lo + 1, hi);
        lemma_pow2_adds(64, (64 * (hi - 1 - lo)) as nat);
        let b = pow2(64);
        let p = pow2((64 * (hi - 1 - lo)) as nat);
        let v = val_range(s, lo + 1, hi);
        assert(s[lo] as nat + b * v < b * p) by (nonlinear_arith)
            requires
                (s[lo] as nat) < b,
                v < p,
                v + 1 <= p,
                b > 0,
        ;
    }
}

/// Splitting a range at an interior point.
pub proof fn lemma_val_range_split(s: Seq<u64>, lo: int, mid: int, hi: int)
    requires
        lo <= mid <= hi,
    ensures
        val_range(s, lo, hi) == val_range(s, lo, mid) + pow2((64 * (mid - lo)) as nat)
            * val_range(s, mid, hi),
    decreases mid - lo,
{
    lemma2_to64();
    if lo >= mid {
        assert(pow2(0) == 1);
        assert(val_range(s, lo, mid) == 0);
        assert(pow2((64 * (mid - lo)) as nat) == 1);
        assert(1nat * val_range(s, mid, hi) == val_range(s, mid, hi)) by (nonlinear_arith);
    } else {
        lemma_val_range_split(s, lo + 1, mid, hi);
        lemma_pow2_adds(64, (64 * (mid - 1 - lo)) as nat);
        let b = pow2(64);
        let p = pow2((64 * (mid - 1 - lo)) as nat);
        let v1 = val_range(s, lo + 1, mid);
        let vm = val_range(s, mid, hi);
        assert(val_range(s, lo, hi) == s[lo] as nat + b * val_range(s, lo + 1, hi));
        assert(val_range(s, lo + 1, hi) == v1 + p * vm);
        assert(b * (v1 + p * vm) == b * v1 + (b * p) * vm) by (nonlinear_arith);
        assert(b * p == pow2((64 * (mid - lo)) as nat));
        assert(val_range(s, lo, mid) == s[lo] as nat + b * v1);
        assert(val_range(s, lo, hi) == s[lo] as nat + b * v1 + (b * p) * vm);
        assert(val_range(s, lo, hi) == val_range(s, lo, mid) + pow2((64 * (mid - lo)) as nat)
            * vm);
    }
}

/// Replacing the lowest limb shifts the value by the difference.
pub proof fn lemma_val_range_update0(s: Seq<u64>, x: u64, hi: int)
    requires
        0 < hi <= s.len(),
    ensures
        val_range(s.update(0, x), 0, hi) == val_range(s, 0, hi) - s[0] + x,
{
    lemma_val_range_congruence(s.update(0, x), s, 1, hi);
}

/// A buffer of 128 zero limbs.
pub fn limbs_zeroed() -> (r: Vec<u64>)
    ensures
        r@.len() == 128,
        forall|i: int| 0 <= i < 128 ==> r@[i] == 0u64,
{
    let v: Vec<u64> = vec![0u64; 128];
    v
}

/// Exact copy of a limb buffer.
pub fn vcopy(a: &Vec<u64>) -> (r: Vec<u64>)
    ensures
        r@ == a@,
{
    let mut res: Vec<u64> = Vec::new();
    let mut i: usize = 0;
    while i < a.len()
        invariant
            i <= a@.len(),
            res@ == a@.subrange(0, i as int),
        decreases a@.len() - i,
    {
        res.push(a[i]);
        proof {
            assert(res@ =~= a@.subrange(0, i + 1));
        }
        i = i + 1;
    }
    proof {
        assert(res@ =~= a@);
    }
    res
}

/// Copy of the operand-width low half, with the reserved high half cleared.
pub fn vcopy_low(a: &Vec<u64>) -> (r: Vec<u64>)
    requires
        a@.len() == 128,
    ensures
        r@.len() == 128,
        forall|j: int| 0 <= j < 64 ==> r@[j] == a@[j],
        forall|j: int| 64 <= j < 128 ==> r@[j] == 0u64,
{
    let mut res = limbs_zeroed();
    let mut i: usize = 0;
    while i < 64
        invariant
            a@.len() == 128,
            res@.len() == 128,
            i <= 64,
            forall|j: int| 0 <= j < i ==> res@[j] == a@[j],
            forall|j: int| i <= j < 128 ==> res@[j] == 0u64,
        decreases 64 - i,
    {
        res[i] = a[i];
        i = i + 1;
    }
    res
}

/// Addition over the low `w` limbs with carry out; the rest stays zero.
pub fn vadd(a: &Vec<u64>, b: &Vec<u64>, w: usize) -> (r: (Vec<u64>, u64))
    requires
        a@.len() == 128,
        b@.len() == 128,
        w <= 128,
    ensures
        r.0@.len() == 128,
        r.1 <= 1,
        val_range(r.0@, 0, w as int) + (r.1 as nat) * pow2((64 * w) as nat) == val_range(
            a@,
            0,
            w as int,
        ) + val_range(b@, 0, w as int),
        forall|i: int| w <= i < 128 ==> r.0@[i] == 0u64,
{
    let mut res = limbs_zeroed();
    let mut carry: u64 = 0;
    let mut i: usize = 0;
    proof {
        lemma2_to64();
        assert(pow2(0) == 1);
    }
    while i < w
        invariant
            a@.len() == 128,
            b@.len() == 128,
            w <= 128,
            i <= w,
            res@.len() == 128,
            carry <= 1,
            val_range(res@, 0, i as int) + (carry as nat) * pow2((64 * i) as nat) == val_range(
                a@,
                0,
                i as int,
            ) + val_range(b@, 0, i as int),
            forall|j: int| i <= j < 128 ==> res@[j] == 0u64,
        decreases w - i,
    {
        proof {
            lemma2_to64();
        }
        let sum: u128 = a[i] as u128 + b[i] as u128 + carry as u128;
        proof {
            lemma_mod_division_less_than_divisor(sum as int, pow2(64) as int);
            lemma_multiply_divide_lt(sum as int, 2, pow2(64) as int);
            lemma_fundamental_div_mod(sum as int, pow2(64) as int);
        }
        let lo: u64 = (sum % 0x1_0000_0000_0000_0000u128) as u64;
        let hi: u64 = (sum / 0x1_0000_0000_0000_0000u128) as u64;
        let ghost prev = res@;
        let ghost pi = pow2((64 * i) as nat);
        res[i] = lo;
        proof {
            lemma_val_range_congruence(res@, prev, 0, i as int);
            lemma_val_range_snoc(res@, 0, i as int + 1);
            lemma_val_range_snoc(a@, 0, i as int + 1);
            lemma_val_range_snoc(b@, 0, i as int + 1);
            lemma_pow2_adds((64 * i) as nat, 64);
            let b64 = pow2(64);
            assert((lo as nat + b64 * (hi as nat)) * pi == (lo as nat) * pi + (hi as nat) * (pi
                * b64)) by (nonlinear_arith);
            assert(((a@[i as int] as nat) + (b@[i as int] as nat) + (carry as nat)) * pi == (
            a@[i as int] as nat) * pi + (b@[i as int] as nat) * pi + (carry as nat) * pi)
                by (nonlinear_arith);
        }
        carry = hi;
        i = i + 1;
    }
    (res, carry)
}

/// Subtraction over the low `w` limbs; the minuend must be at least as large.
pub fn vsub(a: &Vec<u64>, b: &Vec<u64>, w: usize) -> (r: Vec<u64>)
    requires
        a@.len() == 128,
        b@.len() == 128,
        w <= 128,
        val_range(b@, 0, w as int) <= val_range(a@, 0, w as int),
    ensures
        r@.len() == 128,
        val_range(r@, 0, w as int) == val_range(a@, 0, w as int) - val_range(b@, 0, w as int),
        forall|i: int| w <= i < 128 ==> r@[i] == 0u64,
{
    let mut res = limbs_zeroed();
    let mut borrow: u64 = 0;
    let mut i: usize = 0;
    proof {
        lemma2_to64();
        assert(pow2(0) == 1);
    }
    while i < w
        invariant
            a@.len() == 128,
            b@.len() == 128,
            w <= 128,
            i <= w,
            res@.len() == 128,
            borrow <= 1,
            val_range(res@, 0, i as int) == val_range(a@, 0, i as int) - val_range(b@, 0, i as int)
                + (borrow as nat) * pow2((64 * i) as nat),
            forall|j: int| i <= j < 128 ==> res@[j] == 0u64,
        decreases w - i,
    {
        proof {
            lemma2_to64();
        }
        let diff: u128 = 0x1_0000_0000_0000_0000u128 + a[i] as u128 - b[i] as u128
            - borrow as u128;
        proof {
            lemma_mod_division_less_than_divisor(diff as int, pow2(64) as int);
            lemma_multiply_divide_lt(diff as int, 2, pow2(64) as int);
            lemma_fundamental_div_mod(diff as int, pow2(64) as int);
        }
        let lo: u64 = (diff % 0x1_0000_0000_0000_0000u128) as u64;
        let q: u64 = (diff / 0x1_0000_0000_0000_0000u128) as u64;
        proof {
            assert(diff >= pow2(64) ==> q == 1) by (nonlinear_arith)
                requires
                    q == diff as int / pow2(64) as int,
                    diff < 2 * pow2(64),
                    pow2(64) > 0,
            ;
            assert(diff < pow2(64) ==> q == 0) by (nonlinear_arith)
                requires
                    q == diff as int / pow2(64) as int,
                    pow2(64) > 0,
                    diff >= 0,
            ;
        }
        let nb: u64 = 1 - q;
        let ghost prev = res@;
        let ghost pi = pow2((64 * i) as nat);
        res[i] = lo;
        proof {
            lemma_val_range_congruence(res@, prev, 0, i as int);
            lemma_val_range_snoc(res@, 0, i as int + 1);
            lemma_val_range_snoc(a@, 0, i as int + 1);
            lemma_val_range_snoc(b@, 0, i as int + 1);
            lemma_pow2_adds((64 * i) as nat, 64);
            let b64 = pow2(64);
            // lo == a[i] - b[i] - borrow + b64 * nb
            assert(lo as int == a@[i as int] - b@[i as int] - borrow + b64 * (nb as int));
            assert((a@[i as int] - b@[i as int] - (borrow as int) + (b64 as int) * (nb as int))
                * (pi as int) == (a@[i as int]) * (pi as int) - (b@[i as int]) * (pi as int) - (
            borrow as int) * (pi as int) + (nb as int) * ((pi * b64) as int)) by (nonlinear_arith);
        }
        borrow = nb;
        i = i + 1;
    }
    proof {
        if borrow == 1 {
            lemma_val_range_bound(res@, 0, w as int);
            assert(false);
        }
    }
    res
}

/// Strict comparison of the low `w` limb values, scanning every limb.
pub fn vlt(a: &Vec<u64>, b: &Vec<u64>, w: usize) -> (r: bool)
    requires
        a@.len() == 128,
        b@.len() == 128,
        w <= 128,
    ensures
        r == (val_range(a@, 0, w as int) < val_range(b@, 0, w as int)),
{
    let mut lt = false;
    let mut eq = true;
    let mut i: usize = w;
    while i > 0
        invariant
            a@.len() == 128,
            b@.len() == 128,
            w <= 128,
            i <= w,
            lt == (val_range(a@, i as int, w as int) < val_range(b@, i as int, w as int)),
            eq == (val_range(a@, i as int, w as int) == val_range(b@, i as int, w as int)),
        decreases i,
    {
        i = i - 1;
        let ai = a[i];
        let bi = b[i];
        let new_lt = lt || (eq && ai < bi);
        let new_eq = eq && ai == bi;
        proof {
            lemma2_to64();
            let b64 = pow2(64);
            let va = val_range(a@, i as int + 1, w as int);
            let vb = val_range(b@, i as int + 1, w as int);
            assert((ai as nat + b64 * va < bi as nat + b64 * vb) == (va < vb || (va == vb && ai
                < bi))) by (nonlinear_arith)
                requires
                    (ai as nat) < b64,
                    (bi as nat) < b64,
                    b64 > 0,
            ;
            assert((ai as nat + b64 * va == bi as nat + b64 * vb) == (va == vb && ai == bi))
                by (nonlinear_arith)
                requires
                    (ai as nat) < b64,
                    (bi as nat) < b64,
                    b64 > 0,
            ;
        }
        lt = new_lt;
        eq = new_eq;
    }
    lt
}

/// A range with value zero holds only zero limbs.
pub proof fn lemma_val_range_zero_rev(s: Seq<u64>, lo: int, hi: int)
    requires
        val_range(s, lo, hi) == 0,
    ensures
        forall|j: int| lo <= j < hi ==> s[j] == 0u64,
    decreases hi - lo,
{
    if lo < hi {
        lemma_pow2_pos(64);
        let rest = val_range(s, lo + 1, hi);
        assert(s[lo] as nat + pow2(64) * rest == 0);
        assert(pow2(64) * rest >= rest) by (nonlinear_arith)
            requires
                pow2(64) >= 1,
        ;
        lemma_val_range_zero_rev(s, lo + 1, hi);
    }
}

/// The parity of a range value is the parity of its lowest limb.
pub proof fn lemma_mod2_low(s: Seq<u64>, lo: int, hi: int)
    requires
        lo < hi,
    ensures
        val_range(s, lo, hi) % 2 == s[lo] as nat % 2,
{
    lemma2_to64();
    lemma2_to64_rest();
    lemma_pow2_adds(1, 63);
    let rest = val_range(s, lo + 1, hi);
    assert(pow2(64) * rest == 2 * (pow2(63) * rest)) by (nonlinear_arith)
        requires
            pow2(64) == 2 * pow2(63),
    ;
    lemma_mod_multiples_vanish((pow2(63) * rest) as int, s[lo] as int, 2);
}

/// A 128-limb value below the operand bound lives in the low half alone.
pub proof fn lemma_low_fit(s: Seq<u64>)
    requires
        s.len() == 128,
        val_range(s, 0, 128) < pow2(4096),
    ensures
        forall|j: int| 64 <= j < 128 ==> s[j] == 0u64,
        val_range(s, 0, 64) == val_range(s, 0, 128),
{
    lemma_val_range_split(s, 0, 64, 128);
    let hi = val_range(s, 64, 128);
    if hi > 0 {
        lemma_pow2_pos(4096);
        assert(pow2(4096) * hi >= pow2(4096)) by (nonlinear_arith)
            requires
                hi >= 1,
                pow2(4096) > 0,
        ;
        assert(false);
    }
    lemma_val_range_zero_rev(s, 64, 128);
    lemma_fit_val(s);
}

/// The low half of a well-formed buffer carries the whole value.
pub proof fn lemma_fit_val(s: Seq<u64>)
    requires
        s.len() == 128,
        forall|j: int| 64 <= j < 128 ==> s[j] == 0u64,
    ensures
        val_range(s, 0, 64) == val_range(s, 0, 128),
{
    lemma_val_range_split(s, 0, 64, 128);
    lemma_val_range_zero(s, 64, 128);
}

/// Power of two as a limb, for bit selection.
pub fn pow2_u64(k: usize) -> (r: u64)
    requires
        k < 64,
    ensures
        r as nat == pow2(k as nat),
{
    let mut p: u64 = 1;
    let mut t: usize = 0;
    proof {
        lemma2_to64();
    }
    while t < k
        invariant
            t <= k,
            k < 64,
            p as nat == pow2(t as nat),
        decreases k - t,
    {
        proof {
            lemma2_to64();
            lemma2_to64_rest();
            lemma_pow2_strictly_increases(t as nat, 63);
            lemma_pow2_adds(t as nat, 1);
        }
        p = p * 2;
        t = t + 1;
    }
    p
}

/// One bit of a limb, selected by arithmetic on the limb alone.
pub fn bit_of_limb(x: u64, k: usize) -> (b: u64)
    requires
        k < 64,
    ensures
        b as nat == ((x as nat) / pow2(k as nat)) % 2,
        b <= 1,
{
    let p = pow2_u64(k);
    proof {
        lemma_pow2_pos(k as nat);
    }
    let q = x / p;
    let b = q % 2;
    b
}

/// Bit `i` of the low-half value, read out of the limb that holds it.
pub proof fn lemma_bit_extract(s: Seq<u64>, i: int)
    requires
        s.len() >= 64,
        0 <= i < 4096,
    ensures
        (val_range(s, 0, 64) / pow2(i as nat)) % 2 == ((s[i / 64] as nat) / pow2(
            (i % 64) as nat,
        )) % 2,
{
    let j = i / 64;
    let k = i % 64;
    assert(0 <= j < 64 && 0 <= k < 64 && i == 64 * j + k);
    lemma_val_range_split(s, 0, j, 64);
    let lo = val_range(s, 0, j);
    let hi = val_range(s, j + 1, 64);
    let x = s[j] as nat;
    assert(val_range(s, j, 64) == x + pow2(64) * hi);
    let pj = pow2((64 * j) as nat);
    let pk = pow2(k as nat);
    let pi = pow2(i as nat);
    let pmk = pow2((64 - k) as nat);
    lemma_pow2_pos(k as nat);
    lemma_pow2_pos((64 * j) as nat);
    lemma_pow2_pos(i as nat);
    let u = x % pk;
    let d = x / pk;
    lemma_fundamental_div_mod(x as int, pk as int);
    lemma_mod_division_less_than_divisor(x as int, pk as int);
    lemma_val_range_bound(s, 0, j);
    lemma_pow2_adds((64 * j) as nat, k as nat);
    lemma_pow2_adds(i as nat, (64 - k) as nat);
    lemma_pow2_adds((64 * j) as nat, 64);
    let p_next = pow2((64 * j + 64) as nat);
    assert(pj * pk == pi);
    assert(pi * pmk == p_next);
    assert(pj * pow2(64) == p_next);
    let a_part = lo + u * pj;
    let b_part = d + pmk * hi;
    assert(val_range(s, 0, 64) == lo + pj * (x + pow2(64) * hi));
    assert(pj * (x + pow2(64) * hi) == pj * x + (pj * pow2(64)) * hi) by (nonlinear_arith);
    assert(pj * x == (pj * pk) * d + pj * u) by (nonlinear_arith)
        requires
            x == pk * d + u,
    ;
    assert(pi * (d + pmk * hi) == pi * d + (pi * pmk) * hi) by (nonlinear_arith);
    assert(val_range(s, 0, 64) == a_part + pi * b_part);
    assert(lo + u * pj < pj * pk) by (nonlinear_arith)
        requires
            lo < pj,
            u < pk,
            pj > 0,
            pk > 0,
    ;
    lemma_fundamental_div_mod_converse(
        val_range(s, 0, 64) as int,
        pi as int,
        b_part as int,
        a_part as int,
    );
    assert(val_range(s, 0, 64) / pow2(i as nat) == b_part);
    lemma2_to64();
    lemma_pow2_adds(1, (63 - k) as nat);
    assert(pmk * hi == 2 * (pow2((63 - k) as nat) * hi)) by (nonlinear_arith)
        requires
            pmk == 2 * pow2((63 - k) as nat),
    ;
    lemma_mod_multiples_vanish((pow2((63 - k) as nat) * hi) as int, d as int, 2);
}

/// Shifting the processed prefix of a value down one bit position.
pub proof fn lemma_shift_step(n: nat, i: nat)
    ensures
        n / pow2(i) == 2 * (n / pow2(i + 1)) + (n / pow2(i)) % 2,
        n / pow2(i + 1) == (n / pow2(i)) / 2,
{
    lemma_pow2_pos(i);
    lemma_pow2_pos(i + 1);
    lemma2_to64();
    lemma_pow2_adds(i, 1);
    lemma_div_denominator(n as int, pow2(i) as int, 2);
    lemma_fundamental_div_mod((n / pow2(i)) as int, 2);
}

/// Extending a truncated value by its next bit.
pub proof fn lemma_mod_extend(n: nat, i: nat)
    ensures
        n % pow2(i + 1) == n % pow2(i) + pow2(i) * ((n / pow2(i)) % 2),
{
    lemma_pow2_pos(i);
    lemma_pow2_pos(i + 1);
    lemma2_to64();
    lemma_pow2_adds(i, 1);
    lemma_shift_step(n, i);
    let b = (n / pow2(i)) % 2;
    lemma_fundamental_div_mod(n as int, pow2(i) as int);
    lemma_mod_division_less_than_divisor(n as int, pow2(i) as int);
    lemma_mod_division_less_than_divisor((n / pow2(i)) as int, 2);
    assert(pow2(i) * (2 * (n / pow2(i + 1)) + b) == pow2(i + 1) * (n / pow2(i + 1)) + pow2(i) * b)
        by (nonlinear_arith)
        requires
            pow2(i + 1) == pow2(i) * 2,
    ;
    assert(n == pow2(i + 1) * (n / pow2(i + 1)) + (pow2(i) * b + n % pow2(i)));
    assert(pow2(i) * b + n % pow2(i) < pow2(i + 1)) by (nonlinear_arith)
        requires
            b <= 1,
            n % pow2(i) < pow2(i),
            pow2(i + 1) == pow2(i) * 2,
            pow2(i) > 0,
    ;
    lemma_fundamental_div_mod_converse(
        n as int,
        pow2(i + 1) as int,
        (n / pow2(i + 1)) as int,
        (pow2(i) * b + n % pow2(i)) as int,
    );
}

/// A carry out of an addition whose exact sum fits the width must be zero.
pub proof fn lemma_carry_zero(cn: nat, v: nat, s: nat, p: nat)
    requires
        cn <= 1,
        v + cn * p == s,
        s < p,
    ensures
        cn == 0,
        v == s,
{
    if cn == 1 {
        assert(cn * p == p) by (nonlinear_arith)
            requires
                cn == 1,
        ;
        assert(false);
    }
    assert(cn * p == 0) by (nonlinear_arith)
        requires
            cn == 0,
    ;
}

/// One step of the shift-and-add product accumulation.
proof fn lemma_mul_step(ma: nat, mb: nat, i: nat, bitn: nat)
    requires
        i < 4096,
        ma < pow2(4096),
        mb < pow2(4096),
        bitn == (mb / pow2(i)) % 2,
    ensures
        bitn == 1 ==> ma * (mb % pow2(i + 1)) == ma * (mb % pow2(i)) + ma * pow2(i),
        bitn == 0 ==> ma * (mb % pow2(i + 1)) == ma * (mb % pow2(i)),
        ma * (mb % pow2(i)) + ma * pow2(i) < pow2(8192),
        ma * pow2(i) + ma * pow2(i) == ma * pow2(i + 1),
        ma * pow2(i + 1) < pow2(8192),
{
    let pl = pow2(i);
    let pl1 = pow2(i + 1);
    let pm = pow2(4096);
    let mlow = mb % pl;
    lemma_pow2_pos(i);
    lemma_mod_division_less_than_divisor(mb as int, pl as int);
    lemma_mod_extend(mb, i);
    lemma_pow2_adds(i, 1);
    lemma_pow2_adds(4096, 4096);
    lemma2_to64();
    if i + 1 < 4096 {
        lemma_pow2_strictly_increases(i + 1, 4096);
    }
    assert(pl1 <= pm);
    assert(mb % pl1 == mlow + pl * bitn);
    if bitn == 1 {
        assert(pl * bitn == pl) by (nonlinear_arith)
            requires
                bitn == 1,
        ;
        assert(ma * (mlow + pl) == ma * mlow + ma * pl) by (nonlinear_arith);
    } else {
        assert(bitn == 0) by {
            lemma_mod_division_less_than_divisor((mb / pl) as int, 2);
        }
        assert(pl * bitn == 0) by (nonlinear_arith)
            requires
                bitn == 0,
        ;
    }
    assert(ma * mlow <= ma * pl) by (nonlinear_arith)
        requires
            mlow <= pl,
    ;
    assert(ma * pl + ma * pl == ma * pl1) by (nonlinear_arith)
        requires
            pl * 2 == pl1,
    ;
    assert(ma * pl1 <= ma * pm) by (nonlinear_arith)
        requires
            pl1 <= pm,
    ;
    assert(ma * pm < pm * pm) by (nonlinear_arith)
        requires
            ma < pm,
            pm > 0,
    ;
}

/// Full double-width product of the two low-half values.
#[verifier::rlimit(100)]
pub fn vmul(a: &Vec<u64>, b: &Vec<u64>) -> (r: Vec<u64>)
    requires
        a@.len() == 128,
        b@.len() == 128,
    ensures
        r@.len() == 128,
        val_range(r@, 0, 128) == val_range(a@, 0, 64) * val_range(b@, 0, 64),
{
    let ghost ma = val_range(a@, 0, 64);
    let ghost mb = val_range(b@, 0, 64);
    let mut acc = limbs_zeroed();
    let mut sh = vcopy_low(a);
    proof {
        lemma_val_range_congruence(sh@, a@, 0, 64);
        lemma_fit_val(sh@);
        lemma_val_range_zero(acc@, 0, 128);
        lemma2_to64();
        lemma_val_range_bound(a@, 0, 64);
        lemma_val_range_bound(b@, 0, 64);
        assert(mb % pow2(0) == 0) by {
            lemma_small_mod(0, 1);
            assert(mb % 1nat == 0) by (nonlinear_arith);
        }
        assert(ma * (mb % pow2(0)) == 0) by (nonlinear_arith)
            requires
                mb % pow2(0) == 0,
        ;
        assert(ma * pow2(0) == ma) by (nonlinear_arith)
            requires
                pow2(0) == 1,
        ;
    }
    let mut j: usize = 0;
    while j < 64
        invariant
            a@.len() == 128,
            b@.len() == 128,
            acc@.len() == 128,
            sh@.len() == 128,
            j <= 64,
            ma == val_range(a@, 0, 64),
            mb == val_range(b@, 0, 64),
            ma < pow2(4096),
            mb < pow2(4096),
            val_range(acc@, 0, 128) == ma * (mb % pow2((64 * j) as nat)),
            val_range(sh@, 0, 128) == ma * pow2((64 * j) as nat),
        decreases 64 - j,
    {
        let limb = b[j];
        let mut k: usize = 0;
        while k < 64
            invariant
                a@.len() == 128,
                b@.len() == 128,
                acc@.len() == 128,
                sh@.len() == 128,
                j < 64,
                k <= 64,
                limb == b@[j as int],
                ma == val_range(a@, 0, 64),
                mb == val_range(b@, 0, 64),
                ma < pow2(4096),
                mb < pow2(4096),
                val_range(acc@, 0, 128) == ma * (mb % pow2((64 * j + k) as nat)),
                val_range(sh@, 0, 128) == ma * pow2((64 * j + k) as nat),
            decreases 64 - k,
        {
            let ghost i: nat = (64 * j + k) as nat;
            let bit = bit_of_limb(limb, k);
            proof {
                lemma_fundamental_div_mod_converse(i as int, 64, j as int, k as int);
                lemma_bit_extract(b@, i as int);
                lemma_mul_step(ma, mb, i, bit as nat);
                lemma_pow2_pos(8192);
            }
            if bit == 1 {
                let (t, c) = vadd(&acc, &sh, 128);
                proof {
                    lemma_carry_zero(
                        c as nat,
                        val_range(t@, 0, 128),
                        val_range(acc@, 0, 128) + val_range(sh@, 0, 128),
                        pow2(8192),
                    );
                }
                acc = t;
            }
            let (t2, c2) = vadd(&sh, &sh, 128);
            proof {
                lemma_carry_zero(
                    c2 as nat,
                    val_range(t2@, 0, 128),
                    val_range(sh@, 0, 128) + val_range(sh@, 0, 128),
                    pow2(8192),
                );
            }
            sh = t2;
            k = k + 1;
        }
        j = j + 1;
    }
    proof {
        lemma_small_mod(mb, pow2(4096));
    }
    acc
}

/// One step of restoring long division: shifting in the next bit.
proof fn lemma_div_step(nv: nat, dv: nat, i: nat, qv: nat, rv: nat, bitn: nat)
    requires
        dv > 0,
        dv < pow2(4096),
        i < 4096,
        nv < pow2(4096),
        qv == (nv / pow2(i + 1)) / dv,
        rv == (nv / pow2(i + 1)) % dv,
        bitn == (nv / pow2(i)) % 2,
    ensures
        rv < dv,
        qv <= nv,
        bitn <= 1,
        2 * rv + bitn < 2 * dv,
        rv + rv < pow2(8192),
        qv + qv < pow2(8192),
        2 * rv + bitn >= dv ==> (nv / pow2(i)) / dv == 2 * qv + 1 && (nv / pow2(i)) % dv == 2 * rv
            + bitn - dv,
        2 * rv + bitn < dv ==> (nv / pow2(i)) / dv == 2 * qv && (nv / pow2(i)) % dv == 2 * rv
            + bitn,
{
    let t0 = nv / pow2(i + 1);
    let t1 = nv / pow2(i);
    lemma_pow2_pos(i);
    lemma_pow2_pos(i + 1);
    lemma_mod_division_less_than_divisor(t0 as int, dv as int);
    lemma_fundamental_div_mod(t0 as int, dv as int);
    lemma_shift_step(nv, i);
    lemma_mod_division_less_than_divisor(t1 as int, 2);
    lemma_div_nonincreasing(t0 as int, dv as int);
    lemma_div_nonincreasing(nv as int, pow2(i + 1) as int);
    assert(t1 == 2 * (dv * qv + rv) + bitn);
    assert(2 * (dv * qv + rv) + bitn == dv * (2 * qv) + (2 * rv + bitn)) by (nonlinear_arith);
    if 2 * rv + bitn >= dv {
        assert(dv * (2 * qv) + (2 * rv + bitn) == dv * (2 * qv + 1) + (2 * rv + bitn - dv))
            by (nonlinear_arith);
        assert(dv * (2 * qv + 1) == (2 * qv + 1) * dv) by (nonlinear_arith);
        lemma_fundamental_div_mod_converse(
            t1 as int,
            dv as int,
            (2 * qv + 1) as int,
            (2 * rv + bitn - dv) as int,
        );
    } else {
        assert(dv * (2 * qv) == (2 * qv) * dv) by (nonlinear_arith);
        lemma_fundamental_div_mod_converse(
            t1 as int,
            dv as int,
            (2 * qv) as int,
            (2 * rv + bitn) as int,
        );
    }
    lemma_pow2_strictly_increases(4097, 8192);
    lemma_pow2_adds(4096, 1);
    lemma2_to64();
    assert(qv + qv < pow2(4096) + pow2(4096));
    assert(pow2(4096) + pow2(4096) == pow2(4097));
    assert(rv + rv < pow2(4097));
}

/// Restoring long division of the low-half values: quotient and remainder.
#[verifier::rlimit(100)]
pub fn vdivmod(n: &Vec<u64>, d: &Vec<u64>) -> (qr: (Vec<u64>, Vec<u64>))
    requires
        n@.len() == 128,
        d@.len() == 128,
        val_range(d@, 0, 64) > 0,
    ensures
        qr.0@.len() == 128,
        qr.1@.len() == 128,
        forall|i: int| 64 <= i < 128 ==> qr.0@[i] == 0u64,
        forall|i: int| 64 <= i < 128 ==> qr.1@[i] == 0u64,
        val_range(n@, 0, 64) == val_range(qr.0@, 0, 64) * val_range(d@, 0, 64) + val_range(
            qr.1@,
            0,
            64,
        ),
        val_range(qr.0@, 0, 64) == val_range(n@, 0, 64) / val_range(d@, 0, 64),
        val_range(qr.1@, 0, 64) == val_range(n@, 0, 64) % val_range(d@, 0, 64),
        val_range(qr.1@, 0, 64) < val_range(d@, 0, 64),
{
    let ghost nv = val_range(n@, 0, 64);
    let ghost dv = val_range(d@, 0, 64);
    let dd = vcopy_low(d);
    let mut q = limbs_zeroed();
    let mut r = limbs_zeroed();
    proof {
        lemma_val_range_congruence(dd@, d@, 0, 64);
        lemma_fit_val(dd@);
        lemma_val_range_zero(q@, 0, 128);
        lemma_val_range_zero(r@, 0, 128);
        lemma_val_range_bound(n@, 0, 64);
        lemma_val_range_bound(d@, 0, 64);
        lemma_pow2_pos(4096);
        lemma_basic_div(nv as int, pow2(4096) as int);
        lemma_div_of0(dv as int);
        lemma_small_mod(0, dv);
    }
    let mut jj: usize = 64;
    while jj > 0
        invariant
            n@.len() == 128,
            dd@.len() == 128,
            q@.len() == 128,
            r@.len() == 128,
            jj <= 64,
            dv > 0,
            dv < pow2(4096),
            nv < pow2(4096),
            nv == val_range(n@, 0, 64),
            dv == val_range(dd@, 0, 128),
            val_range(q@, 0, 128) == (nv / pow2((64 * jj) as nat)) / dv,
            val_range(r@, 0, 128) == (nv / pow2((64 * jj) as nat)) % dv,
        decreases jj,
    {
        let limb = n[jj - 1];
        let mut k: usize = 64;
        while k > 0
            invariant
                n@.len() == 128,
                dd@.len() == 128,
                q@.len() == 128,
                r@.len() == 128,
                1 <= jj <= 64,
                k <= 64,
                limb == n@[jj - 1],
                dv > 0,
                dv < pow2(4096),
                nv < pow2(4096),
                nv == val_range(n@, 0, 64),
                dv == val_range(dd@, 0, 128),
                val_range(q@, 0, 128) == (nv / pow2((64 * (jj - 1) + k) as nat)) / dv,
                val_range(r@, 0, 128) == (nv / pow2((64 * (jj - 1) + k) as nat)) % dv,
            decreases k,
        {
            k = k - 1;
            let ghost i: nat = (64 * (jj - 1) + k) as nat;
            let ghost qv = val_range(q@, 0, 128);
            let ghost rv = val_range(r@, 0, 128);
            let bit = bit_of_limb(limb, k);
            proof {
                lemma_fundamental_div_mod_converse(i as int, 64, (jj - 1) as int, k as int);
                lemma_bit_extract(n@, i as int);
                lemma_div_step(nv, dv, i, qv, rv, bit as nat);
                lemma_pow2_pos(8192);
            }
            let (r2, cr) = vadd(&r, &r, 128);
            proof {
                lemma_carry_zero(cr as nat, val_range(r2@, 0, 128), rv + rv, pow2(8192));
            }
            r = r2;
            if bit == 1 {
                proof {
                    lemma_mod2_low(r@, 0, 128);
                    lemma_mod_multiples_vanish(rv as int, 0, 2);
                    assert(val_range(r@, 0, 128) % 2 == 0);
                    assert(r@[0] % 2 == 0);
                }
                let ghost prev = r@;
                let l0 = r[0];
                r[0] = l0 + 1;
                proof {
                    lemma_val_range_update0(prev, (l0 + 1) as u64, 128);
                }
            }
            // val(r) == 2 * rv + bit
            let ge = !vlt(&r, &dd, 128);
            let (q2, cq) = vadd(&q, &q, 128);
            proof {
                lemma_carry_zero(cq as nat, val_range(q2@, 0, 128), qv + qv, pow2(8192));
            }
            q = q2;
            if ge {
                let r3 = vsub(&r, &dd, 128);
                r = r3;
                proof {
                    lemma_mod2_low(q@, 0, 128);
                    lemma_mod_multiples_vanish(qv as int, 0, 2);
                    assert(q@[0] % 2 == 0);
                }
                let ghost prevq = q@;
                let l0q = q[0];
                q[0] = l0q + 1;
                proof {
                    lemma_val_range_update0(prevq, (l0q + 1) as u64, 128);
                }
            }
            proof {
                assert(val_range(q@, 0, 128) == (nv / pow2(i)) / dv);
                assert(val_range(r@, 0, 128) == (nv / pow2(i)) % dv);
            }
        }
        jj = jj - 1;
    }
    proof {
        lemma2_to64();
        assert(pow2((64 * 0) as nat) == 1);
        lemma_div_basics(nv as int);
        assert(val_range(q@, 0, 128) == nv / dv);
        assert(val_range(r@, 0, 128) == nv % dv);
        lemma_div_nonincreasing(nv as int, dv as int);
        lemma_mod_division_less_than_divisor(nv as int, dv as int);
        lemma_low_fit(q@);
        lemma_low_fit(r@);
        lemma_fundamental_div_mod(nv as int, dv as int);
        assert(dv * (nv / dv) == (nv / dv) * dv) by (nonlinear_arith);
    }
    (q, r)
}

/// Peeling one or two low bits off every limb at once halves or quarters
/// the range value.
proof fn lemma_shr_val(o: Seq<u64>, n: Seq<u64>, lo: int, hi: int, sh: nat)
    requires
        1 <= sh <= 2,
        lo < hi,
        hi <= o.len(),
        o.len() == n.len(),
        forall|j: int|
            lo <= j < hi - 1 ==> n[j] as nat == (o[j] as nat) / pow2(sh) + ((o[j + 1] as nat)
                % pow2(sh)) * pow2((64 - sh) as nat),
        n[hi - 1] as nat == (o[hi - 1] as nat) / pow2(sh),
    ensures
        pow2(sh) * val_range(n, lo, hi) + (o[lo] as nat) % pow2(sh) == val_range(o, lo, hi),
    decreases hi - lo,
{
    let ps = pow2(sh);
    let pc = pow2((64 - sh) as nat);
    let b = pow2(64);
    lemma_pow2_pos(sh);
    lemma_pow2_pos((64 - sh) as nat);
    lemma_pow2_adds(sh, (64 - sh) as nat);
    lemma_fundamental_div_mod(o[lo] as int, ps as int);
    if lo + 1 == hi {
        assert(val_range(n, lo, hi) == n[lo] as nat + b * val_range(n, lo + 1, hi));
        assert(val_range(n, lo + 1, hi) == 0);
        assert(ps * (n[lo] as nat) == ps * ((o[lo] as nat) / ps));
        assert(val_range(o, lo, hi) == o[lo] as nat + b * val_range(o, lo + 1, hi));
        assert(val_range(o, lo + 1, hi) == 0);
        assert(b * val_range(n, lo + 1, hi) == 0) by (nonlinear_arith)
            requires
                val_range(n, lo + 1, hi) == 0,
        ;
        assert(b * val_range(o, lo + 1, hi) == 0) by (nonlinear_arith)
            requires
                val_range(o, lo + 1, hi) == 0,
        ;
        assert(val_range(n, lo, hi) == (o[lo] as nat) / ps);
        assert(ps * ((o[lo] as nat) / ps) + (o[lo] as nat) % ps == o[lo] as nat);
        assert(val_range(o, lo, hi) == o[lo] as nat);
        assert(ps * val_range(n, lo, hi) + (o[lo] as nat) % ps == val_range(o, lo, hi));
    } else {
        lemma_shr_val(o, n, lo + 1, hi, sh);
        let d0 = (o[lo] as nat) / ps;
        let m0 = (o[lo] as nat) % ps;
        let m1 = (o[lo + 1] as nat) % ps;
        let vn1 = val_range(n, lo + 1, hi);
        let vo1 = val_range(o, lo + 1, hi);
        assert(ps * vn1 + m1 == vo1);
        assert(val_range(n, lo, hi) == (d0 + m1 * pc) + b * vn1);
        assert(ps * ((d0 + m1 * pc) + b * vn1) == ps * d0 + (ps * pc) * m1 + b * (ps * vn1))
            by (nonlinear_arith);
        assert((ps * pc) * m1 == b * m1);
        assert(b * m1 + b * (ps * vn1) == b * (m1 + ps * vn1)) by (nonlinear_arith);
        assert(b * (m1 + ps * vn1) == b * vo1);
        assert(ps * val_range(n, lo, hi) + m0 == (ps * d0 + m0) + b * vo1);
        assert(val_range(o, lo, hi) == o[lo] as nat + b * vo1);
        assert(ps * val_range(n, lo, hi) + (o[lo] as nat) % ps == val_range(o, lo, hi));
    }
}

/// The halving relation between two whole buffers.
pub proof fn lemma_shr_buffer(o: Seq<u64>, n: Seq<u64>, sh: nat)
    requires
        1 <= sh <= 2,
        o.len() == 128,
        n.len() == 128,
        forall|j: int|
            0 <= j < 127 ==> n[j] as nat == (o[j] as nat) / pow2(sh) + ((o[j + 1] as nat) % pow2(
                sh,
            )) * pow2((64 - sh) as nat),
        n[127] as nat == (o[127] as nat) / pow2(sh),
    ensures
        val_range(n, 0, 128) == val_range(o, 0, 128) / pow2(sh),
{
    lemma_shr_val(o, n, 0, 128, sh);
    lemma_pow2_pos(sh);
    lemma_mod_division_less_than_divisor(o[0] as int, pow2(sh) as int);
    lemma_fundamental_div_mod_converse(
        val_range(o, 0, 128) as int,
        pow2(sh) as int,
        val_range(n, 0, 128) as int,
        ((o[0] as nat) % pow2(sh)) as int,
    );
}

/// Equality of the low `w` limb values, scanning every limb.
pub fn veq(a: &Vec<u64>, b: &Vec<u64>, w: usize) -> (r: bool)
    requires
        a@.len() == 128,
        b@.len() == 128,
        w <= 128,
    ensures
        r == (val_range(a@, 0, w as int) == val_range(b@, 0, w as int)),
{
    let below = vlt(a, b, w);
    let above = vlt(b, a, w);
    !below && !above
}

} // verus!
