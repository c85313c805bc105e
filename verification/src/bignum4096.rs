//! Signed fixed-width integer backend: sign-magnitude over 128 limbs of 64
//! bits.  Well-formed operands occupy only the low 64 limbs (4096 bits); the
//! high half exists to hold the double-width result of multiplication and
//! squaring.

use vstd::prelude::*;
use vstd::arithmetic::power2::pow2;
use vstd::arithmetic::power2::lemma2_to64;
use vstd::arithmetic::power2::lemma2_to64_rest;
use vstd::arithmetic::div_mod::lemma_small_mod;
use vstd::arithmetic::div_mod::lemma_fundamental_div_mod;
use vstd::arithmetic::div_mod::lemma_fundamental_div_mod_converse;
use vstd::arithmetic::div_mod::lemma_multiply_divide_lt;
use vstd::arithmetic::div_mod::lemma_div_is_ordered_by_denominator;
use vstd::arithmetic::power2::lemma_pow2_adds;
use vstd::arithmetic::power2::lemma_pow2_strictly_increases;
use crate::limbs::val_range;
use crate::limbs::limbs_zeroed;
use crate::limbs::vcopy;
use crate::limbs::vadd;
use crate::limbs::vsub;
use crate::limbs::vlt;
use crate::limbs::veq;
use crate::limbs::vmul;
use crate::limbs::vdivmod;
use crate::limbs::lemma_val_range_zero;
use crate::limbs::lemma_val_range_update0;
use crate::limbs::lemma_val_range_bound;
use crate::limbs::lemma_val_range_congruence;
use crate::limbs::lemma_mod2_low;
use crate::limbs::lemma_carry_zero;
use crate::limbs::lemma_shr_buffer;
use crate::z::EuclideanDivResult;
use crate::z::abs_value;

verus! {

/// Signed integer with range (-2^4096, 2^4096).
/// Does not check for overflows.
pub struct Bignum4096 {
    pub positive: bool,
    pub limbs: Vec<u64>,
}

impl Bignum4096 {
    /// The structural invariant: exactly 128 limbs, never resized.
    pub open spec fn wf(self) -> bool {
        self.limbs@.len() == 128
    }

    /// Magnitude carried by the low 64 limbs, the operand width.
    pub open spec fn mag(self) -> nat {
        val_range(self.limbs@, 0, 64)
    }

    /// Magnitude carried by the full 128 limbs, the product width.
    pub open spec fn mag_full(self) -> nat {
        val_range(self.limbs@, 0, 128)
    }

    /// The reserved high half is clear, so the value is an operand.
    pub open spec fn fits(self) -> bool {
        forall|i: int| 64 <= i < 128 ==> self.limbs@[i] == 0u64
    }

    /// Signed value read from the operand width.
    pub open spec fn as_int(self) -> int {
        if self.positive {
            self.mag() as int
        } else {
            -(self.mag() as int)
        }
    }

    /// Signed value read from the full product width.
    pub open spec fn as_int_full(self) -> int {
        if self.positive {
            self.mag_full() as int
        } else {
            -(self.mag_full() as int)
        }
    }
}

/// Sign of the six-case signed addition table.
pub open spec fn add_sign(pa: bool, ma: nat, pb: bool, mb: nat) -> bool {
    if pa == pb {
        pa
    } else if ma < mb {
        pb
    } else {
        pa
    }
}

/// Magnitude of the six-case signed addition table; same-sign magnitudes
/// add without a carry-overflow check, so they wrap at the operand width.
pub open spec fn add_mag(pa: bool, ma: nat, pb: bool, mb: nat) -> nat {
    if pa == pb {
        ((ma + mb) % pow2(4096)) as nat
    } else if ma < mb {
        (mb - ma) as nat
    } else {
        (ma - mb) as nat
    }
}

/// The fixed boolean formula behind signed comparison: no early exit, the
/// three mutually exclusive cases are evaluated and or-ed.
pub open spec fn lt_signed(pa: bool, ma: nat, pb: bool, mb: nat) -> bool {
    (pa && pb && ma < mb) || (!pa && !pb && !(ma < mb)) || (!pa && pb)
}

/// The signed reading of a sign flag and a magnitude.
pub open spec fn signed_value(p: bool, m: nat) -> int {
    if p {
        m as int
    } else {
        -(m as int)
    }
}

/// The same value with another sign flag.
pub open spec fn with_sign(a: Bignum4096, p: bool) -> Bignum4096 {
    Bignum4096 { positive: p, ..a }
}

/// What `eq` decides: equal magnitude and equal sign.
pub open spec fn spec_eq(a: Bignum4096, b: Bignum4096) -> bool {
    a.mag() == b.mag() && a.positive == b.positive
}

/// What `eq_abs` decides: equal magnitude, signs not inspected.
pub open spec fn spec_eq_abs(a: Bignum4096, b: Bignum4096) -> bool {
    a.mag() == b.mag()
}

/// Every value equals itself, and magnitude equality never reads a sign,
/// while full equality demands matching signs: a positively and a
/// negatively signed zero are `eq_abs`-equal but never `eq`-equal.
pub proof fn lemma_eq_laws(a: Bignum4096, b: Bignum4096, p1: bool, p2: bool)
    ensures
        spec_eq(a, a),
        spec_eq_abs(a, a),
        spec_eq_abs(with_sign(a, p1), with_sign(b, p2)) == spec_eq_abs(a, b),
        spec_eq(a, b) ==> a.positive == b.positive,
        !spec_eq(with_sign(a, true), with_sign(a, false)),
{
}

/// Addition commutes: the magnitudes agree on every input, the signed
/// values agree on every input, and the produced sign flags agree except
/// when opposite signs meet equal magnitudes, where the two orders give a
/// positively and a negatively signed zero.
pub proof fn lemma_add_commutes(pa: bool, ma: nat, pb: bool, mb: nat)
    ensures
        add_mag(pa, ma, pb, mb) == add_mag(pb, mb, pa, ma),
        signed_value(add_sign(pa, ma, pb, mb), add_mag(pa, ma, pb, mb)) == signed_value(
            add_sign(pb, mb, pa, ma),
            add_mag(pb, mb, pa, ma),
        ),
        (pa == pb || ma != mb) ==> add_sign(pa, ma, pb, mb) == add_sign(pb, mb, pa, ma),
{
}

/// Adding a value to its own negation leaves a zero magnitude.
pub proof fn lemma_add_neg_zero(pa: bool, ma: nat)
    ensures
        add_mag(pa, ma, !pa, ma) == 0,
{
}

/// A zero factor forces a zero product magnitude.
pub proof fn lemma_mul_zero(ma: nat, mb: nat)
    requires
        mb == 0,
    ensures
        ma * mb == 0,
{
}

/// Magnitude comparison is a strict total order, consistent with the
/// unsigned numeric comparison of the low 4096 bits.
pub proof fn lemma_less_than_abs_strict_total_order(ma: nat, mb: nat, mc: nat)
    ensures
        !(ma < ma),
        ma < mb ==> !(mb < ma),
        ma < mb && mb < mc ==> ma < mc,
        ma < mb || mb < ma || ma == mb,
{
}

/// Signed comparison agrees with the sign of the difference: `a` is less
/// than `b` exactly when `add(a, neg(b))` carries a negative sign flag.
pub proof fn lemma_less_than_agrees_with_sub_sign(pa: bool, ma: nat, pb: bool, mb: nat)
    ensures
        lt_signed(pa, ma, pb, mb) == !add_sign(pa, ma, !pb, mb),
{
}

impl Bignum4096 {
    /// The value zero, with a positive sign.
    pub fn zero() -> (r: Self)
        ensures
            r.wf(),
            r.fits(),
            r.positive,
            r.mag() == 0,
            r.mag_full() == 0,
            r.as_int() == 0,
    {
        let limbs = limbs_zeroed();
        proof {
            lemma_val_range_zero(limbs@, 0, 64);
            lemma_val_range_zero(limbs@, 0, 128);
        }
        Bignum4096 { positive: true, limbs }
    }

    /// The default value is zero.
    pub fn default() -> (r: Self)
        ensures
            r.wf(),
            r.fits(),
            r.positive,
            r.mag() == 0,
            r.mag_full() == 0,
            r.as_int() == 0,
    {
        Self::zero()
    }

    /// A small non-negative value: the lowest limb alone carries it.
    pub fn from(n: u64) -> (r: Self)
        ensures
            r.wf(),
            r.fits(),
            r.positive,
            r.mag() == n,
            r.mag_full() == n,
            r.as_int() == n,
    {
        let mut limbs = limbs_zeroed();
        let ghost prev = limbs@;
        limbs[0] = n;
        proof {
            lemma_val_range_zero(prev, 0, 64);
            lemma_val_range_zero(prev, 0, 128);
            lemma_val_range_update0(prev, n, 64);
            lemma_val_range_update0(prev, n, 128);
        }
        Bignum4096 { positive: true, limbs }
    }

    /// An explicit deep copy.
    pub fn clone(&self) -> (r: Self)
        ensures
            r.positive == self.positive,
            r.limbs@ == self.limbs@,
            r.mag() == self.mag(),
            r.mag_full() == self.mag_full(),
            r.as_int() == self.as_int(),
    {
        Bignum4096 { positive: self.positive, limbs: vcopy(&self.limbs) }
    }

    /// Magnitude-only equality over the low 4096 bits; the sign and the
    /// reserved high half are not inspected.
    pub fn eq_abs(&self, rhs: &Self) -> (r: bool)
        requires
            self.wf(),
            rhs.wf(),
        ensures
            r == (self.mag() == rhs.mag()),
            r == (abs_value(self.as_int()) == abs_value(rhs.as_int())),
    {
        veq(&self.limbs, &rhs.limbs, 64)
    }

    /// Full equality: equal magnitude and equal sign.
    pub fn eq(&self, rhs: &Self) -> (r: bool)
        requires
            self.wf(),
            rhs.wf(),
        ensures
            r == (self.mag() == rhs.mag() && self.positive == rhs.positive),
            r ==> self.as_int() == rhs.as_int(),
    {
        let e = self.eq_abs(rhs);
        e && self.positive == rhs.positive
    }

    /// Magnitude-only strict comparison over the low 4096 bits.
    pub fn less_than_abs(&self, rhs: &Self) -> (r: bool)
        requires
            self.wf(),
            rhs.wf(),
        ensures
            r == (self.mag() < rhs.mag()),
            r == (abs_value(self.as_int()) < abs_value(rhs.as_int())),
    {
        vlt(&self.limbs, &rhs.limbs, 64)
    }

    /// Signed comparison by the fixed boolean formula.
    pub fn less_than(&self, rhs: &Self) -> (r: bool)
        requires
            self.wf(),
            rhs.wf(),
        ensures
            r == lt_signed(self.positive, self.mag(), rhs.positive, rhs.mag()),
            self.as_int() < rhs.as_int() ==> r,
            self.as_int() > rhs.as_int() ==> !r,
    {
        let both_positive = self.positive && rhs.positive;
        let both_negative = !self.positive && !rhs.positive;
        let self_negative_rhs_positive = !self.positive && rhs.positive;
        let less_than_abs = self.less_than_abs(rhs);

        let result_if_both_positive = both_positive && less_than_abs;
        let result_if_both_negative = both_negative && !less_than_abs;
        let result_if_self_negative_rhs_positive = self_negative_rhs_positive;

        result_if_both_positive || result_if_both_negative || result_if_self_negative_rhs_positive
    }

    /// Signed addition by the six-case sign/magnitude table.
    pub fn add(&self, rhs: &Self) -> (r: Self)
        requires
            self.wf(),
            rhs.wf(),
        ensures
            r.wf(),
            r.fits(),
            r.positive == add_sign(self.positive, self.mag(), rhs.positive, rhs.mag()),
            r.mag() == add_mag(self.positive, self.mag(), rhs.positive, rhs.mag()),
            self.mag() + rhs.mag() < pow2(4096) ==> r.as_int() == self.as_int() + rhs.as_int(),
    {
        let ghost ma = self.mag();
        let ghost mb = rhs.mag();
        let lt = self.less_than_abs(rhs);
        let res = match (self.positive, rhs.positive, lt) {
            (true, true, _) => {
                let (s, c) = vadd(&self.limbs, &rhs.limbs, 64);
                proof {
                    lemma_val_range_bound(s@, 0, 64);
                    lemma_fundamental_div_mod_converse(
                        (ma + mb) as int,
                        pow2(4096) as int,
                        c as int,
                        val_range(s@, 0, 64) as int,
                    );
                }
                Bignum4096 { positive: true, limbs: s }
            },
            (false, false, _) => {
                let (s, c) = vadd(&self.limbs, &rhs.limbs, 64);
                proof {
                    lemma_val_range_bound(s@, 0, 64);
                    lemma_fundamental_div_mod_converse(
                        (ma + mb) as int,
                        pow2(4096) as int,
                        c as int,
                        val_range(s@, 0, 64) as int,
                    );
                }
                Bignum4096 { positive: false, limbs: s }
            },
            (true, false, true) => {
                let s = vsub(&rhs.limbs, &self.limbs, 64);
                Bignum4096 { positive: false, limbs: s }
            },
            (true, false, false) => {
                let s = vsub(&self.limbs, &rhs.limbs, 64);
                Bignum4096 { positive: true, limbs: s }
            },
            (false, true, true) => {
                let s = vsub(&rhs.limbs, &self.limbs, 64);
                Bignum4096 { positive: true, limbs: s }
            },
            (false, true, false) => {
                let s = vsub(&self.limbs, &rhs.limbs, 64);
                Bignum4096 { positive: false, limbs: s }
            },
        };
        proof {
            if ma + mb < pow2(4096) {
                lemma_small_mod((ma + mb) as nat, pow2(4096));
            }
        }
        res
    }

    /// Signed subtraction, defined as adding the negation.
    pub fn sub(&self, rhs: &Self) -> (r: Self)
        requires
            self.wf(),
            rhs.wf(),
        ensures
            r.wf(),
            r.fits(),
            r.positive == add_sign(self.positive, self.mag(), !rhs.positive, rhs.mag()),
            r.mag() == add_mag(self.positive, self.mag(), !rhs.positive, rhs.mag()),
            self.mag() + rhs.mag() < pow2(4096) ==> r.as_int() == self.as_int() - rhs.as_int(),
    {
        let n = rhs.neg();
        self.add(&n)
    }

    /// Negation: the sign flag flips, the magnitude is untouched.  The sign
    /// of a zero magnitude flips too, producing a negative zero.
    pub fn neg(&self) -> (r: Self)
        ensures
            r.positive == !self.positive,
            r.limbs@ == self.limbs@,
            r.mag() == self.mag(),
            r.mag_full() == self.mag_full(),
            r.as_int() == -self.as_int(),
    {
        Bignum4096 { positive: !self.positive, limbs: vcopy(&self.limbs) }
    }

    /// Full double-width signed product; the sign is positive exactly when
    /// the input signs agree.
    pub fn mul(&self, rhs: &Self) -> (r: Self)
        requires
            self.wf(),
            rhs.wf(),
        ensures
            r.wf(),
            r.positive == (self.positive == rhs.positive),
            r.mag_full() == self.mag() * rhs.mag(),
            r.as_int_full() == self.as_int() * rhs.as_int(),
    {
        let limbs = vmul(&self.limbs, &rhs.limbs);
        let positive = self.positive == rhs.positive;
        proof {
            let ma = self.mag();
            let mb = rhs.mag();
            assert((-(ma as int)) * (-(mb as int)) == ma * mb) by (nonlinear_arith);
            assert((-(ma as int)) * (mb as int) == -(ma * mb)) by (nonlinear_arith);
            assert((ma as int) * (-(mb as int)) == -(ma * mb)) by (nonlinear_arith);
        }
        Bignum4096 { positive, limbs }
    }

    /// Full double-width square; the result is always non-negative.
    pub fn sqr(&self) -> (r: Self)
        requires
            self.wf(),
        ensures
            r.wf(),
            r.positive,
            r.mag_full() == self.mag() * self.mag(),
            r.as_int_full() == self.as_int() * self.as_int(),
    {
        let limbs = vmul(&self.limbs, &self.limbs);
        proof {
            let ma = self.mag();
            assert((-(ma as int)) * (-(ma as int)) == ma * ma) by (nonlinear_arith);
        }
        Bignum4096 { positive: true, limbs }
    }

    /// Magnitude-only floor shift right by one bit, over all 128 limbs,
    /// most-significant limb first; the sign is untouched.
    pub fn divide_by_2(&mut self)
        requires
            old(self).wf(),
        ensures
            final(self).wf(),
            final(self).positive == old(self).positive,
            final(self).mag_full() == old(self).mag_full() / 2,
            old(self).fits() ==> final(self).fits(),
            old(self).fits() ==> final(self).mag() == old(self).mag() / 2,
    {
        let ghost o = self.limbs@;
        let mut carry: u64 = 0;
        let mut idx: usize = 128;
        while idx > 0
            invariant
                self.limbs@.len() == 128,
                o.len() == 128,
                idx <= 128,
                carry as nat == if idx < 128 {
                    (o[idx as int] as nat) % 2
                } else {
                    0nat
                },
                forall|t: int| 0 <= t < idx ==> self.limbs@[t] == o[t],
                forall|t: int|
                    idx <= t < 127 ==> self.limbs@[t] as nat == (o[t] as nat) / 2 + ((o[t + 1]
                        as nat) % 2) * 0x8000000000000000nat,
                idx <= 127 ==> self.limbs@[127] as nat == (o[127] as nat) / 2,
                self.positive == old(self).positive,
            decreases idx,
        {
            idx = idx - 1;
            let cur = self.limbs[idx];
            self.limbs[idx] = cur / 2 + carry * 0x8000000000000000u64;
            carry = cur % 2;
        }
        proof {
            lemma2_to64();
            lemma2_to64_rest();
            lemma_shr_buffer(o, self.limbs@, 1);
            if old(self).fits() {
                lemma_val_range_congruence(o, old(self).limbs@, 0, 64);
                crate::limbs::lemma_fit_val(o);
                crate::limbs::lemma_fit_val(self.limbs@);
            }
        }
    }

    /// Magnitude-only floor shift right by two bits; the sign is untouched.
    pub fn divide_by_4(&mut self)
        requires
            old(self).wf(),
        ensures
            final(self).wf(),
            final(self).positive == old(self).positive,
            final(self).mag_full() == old(self).mag_full() / 4,
            old(self).fits() ==> final(self).fits(),
            old(self).fits() ==> final(self).mag() == old(self).mag() / 4,
    {
        let ghost o = self.limbs@;
        let mut carry: u64 = 0;
        let mut idx: usize = 128;
        while idx > 0
            invariant
                self.limbs@.len() == 128,
                o.len() == 128,
                idx <= 128,
                carry as nat == if idx < 128 {
                    (o[idx as int] as nat) % 4
                } else {
                    0nat
                },
                forall|t: int| 0 <= t < idx ==> self.limbs@[t] == o[t],
                forall|t: int|
                    idx <= t < 127 ==> self.limbs@[t] as nat == (o[t] as nat) / 4 + ((o[t + 1]
                        as nat) % 4) * 0x4000000000000000nat,
                idx <= 127 ==> self.limbs@[127] as nat == (o[127] as nat) / 4,
                self.positive == old(self).positive,
            decreases idx,
        {
            idx = idx - 1;
            let cur = self.limbs[idx];
            self.limbs[idx] = cur / 4 + carry * 0x4000000000000000u64;
            carry = cur % 4;
        }
        proof {
            lemma2_to64();
            lemma2_to64_rest();
            lemma_shr_buffer(o, self.limbs@, 2);
            if old(self).fits() {
                lemma_val_range_congruence(o, old(self).limbs@, 0, 64);
                crate::limbs::lemma_fit_val(o);
                crate::limbs::lemma_fit_val(self.limbs@);
            }
        }
    }

    /// Parity: bit 0 of the least-significant limb.
    pub fn is_odd(&self) -> (r: bool)
        requires
            self.wf(),
        ensures
            r == (self.mag_full() % 2 == 1),
            r == (self.mag() % 2 == 1),
    {
        proof {
            lemma_mod2_low(self.limbs@, 0, 64);
            lemma_mod2_low(self.limbs@, 0, 128);
        }
        self.limbs[0] % 2 == 1
    }

    /// In-place sign flip; the magnitude is untouched.
    pub fn oppose(&mut self)
        ensures
            final(self).positive == !old(self).positive,
            final(self).limbs@ == old(self).limbs@,
            final(self).as_int() == -old(self).as_int(),
    {
        self.positive = !self.positive;
    }

    /// In-place sign assignment; the magnitude is untouched.
    pub fn set_sign(&mut self, positive: bool)
        ensures
            final(self).positive == positive,
            final(self).limbs@ == old(self).limbs@,
    {
        self.positive = positive;
    }

    /// The sign flag: true means non-negative.
    pub fn is_positive(&self) -> (r: bool)
        ensures
            r == self.positive,
    {
        self.positive
    }

    /// Ceiling division with remainder: the quotient rounds towards positive
    /// infinity and the remainder carries the sign opposite the denominator,
    /// or is zero.  The one operation here that is not constant-time.
    pub fn euclidean_div_ceil(&self, other: &Self) -> (res: EuclideanDivResult<Self>)
        requires
            self.wf(),
            other.wf(),
            other.mag() != 0,
        ensures
            res.quotient.wf(),
            res.remainder.wf(),
            res.quotient.fits(),
            res.remainder.fits(),
            res.quotient.as_int() * other.as_int() + res.remainder.as_int() == self.as_int(),
            res.remainder.mag() < other.mag(),
            res.remainder.as_int() != 0 ==> res.remainder.positive == !other.positive,
            res.quotient.positive == (res.quotient.as_int() > 0),
            res.remainder.positive == (res.remainder.as_int() > 0),
    {
        let ghost nv = self.mag();
        let ghost dv = other.mag();
        let (qm, rm) = vdivmod(&self.limbs, &other.limbs);
        let ghost qv = val_range(qm@, 0, 64);
        let ghost rv = val_range(rm@, 0, 64);
        proof {
            lemma_fundamental_div_mod(nv as int, dv as int);
            lemma_val_range_bound(self.limbs@, 0, 64);
        }
        let zbuf = limbs_zeroed();
        proof {
            lemma_val_range_zero(zbuf@, 0, 64);
        }
        let r_zero = veq(&rm, &zbuf, 64);
        let q_zero = veq(&qm, &zbuf, 64);
        if self.positive == other.positive {
            if r_zero {
                proof {
                    assert((qv as int) * (dv as int) == qv * dv) by (nonlinear_arith);
                    assert((qv as int) * (-(dv as int)) == -(qv * dv)) by (nonlinear_arith);
                }
                EuclideanDivResult {
                    quotient: Bignum4096 { positive: !q_zero, limbs: qm },
                    remainder: Bignum4096 { positive: false, limbs: rm },
                }
            } else {
                let mut oneb = limbs_zeroed();
                let ghost prev1 = oneb@;
                oneb[0] = 1;
                proof {
                    lemma_val_range_zero(prev1, 0, 64);
                    lemma_val_range_update0(prev1, 1u64, 64);
                    // the quotient of a division by at least two leaves room
                    // for the ceiling adjustment
                    lemma2_to64();
                    lemma_pow2_adds(1, 4095);
                    lemma_pow2_strictly_increases(4095, 4096);
                    lemma_div_is_ordered_by_denominator(nv as int, 2, dv as int);
                    lemma_multiply_divide_lt(nv as int, 2, pow2(4095) as int);
                }
                let (q1, cq) = vadd(&qm, &oneb, 64);
                proof {
                    lemma_carry_zero(
                        cq as nat,
                        val_range(q1@, 0, 64),
                        (qv + 1) as nat,
                        pow2(4096),
                    );
                }
                let rsub = vsub(&other.limbs, &rm, 64);
                proof {
                    assert(((qv + 1) as int) * (dv as int) == qv * dv + dv) by (nonlinear_arith);
                    assert(((qv + 1) as int) * (-(dv as int)) == -(qv * dv) - dv)
                        by (nonlinear_arith);
                }
                EuclideanDivResult {
                    quotient: Bignum4096 { positive: true, limbs: q1 },
                    remainder: Bignum4096 { positive: !other.positive, limbs: rsub },
                }
            }
        } else {
            proof {
                assert((-(qv as int)) * (dv as int) == -(qv * dv)) by (nonlinear_arith);
                assert((-(qv as int)) * (-(dv as int)) == qv * dv) by (nonlinear_arith);
            }
            let rem_positive = self.positive && !r_zero;
            EuclideanDivResult {
                quotient: Bignum4096 { positive: false, limbs: qm },
                remainder: Bignum4096 { positive: rem_positive, limbs: rm },
            }
        }
    }
}

} // verus!
