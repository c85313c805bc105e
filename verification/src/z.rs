//! The arithmetic capability contract shared by interchangeable integer
//! representations, and the result records its operations hand back.
//!
//! The fixed-width constant-time backend realizes the elementary part of
//! this contract; arbitrary-precision representations supplied elsewhere
//! realize the number-theoretic remainder.  Every implementer documents its
//! exactly represented integers through `in_range`: outside that set the
//! elementary operations promise nothing, which is how the fixed-width
//! backend's unchecked overflow is accounted for.

use vstd::prelude::*;
use vstd::arithmetic::power2::pow2;
use vstd::arithmetic::div_mod::lemma_fundamental_div_mod;
use vstd::arithmetic::div_mod::lemma_mod_multiples_vanish;
use vstd::arithmetic::div_mod::lemma_mul_mod_noop_right;
use vstd::arithmetic::div_mod::lemma_sub_mod_noop;
use vstd::arithmetic::div_mod::lemma_small_mod;
use vstd::arithmetic::div_mod::lemma_div_multiples_vanish;

verus! {

/// Quotient and remainder of a euclidean division.
pub struct EuclideanDivResult<Z> {
    pub quotient: Z,
    pub remainder: Z,
}

/// Bezout coefficients of an extended greatest-common-divisor run.
pub struct ExtendedGCDResult<Z> {
    pub bezout_coeff_1: Z,
    pub bezout_coeff_2: Z,
}

/// The magnitude of a mathematical integer.
pub open spec fn abs_value(x: int) -> nat {
    if x >= 0 {
        x as nat
    } else {
        (-x) as nat
    }
}

/// `d` divides `x` over the mathematical integers.
pub open spec fn divides_int(d: int, x: int) -> bool {
    exists|k: int| x == #[trigger] (d * k)
}

/// `g` is the greatest common divisor of `a` and `b`: non-negative, a
/// common divisor, and divided by every common divisor.
pub open spec fn is_gcd(g: int, a: int, b: int) -> bool {
    g >= 0 && divides_int(g, a) && divides_int(g, b) && (forall|c: int|
        #[trigger] divides_int(c, a) && divides_int(c, b) ==> divides_int(c, g))
}

/// The uniform operation set that any integer representation must provide
/// to be usable interchangeably by protocol code.  Methods whose result the
/// representation can only approximate outside `in_range` carry their
/// promise conditionally.
pub trait Z: Sized {
    /// The mathematical integer a value stands for.
    spec fn as_int(&self) -> int;

    /// The integers this representation holds exactly.
    spec fn in_range(x: int) -> bool;

    fn zero() -> (r: Self)
        ensures
            r.as_int() == 0,
    ;

    fn default() -> (r: Self)
        ensures
            r.as_int() == 0,
    ;

    fn from(n: u64) -> (r: Self)
        ensures
            Self::in_range(n as int) ==> r.as_int() == n,
    ;

    fn from_string(s: &str, base: u64) -> Self;

    fn from_i64(i: i64) -> (r: Self)
        ensures
            Self::in_range(i as int) ==> r.as_int() == i,
    ;

    fn from_bytes_be(b: Vec<u8>) -> Self;

    fn to_bytes_be(&self) -> Vec<u8>;

    fn clone(&self) -> (r: Self)
        ensures
            r.as_int() == self.as_int(),
    ;

    fn eq_abs(&self, rhs: &Self) -> (r: bool)
        ensures
            r == (abs_value(self.as_int()) == abs_value(rhs.as_int())),
    ;

    /// Representation equality; representations with signed zeros may
    /// distinguish values of equal mathematical value.
    fn eq(&self, rhs: &Self) -> (r: bool)
        ensures
            r ==> self.as_int() == rhs.as_int(),
    ;

    fn less_than_abs(&self, rhs: &Self) -> (r: bool)
        ensures
            r == (abs_value(self.as_int()) < abs_value(rhs.as_int())),
    ;

    /// Signed comparison; representations with signed zeros may order
    /// equal mathematical values.
    fn less_than(&self, rhs: &Self) -> (r: bool)
        ensures
            self.as_int() < rhs.as_int() ==> r,
            self.as_int() > rhs.as_int() ==> !r,
    ;

    fn add(&self, rhs: &Self) -> (r: Self)
        ensures
            Self::in_range(self.as_int() + rhs.as_int()) ==> r.as_int() == self.as_int()
                + rhs.as_int(),
    ;

    fn sub(&self, rhs: &Self) -> (r: Self)
        ensures
            Self::in_range(self.as_int() - rhs.as_int()) ==> r.as_int() == self.as_int()
                - rhs.as_int(),
    ;

    fn mul(&self, rhs: &Self) -> (r: Self)
        ensures
            Self::in_range(self.as_int() * rhs.as_int()) ==> r.as_int() == self.as_int()
                * rhs.as_int(),
    ;

    fn sqr(&self) -> (r: Self)
        ensures
            Self::in_range(self.as_int() * self.as_int()) ==> r.as_int() == self.as_int()
                * self.as_int(),
    ;

    fn neg(&self) -> (r: Self)
        ensures
            r.as_int() == -self.as_int(),
    ;

    /// Magnitude-only floor halving; the sign is untouched.
    fn divide_by_2(&mut self)
        ensures
            abs_value(final(self).as_int()) == abs_value(old(self).as_int()) / 2,
    ;

    /// Magnitude-only floor quartering; the sign is untouched.
    fn divide_by_4(&mut self)
        ensures
            abs_value(final(self).as_int()) == abs_value(old(self).as_int()) / 4,
    ;

    fn is_odd(&self) -> (r: bool)
        ensures
            r == (abs_value(self.as_int()) % 2 == 1),
    ;

    /// Rounds the quotient towards positive infinity; the remainder gets
    /// the sign opposite the denominator, or is zero.
    fn euclidean_div_ceil(&self, other: &Self) -> (res: EuclideanDivResult<Self>)
        requires
            other.as_int() != 0,
        ensures
            res.quotient.as_int() * other.as_int() + res.remainder.as_int() == self.as_int(),
            abs_value(res.remainder.as_int()) < abs_value(other.as_int()),
            res.remainder.as_int() != 0 ==> ((res.remainder.as_int() > 0) == (other.as_int()
                < 0)),
    ;

    fn oppose(&mut self)
        ensures
            final(self).as_int() == -old(self).as_int(),
    ;

    fn is_positive(&self) -> (r: bool)
        ensures
            self.as_int() > 0 ==> r,
            self.as_int() < 0 ==> !r,
    ;

    fn root(&self, n: u32) -> Self;

    fn gcd(&self, other: &Self) -> (r: Self)
        ensures
            is_gcd(r.as_int(), self.as_int(), other.as_int()),
    ;

    /// The greatest common divisor together with Bezout coefficients.
    fn extended_gcd(&self, other: &Self) -> (r: (Self, Self, Self))
        ensures
            is_gcd(r.0.as_int(), self.as_int(), other.as_int()),
            r.0.as_int() == r.1.as_int() * self.as_int() + r.2.as_int() * other.as_int(),
    ;

    fn divide_exact(&self, other: &Self) -> (r: Self)
        requires
            other.as_int() != 0,
            divides_int(other.as_int(), self.as_int()),
        ensures
            r.as_int() == self.as_int() / other.as_int(),
    ;

    fn divides(&self, other: &Self) -> (r: bool)
        ensures
            r == divides_int(self.as_int(), other.as_int()),
    ;

    fn add_mod(&self, other: &Self, modulo: &Self) -> (r: Self)
        requires
            modulo.as_int() > 0,
        ensures
            r.as_int() == (self.as_int() + other.as_int()) % modulo.as_int(),
    ;

    fn sub_mod(&self, other: &Self, modulo: &Self) -> (r: Self)
        requires
            modulo.as_int() > 0,
        ensures
            r.as_int() == (self.as_int() - other.as_int()) % modulo.as_int(),
    ;

    fn take_mod(&self, modulo: &Self) -> (r: Self)
        requires
            modulo.as_int() > 0,
        ensures
            r.as_int() == self.as_int() % modulo.as_int(),
    ;

    fn mul_mod(&self, other: &Self, modulo: &Self) -> (r: Self)
        requires
            modulo.as_int() > 0,
        ensures
            r.as_int() == (self.as_int() * other.as_int()) % modulo.as_int(),
    ;

    fn set_sign(&mut self, positive: bool)
        ensures
            abs_value(final(self).as_int()) == abs_value(old(self).as_int()),
    ;

    /// Solves the congruence `self * x = other [modulo]` for `x`, returning
    /// the solution and the step between consecutive solutions.  A solution
    /// exists only when `other` is divisible by the greatest common divisor
    /// of `self` and `modulo`; the contract demands that of the caller.
    fn solve_congruence(&self, other: &Self, modulo: &Self) -> (r: (Self, Self))
        requires
            modulo.as_int() > 0,
            forall|g: int|
                #[trigger] is_gcd(g, self.as_int(), modulo.as_int()) ==> divides_int(
                    g,
                    other.as_int(),
                ),
        ensures
            (self.as_int() * r.0.as_int() - other.as_int()) % modulo.as_int() == 0,
    {
        let (gcd, s, _t) = self.extended_gcd(modulo);
        let ghost a = self.as_int();
        let ghost m = modulo.as_int();
        let ghost o = other.as_int();
        let ghost g = gcd.as_int();
        proof {
            assert(divides_int(g, o));
            if g == 0 {
                let k = choose|k: int| m == #[trigger] (g * k);
                assert(0int * k == 0) by (nonlinear_arith);
                assert(false);
            }
        }
        // a solution exists iff other is divisible by the GCD of self and
        // modulo; the contract rules the insoluble case out, so the check
        // cannot fire
        let rcheck = other.take_mod(&gcd);
        proof {
            let k = choose|k: int| o == #[trigger] (g * k);
            lemma_mod_multiples_vanish(k, 0, g);
            lemma_small_mod(0, g as nat);
            assert(g * k + 0 == g * k);
            assert(o % g == 0);
        }
        let solvable = rcheck.eq_abs(&Self::zero());
        proof {
            assert(solvable);
        }
        // the solutions are x, x + modulo/gcd, x + 2*modulo/gcd, ...
        let x = other.divide_exact(&gcd).mul_mod(&s, modulo);
        let step = modulo.divide_exact(&gcd);
        proof {
            let sv = s.as_int();
            let tv = _t.as_int();
            let k = choose|k: int| o == #[trigger] (g * k);
            lemma_div_multiples_vanish(k, g);
            assert(o / g == k);
            // x == (k * sv) % m, and a * x is congruent to o modulo m
            lemma_mul_mod_noop_right(a, k * sv, m);
            assert(a * (k * sv) == k * (sv * a)) by (nonlinear_arith);
            assert(sv * a == g - tv * m);
            assert(k * (g - tv * m) == g * k - (k * tv) * m) by (nonlinear_arith);
            assert(a * (k * sv) == o - (k * tv) * m);
            lemma_mod_multiples_vanish(-(k * tv), o, m);
            assert(m * (-(k * tv)) + o == o - (k * tv) * m) by (nonlinear_arith);
            assert((a * (k * sv)) % m == o % m);
            assert((a * x.as_int()) % m == o % m) by {
                assert(x.as_int() == (k * sv) % m);
                lemma_mul_mod_noop_right(a, (k * sv) % m, m);
                lemma_mul_mod_noop_right(a, k * sv, m);
            }
            lemma_sub_mod_noop(a * x.as_int(), o, m);
            lemma_fundamental_div_mod(o as int, m);
            assert((a * x.as_int() - o) % m == ((a * x.as_int()) % m - o % m) % m);
            lemma_small_mod(0, m as nat);
        }
        (x, step)
    }

    fn div_floor(&self, other: Self) -> Self;

    fn bit_size(&self) -> (r: u64)
        ensures
            abs_value(self.as_int()) < pow2(r as nat),
    ;

    fn get_bit(&self, index: u64) -> (r: bool)
        ensures
            r == ((abs_value(self.as_int()) / pow2(index as nat)) % 2 == 1),
    ;

    fn sqrt(&self) -> Self;

    fn next_prime(&self) -> (r: Self)
        ensures
            r.as_int() > self.as_int(),
    ;

    fn kronecker(&self, other: &Self) -> i32;

    fn invert_mod(&self, modulo: &Self) -> (r: Option<Self>)
        requires
            modulo.as_int() > 0,
        ensures
            r is Some ==> (self.as_int() * r.unwrap().as_int()) % modulo.as_int() == 1int
                % modulo.as_int(),
    ;

    fn compare(&self, other: &Self) -> core::cmp::Ordering;

    fn remove(&self, factor: &Self) -> (Self, u32);

    fn sqrt_mod_prime(&self, prime: &Self) -> (r: Option<Self>)
        requires
            prime.as_int() > 1,
        ensures
            r is Some ==> (r.unwrap().as_int() * r.unwrap().as_int()) % prime.as_int()
                == self.as_int() % prime.as_int(),
    ;

    fn abs(&self) -> (r: Self)
        ensures
            r.as_int() == abs_value(self.as_int()),
    ;

    fn pow_mod(&self, exponent: &Self, modulo: &Self) -> Self;
}

} // verus!
