use bignum4096::Bignum4096;
use bignum4096::convert;
use bignum4096::inverse_convert;

fn pos(n: u64) -> Bignum4096 {
    Bignum4096::from(n)
}

fn neg(n: u64) -> Bignum4096 {
    Bignum4096::from(n).neg()
}

#[test]
fn scenario_positive_operands() {
    let a = pos(7);
    let b = pos(3);
    let sum = a.add(&b);
    assert!(sum.eq(&pos(10)));
    assert!(sum.is_positive());
    let diff = a.sub(&b);
    assert!(diff.eq(&pos(4)));
    assert!(diff.is_positive());
    let prod = a.mul(&b);
    assert!(prod.eq(&pos(21)));
    assert!(prod.is_positive());
}

#[test]
fn scenario_mixed_signs() {
    let a = neg(7);
    let b = pos(3);
    let sum = a.add(&b);
    assert!(sum.eq(&neg(4)));
    assert!(!sum.is_positive());
    let diff = a.sub(&b);
    assert!(diff.eq(&neg(10)));
    let prod = a.mul(&b);
    assert!(prod.eq(&neg(21)));
    assert!(!prod.is_positive());
}

#[test]
fn scenario_halving_is_magnitude_floor() {
    let mut six = pos(6);
    six.divide_by_2();
    assert!(six.eq(&pos(3)));
    let mut five = pos(5);
    five.divide_by_2();
    assert!(five.eq(&pos(2)));
    let mut neg_five = neg(5);
    neg_five.divide_by_2();
    assert!(neg_five.eq(&neg(2)));
    let mut twenty = pos(20);
    twenty.divide_by_4();
    assert!(twenty.eq(&pos(5)));
    let mut seven = pos(7);
    seven.divide_by_4();
    assert!(seven.eq(&pos(1)));
}

#[test]
fn scenario_ceiling_division_negative_denominator() {
    let a = pos(7);
    let d = neg(3);
    let res = a.euclidean_div_ceil(&d);
    assert!(res.quotient.eq(&neg(2)));
    assert!(res.remainder.eq(&pos(1)));
    assert!(res.remainder.is_positive());
}

#[test]
fn ceiling_division_positive_operands() {
    let res = pos(7).euclidean_div_ceil(&pos(3));
    assert!(res.quotient.eq(&pos(3)));
    assert!(res.remainder.eq(&neg(2)));
}

#[test]
fn ceiling_division_negative_numerator() {
    let res = neg(7).euclidean_div_ceil(&pos(3));
    assert!(res.quotient.eq(&neg(2)));
    assert!(res.remainder.eq(&neg(1)));
}

#[test]
fn ceiling_division_exact() {
    let res = pos(6).euclidean_div_ceil(&pos(3));
    assert!(res.quotient.eq(&pos(2)));
    assert!(res.remainder.eq_abs(&Bignum4096::zero()));
    assert!(!res.remainder.is_positive());
}

#[test]
fn ceiling_division_invariant_holds() {
    // quotient * denominator + remainder == numerator, |r| < |d|
    let cases: Vec<(Bignum4096, Bignum4096)> = vec![
        (pos(29), pos(5)),
        (pos(29), neg(5)),
        (neg(29), pos(5)),
        (neg(29), neg(5)),
    ];
    for (n, d) in cases {
        let res = n.euclidean_div_ceil(&d);
        let back = res.quotient.mul(&d).add(&res.remainder);
        assert!(back.eq_abs(&n));
        assert!(res.remainder.less_than_abs(&d));
        if !res.remainder.eq_abs(&Bignum4096::zero()) {
            assert!(res.remainder.is_positive() == !d.is_positive());
        }
    }
}

#[test]
fn equality_is_reflexive_and_signed() {
    let a = pos(123456789);
    assert!(a.eq(&a));
    assert!(a.eq_abs(&a));
    let m = neg(123456789);
    assert!(a.eq_abs(&m));
    assert!(!a.eq(&m));
}

#[test]
fn negative_zero_is_abs_equal_but_not_eq() {
    let z = Bignum4096::zero();
    let nz = z.neg();
    assert!(z.eq_abs(&nz));
    assert!(!z.eq(&nz));
    assert!(z.is_positive());
    assert!(!nz.is_positive());
}

#[test]
fn addition_commutes_on_values() {
    let a = pos(7);
    let b = pos(3);
    assert!(a.add(&b).eq(&b.add(&a)));
    let c = neg(7);
    assert!(c.add(&b).eq(&b.add(&c)));
}

#[test]
fn adding_the_negation_leaves_zero_magnitude() {
    let a = pos(987654321);
    let s = a.add(&a.neg());
    assert!(s.eq_abs(&Bignum4096::zero()));
}

#[test]
fn subtraction_is_addition_of_negation() {
    let pairs: Vec<(Bignum4096, Bignum4096)> = vec![
        (pos(7), pos(3)),
        (pos(3), pos(7)),
        (neg(7), pos(3)),
        (neg(3), neg(7)),
    ];
    for (a, b) in pairs {
        let lhs = a.sub(&b);
        let rhs = a.add(&b.neg());
        assert!(lhs.eq(&rhs));
    }
}

#[test]
fn multiplication_sign_rules() {
    assert!(pos(6).mul(&pos(7)).is_positive());
    assert!(neg(6).mul(&neg(7)).is_positive());
    assert!(!neg(6).mul(&pos(7)).is_positive());
    assert!(!pos(6).mul(&neg(7)).is_positive());
    let sq = neg(3).sqr();
    assert!(sq.is_positive());
    assert!(sq.eq(&pos(9)));
    let z = pos(7).mul(&Bignum4096::zero());
    assert!(z.eq_abs(&Bignum4096::zero()));
}

#[test]
fn comparison_is_consistent_with_unsigned_magnitudes() {
    assert!(pos(3).less_than_abs(&pos(7)));
    assert!(!pos(7).less_than_abs(&pos(3)));
    assert!(!pos(7).less_than_abs(&pos(7)));
    assert!(neg(3).less_than_abs(&neg(7)));
}

#[test]
fn signed_comparison_and_difference_sign_agree() {
    let cases: Vec<(Bignum4096, Bignum4096)> = vec![
        (pos(3), pos(7)),
        (pos(7), pos(3)),
        (neg(7), pos(3)),
        (pos(3), neg(7)),
        (neg(3), neg(7)),
        (neg(7), neg(3)),
    ];
    for (a, b) in cases {
        let lt = a.less_than(&b);
        let diff = a.add(&b.neg());
        assert_eq!(lt, !diff.is_positive());
    }
}

#[test]
fn parity_reads_the_lowest_bit() {
    assert!(pos(5).is_odd());
    assert!(!pos(6).is_odd());
    assert!(neg(1).is_odd());
    assert!(!Bignum4096::zero().is_odd());
}

#[test]
fn oppose_and_set_sign_flip_only_the_flag() {
    let mut a = pos(42);
    a.oppose();
    assert!(!a.is_positive());
    assert!(a.eq(&neg(42)));
    a.set_sign(true);
    assert!(a.eq(&pos(42)));
}

#[test]
fn round_trip_zero_magnitude() {
    let z = Bignum4096::zero();
    let bytes = z.to_bytes_be();
    assert_eq!(bytes.len(), 512);
    assert!(bytes.iter().all(|b| *b == 0));
    let back = Bignum4096::from_bytes_be(bytes);
    assert!(back.eq(&z));
}

#[test]
fn round_trip_largest_magnitude() {
    let all_ones = vec![0xFFu8; 512];
    let x = Bignum4096::from_bytes_be(all_ones.clone());
    let bytes = x.to_bytes_be();
    assert_eq!(bytes, all_ones);
    let back = Bignum4096::from_bytes_be(bytes);
    assert!(back.eq(&x));
}

#[test]
fn round_trip_small_value_with_leading_zero_padding() {
    let x = pos(0x0102030405060708);
    let bytes = x.to_bytes_be();
    assert_eq!(bytes.len(), 512);
    assert_eq!(bytes[511], 0x08);
    assert_eq!(bytes[504], 0x01);
    assert!(bytes[..504].iter().all(|b| *b == 0));
    let back = Bignum4096::from_bytes_be(bytes);
    assert!(back.eq_abs(&x));
}

#[test]
fn short_big_endian_input_pads_at_the_most_significant_end() {
    let x = Bignum4096::from_bytes_be(vec![0x2A]);
    assert!(x.eq(&pos(0x2A)));
    let y = Bignum4096::from_bytes_be(vec![0x01, 0x00]);
    assert!(y.eq(&pos(0x0100)));
}

#[test]
fn limb_conversion_is_little_endian() {
    let limbs = convert(vec![1]);
    assert_eq!(limbs.len(), 128);
    assert_eq!(limbs[0], 1);
    assert!(limbs[1..].iter().all(|l| *l == 0));
    let limbs2 = convert(vec![0, 0, 0, 0, 0, 0, 0, 0, 0xFF]);
    assert_eq!(limbs2[0], 0);
    assert_eq!(limbs2[1], 0xFF);
}

#[test]
fn limb_encoding_is_big_endian() {
    let x = pos(0xAB);
    let bytes = inverse_convert(&x.limbs);
    assert_eq!(bytes.len(), 512);
    assert_eq!(bytes[511], 0xAB);
    assert!(bytes[..511].iter().all(|b| *b == 0));
}

#[test]
fn random_bytes_build_a_positive_value() {
    let mut bytes = vec![0u8; 512];
    bytes[0] = 42;
    let x = Bignum4096::from_random_bytes(bytes);
    assert!(x.is_positive());
    assert!(x.eq(&pos(42)));
    let z = Bignum4096::from_random_bytes(vec![0u8; 512]);
    assert!(z.eq(&Bignum4096::zero()));
}

#[test]
fn double_width_product_exceeding_operand_width() {
    // (2^4095) fits; its square only fits the double-width buffer, and the
    // halving walk brings it back down bit by bit
    let mut bytes = vec![0u8; 512];
    bytes[0] = 0x80;
    let big = Bignum4096::from_bytes_be(bytes);
    let sq = big.sqr();
    assert!(sq.is_positive());
    // 2^8190 halved 4096 times is 2^4094
    let mut walk = sq;
    for _ in 0..4096 {
        walk.divide_by_2();
    }
    let mut expect = vec![0u8; 512];
    expect[0] = 0x40;
    let expected = Bignum4096::from_bytes_be(expect);
    assert!(walk.eq_abs(&expected));
}

#[test]
fn large_operand_arithmetic_carries_across_limbs() {
    // 2^64 - 1 plus one carries into the second limb
    let max_limb = pos(u64::MAX);
    let s = max_limb.add(&pos(1));
    let limbs = &s.limbs;
    assert_eq!(limbs[0], 0);
    assert_eq!(limbs[1], 1);
    // (2^64 - 1)^2 == 2^128 - 2^65 + 1
    let p = max_limb.mul(&max_limb);
    assert_eq!(p.limbs[0], 1);
    assert_eq!(p.limbs[1], u64::MAX - 1);
}

#[test]
fn default_is_positive_zero() {
    let d = Bignum4096::default();
    assert!(d.eq(&Bignum4096::zero()));
    assert!(d.is_positive());
    let c = d.clone();
    assert!(c.eq(&d));
}
