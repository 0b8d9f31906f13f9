use rrf::BigNat;
use rrf::Comparison;
use rrf::Score;
use rrf::Weight;

fn as_u128(n: &BigNat) -> u128 {
    let mut value = 0u128;
    for limb in n.limbs().iter().rev() {
        value = (value << 32) | u128::from(*limb);
    }
    value
}

fn score(negative: bool, numerator: u64, denominator: u64) -> Score {
    Score::new(negative, BigNat::from_u64(numerator), BigNat::from_u64(denominator)).unwrap()
}

fn ratio(score: &Score) -> f64 {
    let magnitude = as_u128(score.numerator()) as f64 / as_u128(score.denominator()) as f64;
    if score.is_negative() {
        -magnitude
    } else {
        magnitude
    }
}

#[test]
fn weight_parts_are_those_given() {
    let w = Weight::new(-3, 4).unwrap();
    assert_eq!(w.numerator(), -3);
    assert_eq!(w.denominator(), 4);
    assert_eq!(Weight::one().numerator(), 1);
    assert_eq!(Weight::one().denominator(), 1);
    assert_eq!(Weight::new(i64::MIN, u64::MAX).unwrap().numerator(), i64::MIN);
}

#[test]
fn score_parts_are_those_given() {
    let s = Score::new(true, BigNat::from_u64(6), BigNat::from_u64(8)).unwrap();
    assert!(s.is_negative());
    assert_eq!(as_u128(s.numerator()), 6);
    assert_eq!(as_u128(s.denominator()), 8);
    let copy = s.clone();
    assert_eq!(copy.compare(&s), Comparison::Equal);
    assert_eq!(as_u128(&BigNat::from_u128(u128::MAX).clone()), u128::MAX);
}

#[test]
fn bignat_round_trips_machine_words() {
    assert_eq!(as_u128(&BigNat::zero()), 0);
    assert_eq!(as_u128(&BigNat::from_u64(0)), 0);
    assert_eq!(as_u128(&BigNat::from_u64(u64::MAX)), u128::from(u64::MAX));
    assert_eq!(as_u128(&BigNat::from_u128(u128::MAX)), u128::MAX);
    assert_eq!(as_u128(&BigNat::from_u128(0x1_0000_0000)), 0x1_0000_0000);
    assert_eq!(BigNat::from_u64(7).limbs(), &vec![7u32]);
    assert_eq!(BigNat::from_u128(0x1_0000_0000).limbs(), &vec![0u32, 1]);
}

#[test]
fn bignat_from_limbs_drops_high_zeros() {
    let n = BigNat::from_limbs(vec![5, 0, 9, 0, 0]);
    assert_eq!(n.limbs(), &vec![5u32, 0, 9]);
    assert_eq!(as_u128(&n), 5 + (9u128 << 64));
    assert!(BigNat::from_limbs(vec![0, 0]).limbs().is_empty());
}

#[test]
fn bignat_adds_with_carries() {
    let a = BigNat::from_u128(u128::from(u64::MAX));
    let b = BigNat::from_u64(1);
    assert_eq!(as_u128(&a.add(&b)), 1u128 << 64);
    let c = BigNat::from_u128(u128::MAX);
    let sum = c.add(&b);
    assert_eq!(sum.limbs(), &vec![0u32, 0, 0, 0, 1]);
    assert_eq!(as_u128(&BigNat::from_u64(123).add(&BigNat::zero())), 123);
}

#[test]
fn bignat_subtracts_with_borrows() {
    let a = BigNat::from_u128(1u128 << 64);
    let b = BigNat::from_u64(1);
    assert_eq!(as_u128(&a.checked_sub(&b).unwrap()), u128::from(u64::MAX));
    assert!(b.checked_sub(&a).is_none());
    assert!(a.checked_sub(&a).unwrap().limbs().is_empty());
    let c = BigNat::from_u128(0xdead_beef_0000_0000_1234_5678);
    let d = BigNat::from_u128(0x0000_0001_ffff_ffff_ffff_ffff);
    assert_eq!(
        as_u128(&c.checked_sub(&d).unwrap()),
        0xdead_beef_0000_0000_1234_5678u128 - 0x0000_0001_ffff_ffff_ffff_ffffu128
    );
}

#[test]
fn bignat_multiplies() {
    let a = BigNat::from_u64(u64::MAX);
    let b = BigNat::from_u64(u64::MAX);
    assert_eq!(as_u128(&a.mul(&b)), u128::from(u64::MAX) * u128::from(u64::MAX));
    assert!(a.mul(&BigNat::zero()).limbs().is_empty());
    assert_eq!(as_u128(&BigNat::from_u64(63).mul(&BigNat::from_u64(61))), 3843);
    let big = BigNat::from_u128(u128::MAX);
    let square = big.mul(&big);
    // (2^128 - 1)^2 = 2^256 - 2^129 + 1
    assert_eq!(
        square.limbs(),
        &vec![1u32, 0, 0, 0, 0xffff_fffe, 0xffff_ffff, 0xffff_ffff, 0xffff_ffff]
    );
}

#[test]
fn bignat_scales_by_a_limb_and_a_power_of_the_radix() {
    let a = BigNat::from_u64(0x1_0000_0005);
    assert_eq!(as_u128(&a.scaled(3, 0)), 0x3_0000_000f);
    assert_eq!(as_u128(&a.scaled(3, 1)), 0x3_0000_000f_0000_0000);
    assert_eq!(a.scaled(1, 2).limbs(), &vec![0u32, 0, 5, 1]);
    assert!(a.scaled(0, 4).limbs().is_empty());
}

#[test]
fn bignat_compares() {
    let small = BigNat::from_u64(5);
    let large = BigNat::from_u128(1u128 << 100);
    assert_eq!(small.compare(&large), Comparison::Less);
    assert_eq!(large.compare(&small), Comparison::Greater);
    assert_eq!(large.compare(&BigNat::from_u128(1u128 << 100)), Comparison::Equal);
    assert_eq!(BigNat::zero().compare(&BigNat::from_u64(0)), Comparison::Equal);
    assert_eq!(
        BigNat::from_u128((7u128 << 64) + 1).compare(&BigNat::from_u128((7u128 << 64) + 2)),
        Comparison::Less
    );
}

#[test]
fn contribution_is_weight_over_offset() {
    let w = Weight::new(-3, 4).unwrap();
    let share = Score::contribution(&w, 60, 2);
    assert_eq!(share.compare(&score(true, 3, 4 * 63)), Comparison::Equal);
    assert_eq!(share.compare(&score(true, 1, 84)), Comparison::Equal);
    assert!((ratio(&share) + 0.75 / 63.0).abs() < 1e-15);
    let least = Score::contribution(&Weight::new(i64::MIN, u64::MAX).unwrap(), 0, 0);
    assert_eq!(least.compare(&score(true, 1 << 63, u64::MAX)), Comparison::Equal);
    let one = Score::contribution(&Weight::one(), 0, 0);
    assert_eq!(one.compare(&score(false, 1, 1)), Comparison::Equal);
    let far = Score::contribution(&Weight::one(), usize::MAX, usize::MAX);
    let offset = BigNat::from_u128(2 * (usize::MAX as u128) + 1);
    assert_eq!(
        far.compare(&Score::new(false, BigNat::from_u64(1), offset).unwrap()),
        Comparison::Equal
    );
}

#[test]
fn scores_add_across_signs() {
    let half = Score::new(false, BigNat::from_u64(1), BigNat::from_u64(2)).unwrap();
    let third = Score::new(true, BigNat::from_u64(1), BigNat::from_u64(3)).unwrap();
    let sixth = Score::new(false, BigNat::from_u64(1), BigNat::from_u64(6)).unwrap();
    assert_eq!(half.add(&third).compare(&sixth), Comparison::Equal);
    assert!(third.add(&sixth).is_negative());
    assert_eq!(third.add(&third).compare(&third), Comparison::Less);
    assert_eq!(half.add(&half).compare(&half), Comparison::Greater);
    let cancelled = third.add(&score(false, 2, 6));
    assert_eq!(cancelled.compare(&Score::zero()), Comparison::Equal);
}

#[test]
fn scores_compare_as_rationals() {
    let a = Score::new(false, BigNat::from_u64(2), BigNat::from_u64(4)).unwrap();
    let b = Score::new(false, BigNat::from_u64(1), BigNat::from_u64(2)).unwrap();
    let c = Score::new(true, BigNat::from_u64(1), BigNat::from_u64(2)).unwrap();
    let d = Score::new(true, BigNat::from_u64(2), BigNat::from_u64(3)).unwrap();
    let negative_zero = Score::new(true, BigNat::zero(), BigNat::from_u64(9)).unwrap();
    assert_eq!(a.compare(&b), Comparison::Equal);
    assert_eq!(c.compare(&b), Comparison::Less);
    assert_eq!(b.compare(&c), Comparison::Greater);
    assert_eq!(d.compare(&c), Comparison::Less);
    assert_eq!(c.compare(&d), Comparison::Greater);
    assert_eq!(negative_zero.compare(&Score::zero()), Comparison::Equal);
    assert_eq!(Score::zero().compare(&negative_zero), Comparison::Equal);
    assert_eq!(negative_zero.compare(&c), Comparison::Greater);
}
