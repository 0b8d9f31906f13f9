use crate::bignat::BigNat;
use crate::bignat::Comparison;
use crate::error::FusionError;
use vstd::prelude::*;

verus! {

/// The rational number `num / den`.
pub open spec fn ratio(num: int, den: int) -> real {
    (num as real) / (den as real)
}

/// The share of one list entry at zero-based `rank` under smoothing constant `k`.
pub open spec fn reciprocal_rank(k: nat, rank: nat) -> real {
    1real / ((k + rank + 1) as real)
}

/// The integer of magnitude `magnitude`, negated where `negative` is set.
pub open spec fn signed(negative: bool, magnitude: nat) -> int {
    if negative {
        -(magnitude as int)
    } else {
        magnitude as int
    }
}

/// Two ratios add over the product of their denominators.
proof fn lemma_ratio_sum(a: int, b: int, c: int, d: int)
    requires
        b > 0,
        d > 0,
    ensures
        ratio(a, b) + ratio(c, d) == ratio(a * d + c * b, b * d),
{
    assert((a as real) / (b as real) + (c as real) / (d as real) == ((a * d + c * b) as real) / ((b
        * d) as real)) by (nonlinear_arith)
        requires
            b > 0,
            d > 0,
    ;
}

/// Two ratios stand to each other as their cross products do.
proof fn lemma_ratio_order(a: int, b: int, c: int, d: int)
    requires
        b > 0,
        d > 0,
    ensures
        ratio(a, b) < ratio(c, d) <==> a * d < c * b,
        ratio(a, b) == ratio(c, d) <==> a * d == c * b,
{
    assert((a as real) / (b as real) < (c as real) / (d as real) <==> a * d < c * b)
        by (nonlinear_arith)
        requires
            b > 0,
            d > 0,
    ;
    assert((a as real) / (b as real) == (c as real) / (d as real) <==> a * d == c * b)
        by (nonlinear_arith)
        requires
            b > 0,
            d > 0,
    ;
}

/// The share of a rank scales a ratio by enlarging its denominator.
proof fn lemma_ratio_at_rank(num: int, den: int, k: nat, rank: nat)
    requires
        den > 0,
    ensures
        ratio(num, den) * reciprocal_rank(k, rank) == ratio(num, den * (k + rank + 1)),
        ratio(num, den) * reciprocal_rank(k, rank) == ratio(num, den) / ((k + rank + 1) as real),
{
    let m = (k + rank + 1) as int;
    assert((num as real) / (den as real) * (1real / (m as real)) == (num as real) / ((den
        * m) as real)) by (nonlinear_arith)
        requires
            den > 0,
            m > 0,
    ;
    assert((num as real) / (den as real) * (1real / (m as real)) == (num as real) / (den as real)
        / (m as real)) by (nonlinear_arith)
        requires
            den > 0,
            m > 0,
    ;
}

/// The weight of one ranked list: a rational number `num / den` with `den` above zero.
/// It may be zero, which leaves the list without influence, or negative, which turns
/// the influence of the list around.
#[derive(Clone, Copy, Debug)]
pub struct Weight {
    num: i64,
    den: u64,
}

impl View for Weight {
    type V = real;

    open spec fn view(&self) -> real {
        ratio(self.numerator_value(), self.denominator_value() as int)
    }
}

impl Weight {
    #[verifier::type_invariant]
    spec fn well_formed(self) -> bool {
        self.den > 0
    }

    /// The numerator.
    pub closed spec fn numerator_value(self) -> int {
        self.num as int
    }

    /// The denominator.
    pub closed spec fn denominator_value(self) -> nat {
        self.den as nat
    }

    /// The weight `num / den`; a zero denominator is rejected.
    pub fn new(num: i64, den: u64) -> (r: Result<Weight, FusionError>)
        ensures
            den == 0 ==> r == Err::<Weight, FusionError>(FusionError::ZeroDenominator),
            den != 0 ==> r is Ok && r->Ok_0.numerator_value() == num
                && r->Ok_0.denominator_value() == den,
    {
        if den == 0 {
            Err(FusionError::ZeroDenominator)
        } else {
            Ok(Weight { num, den })
        }
    }

    /// The weight one, which leaves a list's shares as they are.
    pub fn one() -> (r: Weight)
        ensures
            r@ == 1real,
            r.numerator_value() == 1,
            r.denominator_value() == 1,
    {
        proof {
            assert((1int as real) / (1int as real) == 1real) by (nonlinear_arith);
        }
        Weight { num: 1, den: 1 }
    }

    /// The numerator.
    pub fn numerator(&self) -> (r: i64)
        ensures
            r == self.numerator_value(),
    {
        self.num
    }

    /// The denominator, which is never zero.
    pub fn denominator(&self) -> (r: u64)
        ensures
            r == self.denominator_value(),
            r > 0,
    {
        proof {
            use_type_invariant(self);
        }
        self.den
    }
}

/// A fused score, held exactly: a rational number with a sign, a numerator and a
/// denominator above zero. Equal scores may differ in numerator and denominator.
#[derive(Debug)]
pub struct Score {
    negative: bool,
    num: BigNat,
    den: BigNat,
}

impl View for Score {
    type V = real;

    open spec fn view(&self) -> real {
        ratio(signed(self.sign_bit(), self.numerator_value()), self.denominator_value() as int)
    }
}

impl Clone for Score {
    fn clone(&self) -> (r: Score)
        ensures
            r@ == self@,
    {
        proof {
            use_type_invariant(self);
        }
        Score { negative: self.negative, num: self.num.clone(), den: self.den.clone() }
    }
}

/// Scaling a signed integer scales its magnitude.
proof fn lemma_signed_scales(negative: bool, magnitude: nat, factor: nat)
    ensures
        signed(negative, magnitude) * factor == signed(negative, magnitude * factor),
{
    assert((-(magnitude as int)) * factor == -(magnitude * factor)) by (nonlinear_arith);
}

/// A product of positive numbers is positive.
proof fn lemma_product_positive(a: nat, b: nat)
    requires
        a > 0,
        b > 0,
    ensures
        a * b > 0,
{
    assert(a * b > 0) by (nonlinear_arith)
        requires
            a > 0,
            b > 0,
    ;
}

impl Score {
    #[verifier::type_invariant]
    spec fn well_formed(self) -> bool {
        self.den@ > 0
    }

    /// Whether the numerator is to be negated.
    pub closed spec fn sign_bit(self) -> bool {
        self.negative
    }

    /// The magnitude of the numerator.
    pub closed spec fn numerator_value(self) -> nat {
        self.num@
    }

    /// The denominator.
    pub closed spec fn denominator_value(self) -> nat {
        self.den@
    }

    /// The score `numerator / denominator`, negated where `negative` is set; a zero
    /// denominator is rejected.
    pub fn new(negative: bool, numerator: BigNat, denominator: BigNat) -> (r: Result<
        Score,
        FusionError,
    >)
        ensures
            denominator@ == 0 ==> r == Err::<Score, FusionError>(FusionError::ZeroDenominator),
            denominator@ != 0 ==> r is Ok && r->Ok_0.sign_bit() == negative
                && r->Ok_0.numerator_value() == numerator@ && r->Ok_0.denominator_value()
                == denominator@,
    {
        match denominator.compare(&BigNat::zero()) {
            Comparison::Greater => Ok(Score { negative, num: numerator, den: denominator }),
            _ => Err(FusionError::ZeroDenominator),
        }
    }

    /// The score zero.
    pub fn zero() -> (r: Score)
        ensures
            r@ == 0real,
    {
        proof {
            assert((0int as real) / (1int as real) == 0real) by (nonlinear_arith);
        }
        Score { negative: false, num: BigNat::zero(), den: BigNat::from_u64(1) }
    }

    /// What one entry at zero-based `rank` of a list of weight `weight` adds to the
    /// score of its identifier: `weight / (k + rank + 1)`.
    pub fn contribution(weight: &Weight, k: usize, rank: usize) -> (r: Score)
        ensures
            r@ == weight@ * reciprocal_rank(k as nat, rank as nat),
            r@ == weight@ / ((k + rank + 1) as real),
    {
        proof {
            use_type_invariant(weight);
        }
        let negative: bool = weight.num < 0;
        let magnitude: u64 = if weight.num >= 0 {
            weight.num as u64
        } else {
            ((-(weight.num + 1)) as u64) + 1
        };
        let offset: BigNat = BigNat::from_u128(k as u128 + rank as u128 + 1);
        let den: BigNat = BigNat::from_u64(weight.den).mul(&offset);
        proof {
            lemma_product_positive(weight.den as nat, (k + rank + 1) as nat);
            lemma_ratio_at_rank(weight.num as int, weight.den as int, k as nat, rank as nat);
            assert(signed(negative, magnitude as nat) == weight.num);
        }
        Score { negative, num: BigNat::from_u64(magnitude), den }
    }

    /// Whether the numerator is to be negated.
    pub fn is_negative(&self) -> (r: bool)
        ensures
            r == self.sign_bit(),
    {
        self.negative
    }

    /// The magnitude of the numerator.
    pub fn numerator(&self) -> (r: &BigNat)
        ensures
            r@ == self.numerator_value(),
    {
        &self.num
    }

    /// The denominator, which is never zero.
    pub fn denominator(&self) -> (r: &BigNat)
        ensures
            r@ == self.denominator_value(),
            r@ > 0,
    {
        proof {
            use_type_invariant(self);
        }
        &self.den
    }

    /// The sum of two scores.
    pub fn add(&self, other: &Score) -> (r: Score)
        ensures
            r@ == self@ + other@,
    {
        proof {
            use_type_invariant(self);
            use_type_invariant(other);
        }
        let x: BigNat = self.num.mul(&other.den);
        let y: BigNat = other.num.mul(&self.den);
        let den: BigNat = self.den.mul(&other.den);
        proof {
            lemma_product_positive(self.den@, other.den@);
            lemma_signed_scales(self.negative, self.num@, other.den@);
            lemma_signed_scales(other.negative, other.num@, self.den@);
            lemma_ratio_sum(
                signed(self.negative, self.num@),
                self.den@ as int,
                signed(other.negative, other.num@),
                other.den@ as int,
            );
        }
        if self.negative == other.negative {
            Score { negative: self.negative, num: x.add(&y), den }
        } else {
            match x.checked_sub(&y) {
                Some(diff) => Score { negative: self.negative, num: diff, den },
                None => {
                    let diff = y.checked_sub(&x);
                    Score { negative: other.negative, num: diff.unwrap(), den }
                },
            }
        }
    }

    /// How `self` stands to `other` as rational numbers.
    pub fn compare(&self, other: &Score) -> (r: Comparison)
        ensures
            match r {
                Comparison::Less => self@ < other@,
                Comparison::Equal => self@ == other@,
                Comparison::Greater => self@ > other@,
            },
    {
        proof {
            use_type_invariant(self);
            use_type_invariant(other);
        }
        let x: BigNat = self.num.mul(&other.den);
        let y: BigNat = other.num.mul(&self.den);
        proof {
            lemma_signed_scales(self.negative, self.num@, other.den@);
            lemma_signed_scales(other.negative, other.num@, self.den@);
            lemma_ratio_order(
                signed(self.negative, self.num@),
                self.den@ as int,
                signed(other.negative, other.num@),
                other.den@ as int,
            );
            lemma_ratio_order(
                signed(other.negative, other.num@),
                other.den@ as int,
                signed(self.negative, self.num@),
                self.den@ as int,
            );
        }
        if self.negative == other.negative {
            if self.negative {
                y.compare(&x)
            } else {
                x.compare(&y)
            }
        } else {
            let zero: BigNat = BigNat::zero();
            let both_zero: bool = match (x.compare(&zero), y.compare(&zero)) {
                (Comparison::Equal, Comparison::Equal) => true,
                _ => false,
            };
            if both_zero {
                Comparison::Equal
            } else if self.negative {
                Comparison::Less
            } else {
                Comparison::Greater
            }
        }
    }
}

} // verus!
