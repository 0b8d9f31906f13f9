use vstd::prelude::*;

verus! {

/// The radix of one limb, 2^32.
pub open spec fn radix() -> nat {
    0x1_0000_0000
}

/// `radix()` raised to the power `n`.
pub open spec fn radix_pow(n: nat) -> nat
    decreases n,
{
    if n == 0 {
        1
    } else {
        radix() * radix_pow((n - 1) as nat)
    }
}

/// The limb at position `i`, and zero past the end.
pub open spec fn digit(limbs: Seq<u32>, i: nat) -> nat {
    if i < limbs.len() {
        limbs[i as int] as nat
    } else {
        0
    }
}

/// The number that the lowest `n` limbs denote, least significant limb first.
pub open spec fn value_upto(limbs: Seq<u32>, n: nat) -> nat
    decreases n,
{
    if n == 0 {
        0
    } else {
        value_upto(limbs, (n - 1) as nat) + digit(limbs, (n - 1) as nat) * radix_pow(
            (n - 1) as nat,
        )
    }
}

/// The number that a little-endian sequence of limbs denotes.
pub open spec fn limbs_value(limbs: Seq<u32>) -> nat {
    value_upto(limbs, limbs.len())
}

/// Whether the most significant limb, where there is one, is not zero.
pub open spec fn trimmed(limbs: Seq<u32>) -> bool {
    limbs.len() == 0 || limbs[limbs.len() - 1] != 0
}

/// Powers of the radix multiply as their exponents add.
proof fn lemma_radix_pow_adds(m: nat, n: nat)
    ensures
        radix_pow(m + n) == radix_pow(m) * radix_pow(n),
    decreases n,
{
    if n == 0 {
        assert(radix_pow(m) * 1 == radix_pow(m)) by (nonlinear_arith);
    } else {
        lemma_radix_pow_adds(m, (n - 1) as nat);
        let a = radix_pow(m);
        let b = radix_pow((n - 1) as nat);
        assert(radix_pow(m + n) == radix() * radix_pow((m + n - 1) as nat));
        assert(radix() * (a * b) == a * (radix() * b)) by (nonlinear_arith);
    }
}

/// Limbs past the end add nothing.
proof fn lemma_value_past_end(limbs: Seq<u32>, n: nat)
    requires
        n >= limbs.len(),
    ensures
        value_upto(limbs, n) == limbs_value(limbs),
    decreases n,
{
    if n > limbs.len() {
        lemma_value_past_end(limbs, (n - 1) as nat);
        assert(0 * radix_pow((n - 1) as nat) == 0) by (nonlinear_arith);
    }
}

/// Sequences with the same lowest `n` digits denote the same number there.
proof fn lemma_value_agrees(a: Seq<u32>, b: Seq<u32>, n: nat)
    requires
        forall|j: nat| j < n ==> digit(a, j) == digit(b, j),
    ensures
        value_upto(a, n) == value_upto(b, n),
    decreases n,
{
    if n > 0 {
        lemma_value_agrees(a, b, (n - 1) as nat);
        assert(digit(a, (n - 1) as nat) == digit(b, (n - 1) as nat));
    }
}

/// `n` limbs denote a number below `radix()` to the `n`.
proof fn lemma_value_bound(limbs: Seq<u32>, n: nat)
    ensures
        value_upto(limbs, n) < radix_pow(n),
    decreases n,
{
    if n > 0 {
        lemma_value_bound(limbs, (n - 1) as nat);
        let p = radix_pow((n - 1) as nat);
        let d = digit(limbs, (n - 1) as nat);
        assert(d * p + p <= radix() * p) by (nonlinear_arith)
            requires
                d + 1 <= radix(),
        ;
    }
}

/// Where two sequences have the same digits from `i` up to `n`, the numbers that
/// their lowest `n` limbs denote differ as those of their lowest `i` limbs do.
proof fn lemma_high_digits_agree(a: Seq<u32>, b: Seq<u32>, i: nat, n: nat)
    requires
        i <= n,
        forall|j: nat| i <= j < n ==> digit(a, j) == digit(b, j),
    ensures
        value_upto(a, n) - value_upto(a, i) == value_upto(b, n) - value_upto(b, i),
    decreases n,
{
    if n > i {
        lemma_high_digits_agree(a, b, i, (n - 1) as nat);
        assert(digit(a, (n - 1) as nat) == digit(b, (n - 1) as nat));
    }
}

/// Sequences that denote the same number with their lowest `n` limbs have the same
/// digits there.
proof fn lemma_equal_values_have_equal_digits(a: Seq<u32>, b: Seq<u32>, n: nat)
    requires
        value_upto(a, n) == value_upto(b, n),
    ensures
        forall|j: nat| j < n ==> digit(a, j) == digit(b, j),
    decreases n,
{
    if n > 0 {
        let p = radix_pow((n - 1) as nat);
        let x = digit(a, (n - 1) as nat);
        let y = digit(b, (n - 1) as nat);
        lemma_value_bound(a, (n - 1) as nat);
        lemma_value_bound(b, (n - 1) as nat);
        if x < y {
            assert(x * p + p <= y * p) by (nonlinear_arith)
                requires
                    x + 1 <= y,
            ;
        }
        if y < x {
            assert(y * p + p <= x * p) by (nonlinear_arith)
                requires
                    y + 1 <= x,
            ;
        }
        lemma_equal_values_have_equal_digits(a, b, (n - 1) as nat);
    }
}

/// A number has one sequence of limbs without a zero at the most significant end.
pub proof fn lemma_trimmed_limbs_are_unique(a: Seq<u32>, b: Seq<u32>)
    requires
        trimmed(a),
        trimmed(b),
        limbs_value(a) == limbs_value(b),
    ensures
        a == b,
{
    let n: nat = if a.len() >= b.len() {
        a.len()
    } else {
        b.len()
    };
    lemma_value_past_end(a, n);
    lemma_value_past_end(b, n);
    lemma_equal_values_have_equal_digits(a, b, n);
    if a.len() < b.len() {
        assert(digit(a, (b.len() - 1) as nat) == digit(b, (b.len() - 1) as nat));
    }
    if b.len() < a.len() {
        assert(digit(a, (a.len() - 1) as nat) == digit(b, (a.len() - 1) as nat));
    }
    assert forall|j: int| 0 <= j < a.len() implies a[j] == b[j] by {
        assert(digit(a, j as nat) == digit(b, j as nat));
    }
    assert(a =~= b);
}

/// How two numbers stand to each other.
#[derive(Clone, Copy, Debug, PartialEq, Eq)]
pub enum Comparison {
    Less,
    Equal,
    Greater,
}

/// A natural number of any size, held as limbs to the radix 2^32, least significant
/// first and without a zero limb at the most significant end.
#[derive(Debug)]
pub struct BigNat {
    limbs: Vec<u32>,
}

impl View for BigNat {
    type V = nat;

    closed spec fn view(&self) -> nat {
        limbs_value(self.limbs@)
    }
}

impl Clone for BigNat {
    fn clone(&self) -> (r: BigNat)
        ensures
            r@ == self@,
    {
        proof {
            use_type_invariant(self);
        }
        let limbs: Vec<u32> = self.limbs.clone();
        proof {
            assert(limbs@ =~= self.limbs@);
        }
        BigNat { limbs }
    }
}

impl BigNat {
    #[verifier::type_invariant]
    spec fn well_formed(self) -> bool {
        trimmed(self.limbs@)
    }

    /// Zero.
    pub fn zero() -> (r: BigNat)
        ensures
            r@ == 0,
    {
        BigNat { limbs: Vec::new() }
    }

    /// The number `x`.
    pub fn from_u64(x: u64) -> (r: BigNat)
        ensures
            r@ == x,
    {
        BigNat::from_u128(x as u128)
    }

    /// The number `x`.
    pub fn from_u128(x: u128) -> (r: BigNat)
        ensures
            r@ == x,
    {
        let low: u64 = (x % 0x1_0000_0000_0000_0000) as u64;
        let high: u64 = (x / 0x1_0000_0000_0000_0000) as u64;
        let mut limbs: Vec<u32> = Vec::new();
        limbs.push((low % 0x1_0000_0000) as u32);
        limbs.push((low / 0x1_0000_0000) as u32);
        limbs.push((high % 0x1_0000_0000) as u32);
        limbs.push((high / 0x1_0000_0000) as u32);
        proof {
            let s = limbs@;
            assert(radix_pow(0) == 1);
            assert(radix_pow(1) == 0x1_0000_0000);
            assert(radix_pow(2) == 0x1_0000_0000_0000_0000);
            assert(radix_pow(3) == 0x1_0000_0000_0000_0000_0000_0000);
            assert(value_upto(s, 1) == value_upto(s, 0) + digit(s, 0) * radix_pow(0));
            assert(value_upto(s, 2) == value_upto(s, 1) + digit(s, 1) * radix_pow(1));
            assert(value_upto(s, 3) == value_upto(s, 2) + digit(s, 2) * radix_pow(2));
            assert(value_upto(s, 4) == value_upto(s, 3) + digit(s, 3) * radix_pow(3));
        }
        BigNat::from_limbs(limbs)
    }

    /// The number that `limbs` denote, least significant limb first.
    pub fn from_limbs(limbs: Vec<u32>) -> (r: BigNat)
        ensures
            r@ == limbs_value(limbs@),
    {
        let ghost given = limbs@;
        let mut limbs = limbs;
        while limbs.len() > 0 && limbs[limbs.len() - 1] == 0
            invariant
                limbs_value(limbs@) == limbs_value(given),
            decreases limbs.len(),
        {
            let ghost before = limbs@;
            limbs.pop();
            proof {
                lemma_value_agrees(before, limbs@, before.len());
                lemma_value_past_end(limbs@, before.len());
            }
        }
        BigNat { limbs }
    }

    /// The limbs of the number, least significant first and without a zero limb at the
    /// most significant end.
    pub fn limbs(&self) -> (r: &Vec<u32>)
        ensures
            limbs_value(r@) == self@,
            trimmed(r@),
    {
        proof {
            use_type_invariant(self);
        }
        &self.limbs
    }

    /// The sum of two numbers.
    pub fn add(&self, other: &BigNat) -> (r: BigNat)
        ensures
            r@ == self@ + other@,
    {
        let n: usize = if self.limbs.len() >= other.limbs.len() {
            self.limbs.len()
        } else {
            other.limbs.len()
        };
        let mut out: Vec<u32> = Vec::new();
        let mut carry: u64 = 0;
        let mut i: usize = 0;
        while i < n
            invariant
                i <= n,
                out.len() == i,
                carry <= 1,
                value_upto(out@, i as nat) + carry * radix_pow(i as nat) == value_upto(
                    self.limbs@,
                    i as nat,
                ) + value_upto(other.limbs@, i as nat),
            decreases n - i,
        {
            let a: u64 = if i < self.limbs.len() {
                self.limbs[i] as u64
            } else {
                0
            };
            let b: u64 = if i < other.limbs.len() {
                other.limbs[i] as u64
            } else {
                0
            };
            let sum: u64 = a + b + carry;
            let low: u32 = (sum % 0x1_0000_0000) as u32;
            let ghost before = out@;
            let ghost old_carry = carry;
            out.push(low);
            carry = sum / 0x1_0000_0000;
            proof {
                let p = radix_pow(i as nat);
                lemma_value_agrees(before, out@, i as nat);
                assert(digit(out@, i as nat) == low);
                assert(a == digit(self.limbs@, i as nat));
                assert(b == digit(other.limbs@, i as nat));
                assert(radix_pow((i + 1) as nat) == radix() * p);
                assert(low * p + carry * (radix() * p) == a * p + b * p + old_carry * p)
                    by (nonlinear_arith)
                    requires
                        low + carry * radix() == a + b + old_carry,
                ;
            }
            i += 1;
        }
        let ghost before = out@;
        out.push(carry as u32);
        proof {
            lemma_value_agrees(before, out@, n as nat);
            lemma_value_past_end(self.limbs@, n as nat);
            lemma_value_past_end(other.limbs@, n as nat);
            assert(digit(out@, n as nat) == carry);
        }
        BigNat::from_limbs(out)
    }

    /// The difference `self - other`, where `other` is not the larger.
    pub fn checked_sub(&self, other: &BigNat) -> (r: Option<BigNat>)
        ensures
            match r {
                Some(d) => self@ >= other@ && d@ == self@ - other@,
                None => self@ < other@,
            },
    {
        let n: usize = if self.limbs.len() >= other.limbs.len() {
            self.limbs.len()
        } else {
            other.limbs.len()
        };
        let mut out: Vec<u32> = Vec::new();
        let mut borrow: u64 = 0;
        let mut i: usize = 0;
        while i < n
            invariant
                i <= n,
                out.len() == i,
                borrow <= 1,
                value_upto(out@, i as nat) + value_upto(other.limbs@, i as nat) == value_upto(
                    self.limbs@,
                    i as nat,
                ) + borrow * radix_pow(i as nat),
            decreases n - i,
        {
            let a: u64 = if i < self.limbs.len() {
                self.limbs[i] as u64
            } else {
                0
            };
            let b: u64 = if i < other.limbs.len() {
                other.limbs[i] as u64
            } else {
                0
            };
            let raised: u64 = a + 0x1_0000_0000 - b - borrow;
            let low: u32 = (raised % 0x1_0000_0000) as u32;
            let ghost before = out@;
            let ghost old_borrow = borrow;
            out.push(low);
            borrow = 1 - raised / 0x1_0000_0000;
            proof {
                let p = radix_pow(i as nat);
                lemma_value_agrees(before, out@, i as nat);
                assert(digit(out@, i as nat) == low);
                assert(a == digit(self.limbs@, i as nat));
                assert(b == digit(other.limbs@, i as nat));
                assert(radix_pow((i + 1) as nat) == radix() * p);
                assert(old_borrow * p + low * p + b * p == a * p + borrow * (radix() * p))
                    by (nonlinear_arith)
                    requires
                        old_borrow + low + b == a + borrow * radix(),
                ;
            }
            i += 1;
        }
        proof {
            lemma_value_past_end(self.limbs@, n as nat);
            lemma_value_past_end(other.limbs@, n as nat);
            lemma_value_past_end(out@, n as nat);
            lemma_value_bound(out@, n as nat);
            assert(1 * radix_pow(n as nat) == radix_pow(n as nat)) by (nonlinear_arith);
            assert(0 * radix_pow(n as nat) == 0) by (nonlinear_arith);
        }
        if borrow == 0 {
            Some(BigNat::from_limbs(out))
        } else {
            None
        }
    }

    /// The product `self * m * radix_pow(shift)`.
    pub fn scaled(&self, m: u32, shift: usize) -> (r: BigNat)
        ensures
            r@ == self@ * m * radix_pow(shift as nat),
    {
        let mut out: Vec<u32> = Vec::new();
        let mut j: usize = 0;
        while j < shift
            invariant
                j <= shift,
                out.len() == j,
                forall|t: int| 0 <= t < j ==> out[t] == 0,
            decreases shift - j,
        {
            out.push(0);
            j += 1;
        }
        let ghost s = radix_pow(shift as nat);
        proof {
            lemma_value_agrees(out@, Seq::<u32>::empty(), shift as nat);
            lemma_value_past_end(Seq::<u32>::empty(), shift as nat);
            assert(value_upto(out@, shift as nat) == 0);
            assert(value_upto(self.limbs@, 0) * m * s == 0) by (nonlinear_arith)
                requires
                    value_upto(self.limbs@, 0) == 0,
            ;
            assert(0 * radix_pow(shift as nat) == 0) by (nonlinear_arith);
        }
        let mut carry: u64 = 0;
        let mut i: usize = 0;
        while i < self.limbs.len()
            invariant
                i <= self.limbs.len(),
                out.len() == shift + i,
                carry < 0x1_0000_0000,
                s == radix_pow(shift as nat),
                value_upto(out@, (shift + i) as nat) + carry * radix_pow((shift + i) as nat)
                    == value_upto(self.limbs@, i as nat) * m * s,
            decreases self.limbs.len() - i,
        {
            let a: u64 = self.limbs[i] as u64;
            assert(a * m + carry <= 0xffff_ffff * 0xffff_ffff + 0xffff_ffff) by (nonlinear_arith)
                requires
                    a <= 0xffff_ffff,
                    m <= 0xffff_ffff,
                    carry <= 0xffff_ffff,
            ;
            let prod: u64 = a * (m as u64) + carry;
            let low: u32 = (prod % 0x1_0000_0000) as u32;
            let ghost before = out@;
            let ghost old_carry = carry;
            out.push(low);
            carry = prod / 0x1_0000_0000;
            proof {
                let p = radix_pow(i as nat);
                let q = radix_pow((shift + i) as nat);
                let u = value_upto(self.limbs@, i as nat);
                lemma_radix_pow_adds(shift as nat, i as nat);
                lemma_value_agrees(before, out@, (shift + i) as nat);
                assert(digit(out@, (shift + i) as nat) == low);
                assert(a == digit(self.limbs@, i as nat));
                assert(radix_pow((shift + i + 1) as nat) == radix() * q);
                let t = a * m + old_carry;
                assert(t * q == low * q + carry * (radix() * q)) by (nonlinear_arith)
                    requires
                        t == low + carry * radix(),
                ;
                assert(t * q == a * m * q + old_carry * q) by (nonlinear_arith)
                    requires
                        t == a * m + old_carry,
                ;
                assert(a * m * q == a * p * m * s) by (nonlinear_arith)
                    requires
                        q == s * p,
                ;
                assert((u + a * p) * m * s == u * m * s + a * p * m * s) by (nonlinear_arith);
            }
            i += 1;
        }
        let ghost before = out@;
        let ghost top = (shift + self.limbs.len()) as nat;
        out.push(carry as u32);
        proof {
            lemma_value_agrees(before, out@, top);
            assert(digit(out@, top) == carry);
        }
        BigNat::from_limbs(out)
    }

    /// The product of two numbers.
    pub fn mul(&self, other: &BigNat) -> (r: BigNat)
        ensures
            r@ == self@ * other@,
    {
        let mut acc: BigNat = BigNat::zero();
        let mut i: usize = 0;
        proof {
            assert(0 * other@ == 0) by (nonlinear_arith);
        }
        while i < self.limbs.len()
            invariant
                i <= self.limbs.len(),
                acc@ == value_upto(self.limbs@, i as nat) * other@,
            decreases self.limbs.len() - i,
        {
            let part: BigNat = other.scaled(self.limbs[i], i);
            let ghost u = value_upto(self.limbs@, i as nat);
            let ghost a = digit(self.limbs@, i as nat);
            let ghost p = radix_pow(i as nat);
            let ghost b = other@;
            proof {
                assert(u * b + b * a * p == (u + a * p) * b) by (nonlinear_arith);
            }
            acc = acc.add(&part);
            i += 1;
        }
        acc
    }

    /// How `self` stands to `other`.
    pub fn compare(&self, other: &BigNat) -> (r: Comparison)
        ensures
            match r {
                Comparison::Less => self@ < other@,
                Comparison::Equal => self@ == other@,
                Comparison::Greater => self@ > other@,
            },
    {
        let n: usize = if self.limbs.len() >= other.limbs.len() {
            self.limbs.len()
        } else {
            other.limbs.len()
        };
        proof {
            lemma_value_past_end(self.limbs@, n as nat);
            lemma_value_past_end(other.limbs@, n as nat);
        }
        let mut i: usize = n;
        while i > 0
            invariant
                i <= n,
                value_upto(self.limbs@, n as nat) == self@,
                value_upto(other.limbs@, n as nat) == other@,
                forall|j: nat| i <= j < n ==> digit(self.limbs@, j) == digit(other.limbs@, j),
            decreases i,
        {
            i -= 1;
            let a: u32 = if i < self.limbs.len() {
                self.limbs[i]
            } else {
                0
            };
            let b: u32 = if i < other.limbs.len() {
                other.limbs[i]
            } else {
                0
            };
            if a != b {
                proof {
                    let p = radix_pow(i as nat);
                    lemma_high_digits_agree(self.limbs@, other.limbs@, (i + 1) as nat, n as nat);
                    lemma_value_bound(self.limbs@, i as nat);
                    lemma_value_bound(other.limbs@, i as nat);
                    assert(a == digit(self.limbs@, i as nat));
                    assert(b == digit(other.limbs@, i as nat));
                    assert(value_upto(self.limbs@, (i + 1) as nat) == value_upto(
                        self.limbs@,
                        i as nat,
                    ) + a * p);
                    assert(value_upto(other.limbs@, (i + 1) as nat) == value_upto(
                        other.limbs@,
                        i as nat,
                    ) + b * p);
                    if a < b {
                        assert(a * p + p <= b * p) by (nonlinear_arith)
                            requires
                                a + 1 <= b,
                        ;
                    } else {
                        assert(b * p + p <= a * p) by (nonlinear_arith)
                            requires
                                b + 1 <= a,
                        ;
                    }
                }
                return if a < b {
                    Comparison::Less
                } else {
                    Comparison::Greater
                };
            }
        }
        proof {
            lemma_value_agrees(self.limbs@, other.limbs@, n as nat);
        }
        Comparison::Equal
    }
}

} // verus!
