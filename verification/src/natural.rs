//! Natural numbers of any size, as far as the split of a frame needs them:
//! products and sums of profile times do not fit a machine word.
use vstd::prelude::*;

verus! {

/// The base of the digits: `2^64`.
pub open spec fn base() -> nat {
    0x1_0000_0000_0000_0000
}

/// The weight of digit `k`: the base to the power `k`.
pub open spec fn weight(k: nat) -> nat
    decreases k,
{
    if k == 0 {
        1
    } else {
        base() * weight((k - 1) as nat)
    }
}

/// The number that the digits stand for, lowest digit first.
pub open spec fn value(digits: Seq<u64>) -> nat
    decreases digits.len(),
{
    if digits.len() == 0 {
        0
    } else {
        value(digits.drop_last()) + (digits.last() as nat) * weight((digits.len() - 1) as nat)
    }
}

/// Weights are positive.
pub proof fn lemma_weight_positive(k: nat)
    ensures
        weight(k) >= 1,
    decreases k,
{
    if k > 0 {
        lemma_weight_positive((k - 1) as nat);
        assert(base() * weight((k - 1) as nat) >= 1) by (nonlinear_arith)
            requires
                weight((k - 1) as nat) >= 1,
                base() >= 1,
        ;
    }
}

/// The weight of a sum of places is the product of the weights.
pub proof fn lemma_weight_sum(a: nat, b: nat)
    ensures
        weight(a + b) == weight(a) * weight(b),
    decreases a,
{
    if a == 0 {
        assert(weight(0 + b) == 1 * weight(b));
    } else {
        lemma_weight_sum((a - 1) as nat, b);
        assert(a + b - 1 == (a - 1) + b);
        assert(weight(a + b) == base() * weight(((a - 1) + b) as nat));
        assert(base() * (weight((a - 1) as nat) * weight(b)) == (base() * weight((a - 1) as nat))
            * weight(b)) by (nonlinear_arith);
    }
}

/// A number of `n` digits is below the weight of digit `n`.
pub proof fn lemma_value_bound(digits: Seq<u64>)
    ensures
        value(digits) < weight(digits.len()),
    decreases digits.len(),
{
    if digits.len() > 0 {
        let n = (digits.len() - 1) as nat;
        lemma_value_bound(digits.drop_last());
        assert(value(digits.drop_last()) + digits.last() * weight(n) < base() * weight(n))
            by (nonlinear_arith)
            requires
                value(digits.drop_last()) < weight(n),
                digits.last() < base(),
        ;
    }
}

/// One more digit on top adds the digit times its weight.
pub proof fn lemma_value_push(digits: Seq<u64>, top: u64)
    ensures
        value(digits.push(top)) == value(digits) + top * weight(digits.len()),
{
    assert(digits.push(top).drop_last() =~= digits);
}

/// A number is its lowest digit plus the base times the number that the other
/// digits stand for.
pub proof fn lemma_value_low(digits: Seq<u64>)
    requires
        digits.len() > 0,
    ensures
        value(digits) == digits[0] + base() * value(digits.skip(1)),
    decreases digits.len(),
{
    let front = digits.drop_last();
    let last = digits.last() as nat;
    if digits.len() == 1 {
        assert(front =~= Seq::<u64>::empty());
        assert(digits.skip(1) =~= Seq::<u64>::empty());
        assert(value(front) == 0);
        assert(value(digits.skip(1)) == 0);
        assert(value(digits) == value(front) + last * weight(0));
        assert(last * weight(0) == last) by (nonlinear_arith)
            requires
                weight(0) == 1,
        ;
        assert(base() * value(digits.skip(1)) == 0) by (nonlinear_arith)
            requires
                value(digits.skip(1)) == 0,
        ;
    } else {
        let n = (digits.len() - 1) as nat;
        let rest = digits.skip(1);
        lemma_value_low(front);
        assert(front.skip(1) =~= rest.drop_last());
        assert(rest.last() == digits.last());
        assert(front[0] == digits[0]);
        assert(rest.len() == n);
        assert(weight(n) == base() * weight((n - 1) as nat));
        assert(value(digits) == value(front) + last * weight(n));
        assert(value(rest) == value(rest.drop_last()) + last * weight((n - 1) as nat));
        assert(base() * (value(rest.drop_last()) + last * weight((n - 1) as nat)) == base()
            * value(rest.drop_last()) + last * (base() * weight((n - 1) as nat)))
            by (nonlinear_arith);
    }
}

/// A natural number.
pub struct Natural {
    digits: Vec<u64>,
}

impl View for Natural {
    type V = nat;

    closed spec fn view(&self) -> nat {
        value(self.digits@)
    }
}

impl Natural {
    /// The number `x`.
    pub fn from_u64(x: u64) -> (n: Self)
        ensures
            n@ == x,
    {
        let mut digits: Vec<u64> = Vec::new();
        digits.push(x);
        proof {
            lemma_value_push(Seq::<u64>::empty(), x);
            assert(digits@ =~= Seq::<u64>::empty().push(x));
            assert(value(Seq::<u64>::empty()) == 0);
            assert(x * weight(0) == x) by (nonlinear_arith)
                requires
                    weight(0) == 1,
            ;
        }
        Natural { digits }
    }

    /// The product of this number and `m`.
    pub fn times_small(&self, m: u64) -> (product: Self)
        ensures
            product@ == self@ * m,
    {
        let n: usize = self.digits.len();
        let mut digits: Vec<u64> = Vec::new();
        let mut carry: u64 = 0;
        let mut k: usize = 0;
        proof {
            assert(self.digits@.take(0) =~= Seq::<u64>::empty());
            assert(value(self.digits@.take(0)) == 0);
            assert(value(self.digits@.take(0)) * m == 0) by (nonlinear_arith)
                requires
                    value(self.digits@.take(0)) == 0,
            ;
            assert(carry * weight(0) == 0);
        }
        while k < n
            invariant
                n == self.digits@.len(),
                0 <= k <= n,
                digits@.len() == k,
                value(digits@) + carry * weight(k as nat) == value(self.digits@.take(k as int))
                    * m,
            decreases n - k,
        {
            let digit: u64 = self.digits[k];
            assert(digit * m + carry <= u128::MAX) by (nonlinear_arith)
                requires
                    digit <= u64::MAX,
                    m <= u64::MAX,
                    carry <= u64::MAX,
            ;
            let wide: u128 = (digit as u128) * (m as u128) + (carry as u128);
            let low: u64 = (wide % 0x1_0000_0000_0000_0000) as u64;
            let high: u64 = (wide / 0x1_0000_0000_0000_0000) as u64;
            proof {
                let w = weight(k as nat);
                let before = value(digits@);
                let taken = value(self.digits@.take(k as int));
                lemma_value_push(digits@, low);
                assert(self.digits@.take(k + 1) =~= self.digits@.take(k as int).push(digit));
                lemma_value_push(self.digits@.take(k as int), digit);
                assert(wide == low + high * base());
                assert(weight((k + 1) as nat) == base() * w);
                assert(before + low * w + high * (base() * w) == (taken + digit * w) * m)
                    by (nonlinear_arith)
                    requires
                        before + carry * w == taken * m,
                        digit * m + carry == low + high * base(),
                ;
            }
            digits.push(low);
            carry = high;
            k += 1;
        }
        proof {
            assert(self.digits@.take(n as int) =~= self.digits@);
            lemma_value_push(digits@, carry);
        }
        digits.push(carry);
        Natural { digits }
    }

    /// This number divided by `d`, rounded down.
    pub fn divided_by_small(&self, d: u64) -> (quotient: Self)
        requires
            d >= 1,
        ensures
            quotient@ == self@ / (d as nat),
    {
        let n: usize = self.digits.len();
        let mut digits: Vec<u64> = vec![0u64; n];
        let mut rest: u64 = 0;
        let mut k: usize = n;
        proof {
            assert(self.digits@.skip(n as int) =~= Seq::<u64>::empty());
            assert(digits@.skip(n as int) =~= Seq::<u64>::empty());
            assert(value(Seq::<u64>::empty()) == 0);
            assert(0 * d + 0 == 0);
        }
        while k > 0
            invariant
                n == self.digits@.len(),
                digits@.len() == n,
                0 <= k <= n,
                d >= 1,
                rest < d,
                value(self.digits@.skip(k as int)) == value(digits@.skip(k as int)) * d + rest,
            decreases k,
        {
            k -= 1;
            let digit: u64 = self.digits[k];
            assert(rest * 0x1_0000_0000_0000_0000 + digit < d * 0x1_0000_0000_0000_0000
                <= u128::MAX) by (nonlinear_arith)
                requires
                    rest + 1 <= d,
                    d <= u64::MAX,
                    digit <= u64::MAX,
            ;
            let wide: u128 = (rest as u128) * 0x1_0000_0000_0000_0000 + (digit as u128);
            let q: u128 = wide / (d as u128);
            let r: u128 = wide % (d as u128);
            assert(q < 0x1_0000_0000_0000_0000 && wide == q * d + r) by (nonlinear_arith)
                requires
                    q == wide / (d as u128),
                    r == wide % (d as u128),
                    wide < d * 0x1_0000_0000_0000_0000,
                    d >= 1,
            ;
            let ghost earlier = digits@;
            digits.set(k, q as u64);
            proof {
                let above_self = value(self.digits@.skip(k + 1));
                let above = value(earlier.skip(k + 1));
                lemma_value_low(self.digits@.skip(k as int));
                lemma_value_low(digits@.skip(k as int));
                assert(self.digits@.skip(k as int).skip(1) =~= self.digits@.skip(k + 1));
                assert(digits@.skip(k as int).skip(1) =~= earlier.skip(k + 1));
                assert(digits@.skip(k as int)[0] == q);
                assert(self.digits@.skip(k as int)[0] == digit);
                assert(digit + base() * above_self == (q + base() * above) * d + r)
                    by (nonlinear_arith)
                    requires
                        above_self == above * d + rest,
                        rest * base() + digit == q * d + r,
                ;
            }
            rest = r as u64;
        }
        proof {
            assert(self.digits@.skip(0) =~= self.digits@);
            assert(digits@.skip(0) =~= digits@);
            let whole = value(self.digits@);
            let quotient = value(digits@);
            assert(whole / (d as nat) == quotient) by (nonlinear_arith)
                requires
                    whole == quotient * d + rest,
                    0 <= rest < d,
            ;
        }
        Natural { digits }
    }

    /// Digit `i`, or zero above the top digit.
    fn digit(&self, i: usize) -> (d: u64)
        ensures
            d == digit_at(self.digits@, i as int),
    {
        if i < self.digits.len() {
            self.digits[i]
        } else {
            0
        }
    }

    /// The sum of this number and `other`.
    pub fn plus(&self, other: &Natural) -> (sum: Self)
        ensures
            sum@ == self@ + other@,
    {
        let n: usize = if self.digits.len() >= other.digits.len() {
            self.digits.len()
        } else {
            other.digits.len()
        };
        let mut digits: Vec<u64> = Vec::new();
        let mut carry: u64 = 0;
        let mut k: usize = 0;
        proof {
            lemma_low_part_zero(self.digits@);
            lemma_low_part_zero(other.digits@);
            assert(carry * weight(0) == 0);
        }
        while k < n
            invariant
                self.digits@.len() <= n,
                other.digits@.len() <= n,
                0 <= k <= n,
                digits@.len() == k,
                carry <= 1,
                value(digits@) + carry * weight(k as nat) == low_part(self.digits@, k as int)
                    + low_part(other.digits@, k as int),
            decreases n - k,
        {
            let a: u64 = self.digit(k);
            let b: u64 = other.digit(k);
            let wide: u128 = (a as u128) + (b as u128) + (carry as u128);
            let low: u64 = (wide % 0x1_0000_0000_0000_0000) as u64;
            let high: u64 = (wide / 0x1_0000_0000_0000_0000) as u64;
            proof {
                let w = weight(k as nat);
                lemma_value_push(digits@, low);
                lemma_low_part_step(self.digits@, k as int);
                lemma_low_part_step(other.digits@, k as int);
                assert(wide == low + high * base());
                assert(weight((k + 1) as nat) == base() * w);
                assert(value(digits@) + low * w + high * (base() * w) == low_part(
                    self.digits@,
                    k as int,
                ) + a * w + low_part(other.digits@, k as int) + b * w) by (nonlinear_arith)
                    requires
                        value(digits@) + carry * w == low_part(self.digits@, k as int) + low_part(
                            other.digits@,
                            k as int,
                        ),
                        a + b + carry == low + high * base(),
                ;
            }
            digits.push(low);
            carry = high;
            k += 1;
        }
        proof {
            lemma_low_part_all(self.digits@, n as int);
            lemma_low_part_all(other.digits@, n as int);
            lemma_value_push(digits@, carry);
        }
        digits.push(carry);
        Natural { digits }
    }

    /// Whether this number is at most `other`.
    pub fn at_most(&self, other: &Natural) -> (le: bool)
        ensures
            le == (self@ <= other@),
    {
        let n: usize = if self.digits.len() >= other.digits.len() {
            self.digits.len()
        } else {
            other.digits.len()
        };
        let mut k: usize = n;
        proof {
            lemma_low_part_all(self.digits@, n as int);
            lemma_low_part_all(other.digits@, n as int);
        }
        while k > 0
            invariant
                0 <= k <= n,
                self.digits@.len() <= n,
                other.digits@.len() <= n,
                (self@ <= other@) == (low_part(self.digits@, k as int) <= low_part(
                    other.digits@,
                    k as int,
                )),
            decreases k,
        {
            k -= 1;
            let a: u64 = self.digit(k);
            let b: u64 = other.digit(k);
            proof {
                let w = weight(k as nat);
                lemma_low_part_step(self.digits@, k as int);
                lemma_low_part_step(other.digits@, k as int);
                lemma_low_part_bound(self.digits@, k as int);
                lemma_low_part_bound(other.digits@, k as int);
                if a < b {
                    assert(low_part(self.digits@, k as int) + a * w <= low_part(
                        other.digits@,
                        k as int,
                    ) + b * w) by (nonlinear_arith)
                        requires
                            low_part(self.digits@, k as int) < w,
                            a + 1 <= b,
                            w >= 0,
                    ;
                } else if b < a {
                    assert(low_part(self.digits@, k as int) + a * w > low_part(
                        other.digits@,
                        k as int,
                    ) + b * w) by (nonlinear_arith)
                        requires
                            low_part(other.digits@, k as int) < w,
                            b + 1 <= a,
                            w >= 0,
                    ;
                }
            }
            if a < b {
                return true;
            }
            if a > b {
                return false;
            }
        }
        proof {
            lemma_low_part_zero(self.digits@);
            lemma_low_part_zero(other.digits@);
        }
        true
    }
}

/// Digit `i` of a number, zero above its top digit.
pub open spec fn digit_at(digits: Seq<u64>, i: int) -> u64 {
    if 0 <= i < digits.len() {
        digits[i]
    } else {
        0
    }
}

/// The number that the lowest `k` digits stand for.
pub open spec fn low_part(digits: Seq<u64>, k: int) -> nat {
    if k <= 0 {
        0
    } else if k >= digits.len() {
        value(digits)
    } else {
        value(digits.take(k))
    }
}

/// No digits stand for zero.
pub proof fn lemma_low_part_zero(digits: Seq<u64>)
    ensures
        low_part(digits, 0) == 0,
{
}

/// All digits stand for the number.
pub proof fn lemma_low_part_all(digits: Seq<u64>, k: int)
    requires
        k >= digits.len(),
    ensures
        low_part(digits, k) == value(digits),
{
    if k <= 0 {
        assert(digits.len() == 0);
    }
}

/// One more digit adds the digit times its weight.
pub proof fn lemma_low_part_step(digits: Seq<u64>, k: int)
    requires
        0 <= k,
    ensures
        low_part(digits, k + 1) == low_part(digits, k) + digit_at(digits, k) * weight(k as nat),
{
    if k < digits.len() {
        assert(digits.take(k + 1) =~= digits.take(k).push(digits[k]));
        lemma_value_push(digits.take(k), digits[k]);
        if k + 1 == digits.len() {
            assert(digits.take(k + 1) =~= digits);
        }
        if k == 0 {
            assert(digits.take(0) =~= Seq::<u64>::empty());
            assert(value(digits.take(0)) == 0);
        }
    } else {
        assert(0 * weight(k as nat) == 0);
    }
}

/// The lowest `k` digits stand for less than the weight of digit `k`.
pub proof fn lemma_low_part_bound(digits: Seq<u64>, k: int)
    requires
        0 <= k,
    ensures
        low_part(digits, k) < weight(k as nat),
    decreases k,
{
    if k == 0 {
    } else if k >= digits.len() {
        lemma_value_bound(digits);
        lemma_weight_sum(digits.len(), (k - digits.len()) as nat);
        lemma_weight_positive((k - digits.len()) as nat);
        assert(weight(digits.len()) <= weight(digits.len()) * weight((k - digits.len()) as nat))
            by (nonlinear_arith)
            requires
                weight((k - digits.len()) as nat) >= 1,
                weight(digits.len()) >= 0,
        ;
    } else {
        lemma_value_bound(digits.take(k));
    }
}

} // verus!
