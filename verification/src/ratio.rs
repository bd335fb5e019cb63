//! Exact fractions of two unsigned integers, and their order.
//!
//! Scores and thresholds are fractions; two of them are compared by cross
//! multiplication in 256 bits, so that no rounding ever takes part in a
//! verdict.

use vstd::arithmetic::div_mod::lemma_fundamental_div_mod_converse;
use vstd::prelude::*;

verus! {

/// The number that a high and a low half of 128 bits each stand for.
pub open spec fn wide(hi: u128, lo: u128) -> int {
    hi * 0x1_0000_0000_0000_0000_0000_0000_0000_0000 + lo
}

proof fn lemma_limb_product(a1: int, a0: int, b1: int, b0: int)
    by (nonlinear_arith)
    ensures
        (a1 * 0x1_0000_0000_0000_0000 + a0) * (b1 * 0x1_0000_0000_0000_0000 + b0) == (a1 * b1)
            * 0x1_0000_0000_0000_0000_0000_0000_0000_0000 + (a0 * b1 + a1 * b0)
            * 0x1_0000_0000_0000_0000 + a0 * b0,
{
}

proof fn lemma_limb_bound(x: int, y: int)
    by (nonlinear_arith)
    requires
        0 <= x <= 0xffff_ffff_ffff_ffff,
        0 <= y <= 0xffff_ffff_ffff_ffff,
    ensures
        0 <= x * y <= 0xffff_ffff_ffff_fffe_0000_0000_0000_0001,
{
}

/// The full product of two 128-bit numbers, as a high and a low half.
pub fn mul_wide(a: u128, b: u128) -> (r: (u128, u128))
    ensures
        wide(r.0, r.1) == a * b,
{
    let a1: u128 = a / 0x1_0000_0000_0000_0000;
    let a0: u128 = a % 0x1_0000_0000_0000_0000;
    let b1: u128 = b / 0x1_0000_0000_0000_0000;
    let b0: u128 = b % 0x1_0000_0000_0000_0000;
    proof {
        lemma_limb_bound(a0 as int, b0 as int);
        lemma_limb_bound(a0 as int, b1 as int);
        lemma_limb_bound(a1 as int, b0 as int);
        lemma_limb_bound(a1 as int, b1 as int);
        lemma_limb_product(a1 as int, a0 as int, b1 as int, b0 as int);
    }
    let p00: u128 = a0 * b0;
    let p01: u128 = a0 * b1;
    let p10: u128 = a1 * b0;
    let p11: u128 = a1 * b1;
    let carry: u128 = p00 / 0x1_0000_0000_0000_0000 + p01 % 0x1_0000_0000_0000_0000 + p10
        % 0x1_0000_0000_0000_0000;
    let lo: u128 = p00 % 0x1_0000_0000_0000_0000 + (carry % 0x1_0000_0000_0000_0000)
        * 0x1_0000_0000_0000_0000;
    let hi: u128 = p11 + p01 / 0x1_0000_0000_0000_0000 + p10 / 0x1_0000_0000_0000_0000 + carry
        / 0x1_0000_0000_0000_0000;
    (hi, lo)
}

proof fn lemma_long_division(
    hi: int,
    l1: int,
    l0: int,
    d: int,
    q1: int,
    r1: int,
    q0: int,
    r0: int,
)
    by (nonlinear_arith)
    requires
        hi * 0x1_0000_0000_0000_0000 + l1 == d * q1 + r1,
        r1 * 0x1_0000_0000_0000_0000 + l0 == d * q0 + r0,
    ensures
        hi * 0x1_0000_0000_0000_0000_0000_0000_0000_0000 + (l1 * 0x1_0000_0000_0000_0000 + l0)
            == (q1 * 0x1_0000_0000_0000_0000 + q0) * d + r0,
{
}

proof fn lemma_limb_quotient(n: int, d: int)
    by (nonlinear_arith)
    requires
        0 < d,
        0 <= n < d * 0x1_0000_0000_0000_0000,
    ensures
        0 <= n / d < 0x1_0000_0000_0000_0000,
        0 <= n % d < d,
        n == d * (n / d) + n % d,
{
}

/// The quotient of a number of two halves by a divisor that is larger than
/// its high half, which makes the quotient fit.
pub fn div_wide(hi: u128, lo: u128, d: u64) -> (q: u128)
    requires
        hi < d,
    ensures
        q == wide(hi, lo) / (d as int),
{
    let l1: u128 = lo / 0x1_0000_0000_0000_0000;
    let l0: u128 = lo % 0x1_0000_0000_0000_0000;
    let n1: u128 = hi * 0x1_0000_0000_0000_0000 + l1;
    proof {
        lemma_limb_quotient(n1 as int, d as int);
    }
    let q1: u128 = n1 / (d as u128);
    let r1: u128 = n1 % (d as u128);
    let n0: u128 = r1 * 0x1_0000_0000_0000_0000 + l0;
    proof {
        lemma_limb_quotient(n0 as int, d as int);
    }
    let q0: u128 = n0 / (d as u128);
    let r0: u128 = n0 % (d as u128);
    let q: u128 = q1 * 0x1_0000_0000_0000_0000 + q0;
    proof {
        lemma_long_division(
            hi as int,
            l1 as int,
            l0 as int,
            d as int,
            q1 as int,
            r1 as int,
            q0 as int,
            r0 as int,
        );
        lemma_fundamental_div_mod_converse(wide(hi, lo), d as int, q as int, r0 as int);
    }
    q
}

/// `a * b / d`, rounded down, for a divisor that is at least `b`, which
/// keeps the result at or below `a`.
pub fn mul_div(a: u128, b: u64, d: u64) -> (q: u128)
    requires
        b <= d,
        d > 0,
    ensures
        q == a * b / (d as int),
        q <= a,
{
    let (hi, lo) = mul_wide(a, b as u128);
    assert(hi < d && a * b / (d as int) <= a) by (nonlinear_arith)
        requires
            hi * 0x1_0000_0000_0000_0000_0000_0000_0000_0000 + lo == a * b,
            0 <= lo,
            0 <= hi,
            0 <= b <= d,
            0 < d,
            0 <= a < 0x1_0000_0000_0000_0000_0000_0000_0000_0000,
    ;
    div_wide(hi, lo, d)
}

/// A fraction with a positive denominator.
pub struct Ratio {
    num: u128,
    den: u128,
}

/// The fraction `num / den` as a value to speak of.
pub closed spec fn fraction(num: u128, den: u128) -> Ratio {
    Ratio { num, den }
}

/// A fraction has the numerator and the denominator it was made of.
pub proof fn lemma_fraction(num: u128, den: u128)
    ensures
        fraction(num, den).numerator() == num,
        fraction(num, den).denominator() == den,
{
}

impl Ratio {
    #[verifier::type_invariant]
    closed spec fn inv(self) -> bool {
        self.den > 0
    }

    /// The numerator.
    pub closed spec fn numerator(self) -> nat {
        self.num as nat
    }

    /// The denominator.
    pub closed spec fn denominator(self) -> nat {
        self.den as nat
    }

    /// The fraction is greater than `other`.
    pub open spec fn exceeds(self, other: Ratio) -> bool {
        self.numerator() * other.denominator() > other.numerator() * self.denominator()
    }

    /// The fraction is `other` or less.
    pub open spec fn at_most(self, other: Ratio) -> bool {
        self.numerator() * other.denominator() <= other.numerator() * self.denominator()
    }

    /// The fraction `num / den`, unless `den` is zero.
    pub fn new(num: u128, den: u128) -> (r: Option<Ratio>)
        ensures
            r is Some <==> den > 0,
            r matches Some(x) ==> x == fraction(num, den) && x.numerator() == num
                && x.denominator() == den,
    {
        if den == 0 {
            None
        } else {
            Some(Ratio { num, den })
        }
    }

    /// The fraction `num / den`.
    pub fn of(num: u128, den: u128) -> (r: Ratio)
        requires
            den > 0,
        ensures
            r == fraction(num, den),
            r.numerator() == num,
            r.denominator() == den,
    {
        Ratio { num, den }
    }

    /// The numerator.
    pub fn num(&self) -> (n: u128)
        ensures
            n == self.numerator(),
    {
        self.num
    }

    /// The denominator, which is never zero.
    pub fn den(&self) -> (d: u128)
        ensures
            d == self.denominator(),
            d > 0,
    {
        proof {
            use_type_invariant(self);
        }
        self.den
    }

    /// Decides `self > other` exactly.
    pub fn is_greater_than(&self, other: &Ratio) -> (b: bool)
        ensures
            b == self.exceeds(*other),
    {
        let left = mul_wide(self.num, other.den);
        let right = mul_wide(other.num, self.den);
        left.0 > right.0 || (left.0 == right.0 && left.1 > right.1)
    }
}

/// The order of fractions is transitive where it matters for thresholds:
/// if `ln / ld <= hn / hd` and `sn / sd > hn / hd`, then `sn / sd > ln / ld`.
pub proof fn lemma_cross_order(sn: nat, sd: nat, ln: nat, ld: nat, hn: nat, hd: nat)
    requires
        sd > 0,
        ld > 0,
        hd > 0,
        ln * hd <= hn * ld,
        sn * hd > hn * sd,
    ensures
        sn * ld > ln * sd,
{
    assert(sn * ld > ln * sd) by (nonlinear_arith)
        requires
            sd > 0,
            ld > 0,
            hd > 0,
            sn >= 0,
            ln >= 0,
            hn >= 0,
            ln * hd <= hn * ld,
            sn * hd > hn * sd,
    {
        assert((sn * hd) * ld >= (hn * sd + 1) * ld);
        assert((hn * ld) * sd >= (ln * hd) * sd);
        assert((sn * ld) * hd == (sn * hd) * ld);
        assert((hn * sd) * ld == (hn * ld) * sd);
        assert((ln * hd) * sd == (ln * sd) * hd);
        assert((sn * ld) * hd > (ln * sd) * hd);
    }
}

/// What exceeds the higher of two fractions exceeds the lower one as well.
pub proof fn lemma_exceeds_lower(score: Ratio, low: Ratio, high: Ratio)
    requires
        score.denominator() > 0,
        low.denominator() > 0,
        high.denominator() > 0,
        low.at_most(high),
        score.exceeds(high),
    ensures
        score.exceeds(low),
{
    lemma_cross_order(
        score.numerator(),
        score.denominator(),
        low.numerator(),
        low.denominator(),
        high.numerator(),
        high.denominator(),
    );
}

} // verus!
