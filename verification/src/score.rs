use vstd::prelude::*;

use vstd::arithmetic::div_mod::lemma_fundamental_div_mod;
use vstd::arithmetic::div_mod::lemma_div_multiples_vanish;

verus! {

// A relevance score is an exact rational number: each matched keyword adds
// occurrences-on-this-page over total-occurrences, and the original ratios
// must survive addition undistorted.

/// Whether the rational `a` equals the rational `b`, by cross-multiplying.
pub open spec fn rat_eq(a: (int, int), b: (int, int)) -> bool {
    a.0 * b.1 == b.0 * a.1
}

/// Whether the rational `a` is at most the rational `b`; meaningful when
/// both denominators are positive.
pub open spec fn rat_le(a: (int, int), b: (int, int)) -> bool {
    a.0 * b.1 <= b.0 * a.1
}

/// The sum of two rationals.
pub open spec fn rat_add(a: (int, int), b: (int, int)) -> (int, int) {
    (a.0 * b.1 + b.0 * a.1, a.1 * b.1)
}

/// The exact sum of two rationals in lowest terms, as the machine holds
/// it: `None` when the cross products exceed the double word or when, even
/// reduced by the greatest common divisor, numerator or denominator exceeds
/// the word.
pub open spec fn red_sum(a: (int, int), b: (int, int)) -> Option<(int, int)> {
    let n = a.0 * b.1 + b.0 * a.1;
    let d = a.1 * b.1;
    let g = gcd_spec(n as nat, d as nat) as int;
    if n > u128::MAX as int {
        None
    } else if n / g > u64::MAX as int || d / g > u64::MAX as int {
        None
    } else {
        Some((n / g, d / g))
    }
}

/// The greatest common divisor, by Euclid's recursion.
pub open spec fn gcd_spec(a: nat, b: nat) -> nat
    decreases b,
{
    if b == 0 {
        a
    } else {
        gcd_spec(b, a % b)
    }
}

/// Whether `d` divides `x` exactly.
pub open spec fn divides(d: int, x: int) -> bool {
    exists|k: int| x == #[trigger] (d * k)
}

/// The product of two word-sized values fits the double word.
pub proof fn lemma_u64_mul_fits(a: u64, b: u64)
    ensures
        (a as int) * (b as int) <= u128::MAX as int,
{
    assert((a as int) * (b as int) <= u128::MAX as int) by (nonlinear_arith)
        requires
            0 <= a as int <= u64::MAX as int,
            0 <= b as int <= u64::MAX as int,
    ;
}

/// The greatest common divisor divides both arguments, and is positive when
/// either argument is.
pub proof fn lemma_gcd_divides(a: nat, b: nat)
    ensures
        divides(gcd_spec(a, b) as int, a as int),
        divides(gcd_spec(a, b) as int, b as int),
        a > 0 || b > 0 ==> gcd_spec(a, b) >= 1,
    decreases b,
{
    if b == 0 {
        assert(a as int == (a as int) * 1);
        assert(b as int == (a as int) * 0);
    } else {
        lemma_gcd_divides(b, a % b);
        let g = gcd_spec(b, a % b) as int;
        let k1 = choose|k: int| b as int == #[trigger] (g * k);
        let k2 = choose|k: int| (a % b) as int == #[trigger] (g * k);
        lemma_fundamental_div_mod(a as int, b as int);
        assert(a as int == g * ((a as int / b as int) * k1 + k2)) by (nonlinear_arith)
            requires
                a as int == (b as int) * (a as int / b as int) + (a as int % b as int),
                b as int == g * k1,
                (a % b) as int == g * k2,
                (a as int % b as int) == (a % b) as int,
        ;
    }
}

/// One exact relevance score, kept in lowest terms small enough to fit.
#[derive(Clone, Copy, Debug)]
pub struct Score {
    pub num: u64,
    pub den: u64,
}

impl Score {
    /// The rational value of this score.
    pub open spec fn view(self) -> (int, int) {
        (self.num as int, self.den as int)
    }

    /// A score's denominator is positive.
    pub open spec fn wf(self) -> bool {
        self.den >= 1
    }

    /// The score `num / den`.
    pub fn frac(num: u64, den: u64) -> (r: Score)
        requires
            den >= 1,
        ensures
            r.wf(),
            r.view() == (num as int, den as int),
    {
        Score { num, den }
    }

    /// The exact sum of two scores, or `None` exactly when even in lowest
    /// terms it no longer fits the machine word.
    pub fn add(self, other: Score) -> (r: Option<Score>)
        requires
            self.wf(),
            other.wf(),
        ensures
            r is Some <==> red_sum(self.view(), other.view()) is Some,
            r matches Some(s) ==> s.wf() && s.view() == red_sum(self.view(), other.view())->Some_0
                && rat_eq(s.view(), rat_add(self.view(), other.view())),
    {
        let ghost nn = (self.num as int) * (other.den as int) + (other.num as int) * (self.den
            as int);
        let ghost dd = (self.den as int) * (other.den as int);
        proof {
            lemma_u64_mul_fits(self.num, other.den);
            lemma_u64_mul_fits(other.num, self.den);
            lemma_u64_mul_fits(self.den, other.den);
        }
        let p1: u128 = (self.num as u128) * (other.den as u128);
        let p2: u128 = (other.num as u128) * (self.den as u128);
        if p1 > u128::MAX - p2 {
            proof {
                assert(nn > u128::MAX as int);
                assert(red_sum(self.view(), other.view()) is None);
            }
            return None;
        }
        let n: u128 = p1 + p2;
        let d: u128 = (self.den as u128) * (other.den as u128);
        proof {
            assert(d >= 1) by (nonlinear_arith)
                requires
                    self.den >= 1,
                    other.den >= 1,
                    d == (self.den as u128) * (other.den as u128),
            ;
        }
        let (n2, d2) = reduce(n, d);
        proof {
            assert(n as int == nn && d as int == dd);
            assert(n2 as int == nn / (gcd_spec(nn as nat, dd as nat) as int));
            assert(d2 as int == dd / (gcd_spec(nn as nat, dd as nat) as int));
        }
        if n2 > u64::MAX as u128 || d2 > u64::MAX as u128 {
            proof {
                assert(red_sum(self.view(), other.view()) is None);
            }
            return None;
        }
        let s = Score { num: n2 as u64, den: d2 as u64 };
        proof {
            assert(red_sum(self.view(), other.view()) == Some((n2 as int, d2 as int)));
        }
        proof {
            assert(rat_eq(s.view(), rat_add(self.view(), other.view()))) by (nonlinear_arith)
                requires
                    s.num as int == n2 as int,
                    s.den as int == d2 as int,
                    (n2 as int) * (d as int) == (n as int) * (d2 as int),
                    n as int == (self.num as int) * (other.den as int) + (other.num as int) * (
                    self.den as int),
                    d as int == (self.den as int) * (other.den as int),
            ;
        }
        Some(s)
    }

    /// Whether this score is at most the other.
    pub fn le(&self, other: &Score) -> (r: bool)
        requires
            self.wf(),
            other.wf(),
        ensures
            r == rat_le(self.view(), other.view()),
    {
        proof {
            lemma_u64_mul_fits(self.num, other.den);
            lemma_u64_mul_fits(other.num, self.den);
        }
        (self.num as u128) * (other.den as u128) <= (other.num as u128) * (self.den as u128)
    }

    /// Whether this score equals the other as a rational.
    pub fn same(&self, other: &Score) -> (r: bool)
        requires
            self.wf(),
            other.wf(),
        ensures
            r == rat_eq(self.view(), other.view()),
    {
        proof {
            lemma_u64_mul_fits(self.num, other.den);
            lemma_u64_mul_fits(other.num, self.den);
        }
        (self.num as u128) * (other.den as u128) == (other.num as u128) * (self.den as u128)
    }
}

/// Computes the greatest common divisor of `a` and `b`.
fn gcd128(a: u128, b: u128) -> (g: u128)
    ensures
        g == gcd_spec(a as nat, b as nat),
{
    let mut x = a;
    let mut y = b;
    while y != 0
        invariant
            gcd_spec(x as nat, y as nat) == gcd_spec(a as nat, b as nat),
        decreases y,
    {
        let t = x % y;
        x = y;
        y = t;
    }
    x
}

/// Brings the fraction `n / d` into lowest terms; the value is unchanged.
fn reduce(n: u128, d: u128) -> (r: (u128, u128))
    requires
        d >= 1,
    ensures
        r.1 >= 1,
        r.0 as int == n as int / (gcd_spec(n as nat, d as nat) as int),
        r.1 as int == d as int / (gcd_spec(n as nat, d as nat) as int),
        (r.0 as int) * (d as int) == (n as int) * (r.1 as int),
{
    let g = gcd128(n, d);
    proof {
        lemma_gcd_divides(n as nat, d as nat);
    }
    let ghost k1 = choose|k: int| n as int == #[trigger] ((g as int) * k);
    let ghost k2 = choose|k: int| d as int == #[trigger] ((g as int) * k);
    proof {
        assert(n as int / g as int == k1 && 0 <= k1) by {
            lemma_div_multiples_vanish(k1, g as int);
            assert((g as int) * k1 >= 0);
            assert(k1 >= 0) by (nonlinear_arith)
                requires
                    (g as int) * k1 >= 0,
                    g >= 1,
            ;
        }
        assert(d as int / g as int == k2 && 1 <= k2) by {
            lemma_div_multiples_vanish(k2, g as int);
            assert((g as int) * k2 >= 1);
            assert(k2 >= 1) by (nonlinear_arith)
                requires
                    (g as int) * k2 >= 1,
                    g >= 1,
            ;
        }
    }
    let n2 = n / g;
    let d2 = d / g;
    proof {
        assert((n2 as int) * (d as int) == (n as int) * (d2 as int)) by (nonlinear_arith)
            requires
                n2 as int == k1,
                d2 as int == k2,
                n as int == (g as int) * k1,
                d as int == (g as int) * k2,
        ;
    }
    (n2, d2)
}

/// The order on scores runs one way or the other: no pair is incomparable.
pub proof fn lemma_rat_le_total(a: (int, int), b: (int, int))
    requires
        a.1 >= 1,
        b.1 >= 1,
    ensures
        rat_le(a, b) || rat_le(b, a),
{
}

/// Equality of rationals carries over sums: replacing one addend by an
/// equal rational gives an equal sum.
pub proof fn lemma_rat_add_cong(a: (int, int), a2: (int, int), b: (int, int))
    requires
        rat_eq(a, a2),
    ensures
        rat_eq(rat_add(a, b), rat_add(a2, b)),
{
    assert((a.0 * b.1 + b.0 * a.1) * a2.1 == (a2.0 * b.1 + b.0 * a2.1) * a.1) by (nonlinear_arith)
        requires
            a.0 * a2.1 == a2.0 * a.1,
    ;
    assert((a.0 * b.1 + b.0 * a.1) * (a2.1 * b.1) == ((a.0 * b.1 + b.0 * a.1) * a2.1) * b.1)
        by (nonlinear_arith);
    assert((a2.0 * b.1 + b.0 * a2.1) * (a.1 * b.1) == ((a2.0 * b.1 + b.0 * a2.1) * a.1) * b.1)
        by (nonlinear_arith);
}

/// Equality of rationals is transitive when the middle denominator is
/// nonzero.
pub proof fn lemma_rat_eq_trans(a: (int, int), b: (int, int), c: (int, int))
    requires
        b.1 != 0,
        rat_eq(a, b),
        rat_eq(b, c),
    ensures
        rat_eq(a, c),
{
    assert(a.0 * c.1 == c.0 * a.1) by (nonlinear_arith)
        requires
            b.1 != 0,
            a.0 * b.1 == b.0 * a.1,
            b.0 * c.1 == c.0 * b.1,
    ;
}

/// The order on scores is transitive.
pub proof fn lemma_rat_le_trans(a: (int, int), b: (int, int), c: (int, int))
    requires
        a.1 >= 1,
        b.1 >= 1,
        c.1 >= 1,
        rat_le(a, b),
        rat_le(b, c),
    ensures
        rat_le(a, c),
{
    assert(a.0 * c.1 <= c.0 * a.1) by (nonlinear_arith)
        requires
            a.1 >= 1,
            b.1 >= 1,
            c.1 >= 1,
            a.0 * b.1 <= b.0 * a.1,
            b.0 * c.1 <= c.0 * b.1,
    ;
}

} // verus!
