use vstd::prelude::*;
use crate::math::primality::{spec_gcd, lemma_gcd_divides, lemma_gcd_scale};
use vstd::arithmetic::div_mod::{lemma_fundamental_div_mod, lemma_fundamental_div_mod_converse};

verus! {

/// The magnitude of an integer.
pub open spec fn mag(x: int) -> int {
    if x < 0 {
        -x
    } else {
        x
    }
}

/// Both boundaries used by the rational arithmetic below: factors stay
/// within this bound so that cross products fit in `i64`.
pub open spec fn small(x: int) -> bool {
    -0x7fff_ffff <= x <= 0x7fff_ffff
}

/// The nonnegative greatest common divisor of the magnitudes of `a` and
/// `b`; `gcd(x, 0) == mag(x)`.
pub fn gcd(a: i64, b: i64) -> (g: i64)
    requires
        a > i64::MIN,
        b > i64::MIN,
    ensures
        g as int == spec_gcd(mag(a as int), mag(b as int)),
        g >= 0,
    decreases mag(b as int),
{
    let x = if a < 0 {
        -a
    } else {
        a
    };
    let y = if b < 0 {
        -b
    } else {
        b
    };
    if y == 0 {
        x
    } else {
        gcd(y, x % y)
    }
}

/// The least common multiple of `a` and `b`, for nonnegative arguments not
/// both zero.
pub fn lcm(a: i64, b: i64) -> (m: i64)
    requires
        0 <= a,
        0 <= b,
        a > 0 || b > 0,
        (a as int / spec_gcd(a as int, b as int)) * (b as int) <= i64::MAX,
    ensures
        m as int == (a as int / spec_gcd(a as int, b as int)) * (b as int),
        m >= 0,
{
    proof {
        lemma_gcd_divides(a as int, b as int);
        lemma_fundamental_div_mod(a as int, spec_gcd(a as int, b as int));
        assert(0 <= (a as int) / spec_gcd(a as int, b as int) <= a) by (nonlinear_arith)
            requires
                a as int == spec_gcd(a as int, b as int) * ((a as int) / spec_gcd(
                    a as int,
                    b as int,
                )),
                spec_gcd(a as int, b as int) >= 1,
                a >= 0,
        {}
        assert(0 <= ((a as int) / spec_gcd(a as int, b as int)) * (b as int)) by (nonlinear_arith)
            requires 0 <= (a as int) / spec_gcd(a as int, b as int), 0 <= b,
        {}
    }
    a / gcd(a, b) * b
}

/// A rational number kept in lowest terms with a positive denominator.
#[derive(PartialEq, Eq, Structural, Debug, Copy, Clone)]
pub struct Ratio {
    pub numerator: i64,
    pub denominator: i64,
}

/// Products of bounded factors stay far inside `i64`.
proof fn lemma_small_product(x: int, y: int)
    requires
        small(x),
        small(y),
    ensures
        mag(x * y) <= 0x3fff_ffff_0000_0001,
{
    assert(mag(x * y) <= 0x3fff_ffff_0000_0001) by (nonlinear_arith)
        requires small(x), small(y),
    {}
}

/// `r` stands for the fraction `num / den`.
pub open spec fn ratio_eq(r: Ratio, num: int, den: int) -> bool {
    (r.numerator as int) * den == num * (r.denominator as int)
}

impl Ratio {
    /// Lowest terms, positive denominator.
    pub open spec fn reduced(&self) -> bool {
        &&& self.denominator > 0
        &&& spec_gcd(mag(self.numerator as int), self.denominator as int) == 1
    }

    /// The fraction `num / den` in canonical form: divided by the gcd of
    /// the magnitudes, sign carried by the numerator.
    pub fn new(num: i64, den: i64) -> (r: Ratio)
        requires
            den != 0,
            num > i64::MIN,
            den > i64::MIN,
        ensures
            r.reduced(),
            ratio_eq(r, num as int, den as int),
            ({
                let g = spec_gcd(mag(num as int), mag(den as int));
                &&& r.denominator as int == mag(den as int) / g
                &&& (den > 0 ==> r.numerator as int == num as int / g)
                &&& (den < 0 ==> r.numerator as int == -(num as int / g))
            }),
    {
        let g = gcd(num, den);
        proof {
            lemma_gcd_divides(mag(num as int), mag(den as int));
        }
        let num2 = num.checked_div(g).unwrap();
        let den2 = den.checked_div(g).unwrap();
        proof {
            lemma_exact_div(num as int, g as int);
            lemma_exact_div(den as int, g as int);
            assert(num2 as int * g as int == num as int);
            assert(den2 as int * g as int == den as int);
            assert(den2 != 0) by (nonlinear_arith)
                requires den2 as int * g as int == den as int, den != 0,
            {}
        }
        let s: i64 = if den2 < 0 {
            -1
        } else {
            1
        };
        let r = Ratio { numerator: s * num2, denominator: s * den2 };
        proof {
            let gi = g as int;
            let ni = num as int;
            let di = den as int;
            // magnitudes divide out exactly, so the result is in lowest terms
            assert(mag(num2 as int) * gi == mag(ni) && mag(den2 as int) * gi == mag(di))
                by (nonlinear_arith)
                requires num2 as int * gi == ni, den2 as int * gi == di, gi >= 1,
            {}
            assert(mag(num2 as int) == mag(ni) / gi && mag(den2 as int) == mag(di) / gi) by {
                lemma_fundamental_div_mod_converse(mag(ni), gi, mag(num2 as int), 0);
                lemma_fundamental_div_mod_converse(mag(di), gi, mag(den2 as int), 0);
            }
            lemma_gcd_scale(gi, mag(num2 as int), mag(den2 as int));
            assert(gi * mag(num2 as int) == mag(ni) && gi * mag(den2 as int) == mag(di))
                by (nonlinear_arith)
                requires mag(num2 as int) * gi == mag(ni), mag(den2 as int) * gi == mag(di),
            {}
            assert(spec_gcd(mag(ni), mag(di)) == gi * spec_gcd(
                mag(num2 as int),
                mag(den2 as int),
            ));
            assert(spec_gcd(mag(num2 as int), mag(den2 as int)) >= 0) by {
                if mag(num2 as int) > 0 || mag(den2 as int) > 0 {
                    lemma_gcd_divides(mag(num2 as int), mag(den2 as int));
                }
            }
            assert(spec_gcd(mag(num2 as int), mag(den2 as int)) == 1) by (nonlinear_arith)
                requires
                    gi * spec_gcd(mag(num2 as int), mag(den2 as int)) == spec_gcd(
                        mag(ni),
                        mag(di),
                    ),
                    spec_gcd(mag(ni), mag(di)) == gi,
                    gi >= 1,
                    spec_gcd(mag(num2 as int), mag(den2 as int)) >= 0,
            {}
            assert(ratio_eq(r, ni, di)) by (nonlinear_arith)
                requires
                    r.numerator as int == (s as int) * (num2 as int),
                    r.denominator as int == (s as int) * (den2 as int),
                    num2 as int * gi == ni,
                    den2 as int * gi == di,
                    gi >= 1,
                    s == 1i64 || s == -1i64,
            {}
            assert(den2 as int > 0 <==> di > 0) by (nonlinear_arith)
                requires den2 as int * gi == di, gi >= 1, di != 0,
            {}
            lemma_exact_div_value(ni, gi);
            lemma_exact_div_value(di, gi);
            assert(0int / gi == 0) by (nonlinear_arith)
                requires gi >= 1,
            {}
            if di > 0 {
                assert(r.denominator as int == mag(di) / gi);
                assert(r.numerator as int == ni / gi);
            } else {
                assert(r.denominator as int == -(den2 as int));
                assert(den2 as int == -((-di) / gi));
                assert(r.denominator as int == mag(di) / gi);
                assert(r.numerator as int == -(ni / gi));
            }
        }
        r
    }

    /// The whole number `n` as a fraction.
    pub fn from_integer(n: i64) -> (r: Ratio)
        ensures
            r.numerator == n,
            r.denominator == 1,
            r.reduced(),
    {
        proof {
            lemma_gcd_one(mag(n as int));
        }
        Ratio { numerator: n, denominator: 1 }
    }

    /// The fraction flipped upside down (not renormalized: combine with
    /// `new` to restore canonical form).
    pub fn inverse(&self) -> (r: Ratio)
        ensures
            r.numerator == self.denominator,
            r.denominator == self.numerator,
    {
        Ratio { numerator: self.denominator, denominator: self.numerator }
    }

    /// Negation.
    pub fn neg(&self) -> (r: Ratio)
        requires
            self.reduced(),
            self.numerator > i64::MIN,
        ensures
            r.reduced(),
            r.numerator as int == -(self.numerator as int),
            r.denominator == self.denominator,
    {
        let r = Ratio::new(self.numerator, -self.denominator);
        proof {
            let g = spec_gcd(mag(self.numerator as int), mag(-(self.denominator as int)));
            assert(g == 1);
            lemma_div_by_one(self.numerator as int);
            lemma_div_by_one(self.denominator as int);
        }
        r
    }

    /// Sum of two canonical fractions, in canonical form.
    pub fn add(self, rhs: Ratio) -> (r: Ratio)
        requires
            self.reduced(),
            rhs.reduced(),
            small(self.numerator as int),
            small(self.denominator as int),
            small(rhs.numerator as int),
            small(rhs.denominator as int),
        ensures
            r.reduced(),
            ratio_eq(
                r,
                (self.numerator as int) * (rhs.denominator as int) + (rhs.numerator as int) * (
                self.denominator as int),
                (self.denominator as int) * (rhs.denominator as int),
            ),
    {
        proof {
            lemma_small_product(self.numerator as int, rhs.denominator as int);
            lemma_small_product(rhs.numerator as int, self.denominator as int);
            lemma_small_product(self.denominator as int, rhs.denominator as int);
        }
        let num = self.numerator * rhs.denominator + rhs.numerator * self.denominator;
        let den = self.denominator * rhs.denominator;
        proof {
            assert(den != 0 && den > i64::MIN && num > i64::MIN) by (nonlinear_arith)
                requires
                    self.denominator > 0,
                    rhs.denominator > 0,
                    num as int == (self.numerator as int) * (rhs.denominator as int) + (
                    rhs.numerator as int) * (self.denominator as int),
                    den as int == (self.denominator as int) * (rhs.denominator as int),
                    mag((self.numerator as int) * (rhs.denominator as int))
                        <= 0x3fff_ffff_0000_0001,
                    mag((rhs.numerator as int) * (self.denominator as int))
                        <= 0x3fff_ffff_0000_0001,
            {}
        }
        Ratio::new(num, den)
    }

    /// Difference, in canonical form.
    pub fn sub(self, rhs: Ratio) -> (r: Ratio)
        requires
            self.reduced(),
            rhs.reduced(),
            small(self.numerator as int),
            small(self.denominator as int),
            small(rhs.numerator as int),
            small(rhs.denominator as int),
        ensures
            r.reduced(),
            ratio_eq(
                r,
                (self.numerator as int) * (rhs.denominator as int) - (rhs.numerator as int) * (
                self.denominator as int),
                (self.denominator as int) * (rhs.denominator as int),
            ),
    {
        let r = self.add(rhs.neg());
        proof {
            assert((-(rhs.numerator as int)) * (self.denominator as int) == -((
            rhs.numerator as int) * (self.denominator as int))) by (nonlinear_arith) {}
        }
        r
    }

    /// Product, in canonical form.
    pub fn mul(self, rhs: Ratio) -> (r: Ratio)
        requires
            self.reduced(),
            rhs.reduced(),
            small(self.numerator as int),
            small(self.denominator as int),
            small(rhs.numerator as int),
            small(rhs.denominator as int),
        ensures
            r.reduced(),
            ratio_eq(
                r,
                (self.numerator as int) * (rhs.numerator as int),
                (self.denominator as int) * (rhs.denominator as int),
            ),
    {
        proof {
            lemma_small_product(self.numerator as int, rhs.numerator as int);
            lemma_small_product(self.denominator as int, rhs.denominator as int);
            assert((self.denominator as int) * (rhs.denominator as int) > 0) by (nonlinear_arith)
                requires self.denominator > 0, rhs.denominator > 0,
            {}
        }
        Ratio::new(self.numerator * rhs.numerator, self.denominator * rhs.denominator)
    }

    /// Quotient, in canonical form; the divisor must not be zero.
    pub fn div(self, rhs: Ratio) -> (r: Ratio)
        requires
            self.reduced(),
            rhs.reduced(),
            rhs.numerator != 0,
            small(self.numerator as int),
            small(self.denominator as int),
            small(rhs.numerator as int),
            small(rhs.denominator as int),
        ensures
            r.reduced(),
            ratio_eq(
                r,
                (self.numerator as int) * (rhs.denominator as int),
                (self.denominator as int) * (rhs.numerator as int),
            ),
    {
        let inv = rhs.inverse();
        proof {
            assert((self.denominator as int) * (rhs.numerator as int) != 0) by (nonlinear_arith)
                requires self.denominator > 0, rhs.numerator != 0,
            {}
        }
        proof {
            lemma_small_product(self.numerator as int, inv.numerator as int);
            lemma_small_product(self.denominator as int, inv.denominator as int);
            assert((self.denominator as int) * (inv.denominator as int) != 0) by (nonlinear_arith)
                requires self.denominator > 0, inv.denominator != 0,
            {}
        }
        Ratio::new(self.numerator * inv.numerator, self.denominator * inv.denominator)
    }

    /// Three-way order of two canonical fractions.
    pub fn cmp(&self, other: &Ratio) -> (r: core::cmp::Ordering)
        requires
            self.reduced(),
            other.reduced(),
            small(self.numerator as int),
            small(self.denominator as int),
            small(other.numerator as int),
            small(other.denominator as int),
        ensures
            (r == core::cmp::Ordering::Less) == ((self.numerator as int) * (
            other.denominator as int) < (other.numerator as int) * (self.denominator as int)),
            (r == core::cmp::Ordering::Equal) == ((self.numerator as int) * (
            other.denominator as int) == (other.numerator as int) * (self.denominator as int)),
            (r == core::cmp::Ordering::Greater) == ((self.numerator as int) * (
            other.denominator as int) > (other.numerator as int) * (self.denominator as int)),
    {
        let g = gcd(self.denominator, other.denominator);
        proof {
            lemma_gcd_divides(self.denominator as int, other.denominator as int);
            lemma_exact_div(self.denominator as int, g as int);
            lemma_exact_div(other.denominator as int, g as int);
        }
        let lq = other.denominator / g;
        let rq = self.denominator / g;
        proof {
            assert(0 <= lq <= other.denominator && 0 <= rq <= self.denominator)
                by (nonlinear_arith)
                requires
                    (lq as int) * (g as int) == other.denominator as int,
                    (rq as int) * (g as int) == self.denominator as int,
                    g as int >= 1,
                    self.denominator > 0,
                    other.denominator > 0,
            {}
            lemma_small_product(lq as int, self.numerator as int);
            lemma_small_product(rq as int, other.numerator as int);
        }
        let lhs = lq * self.numerator;
        let rhs = rq * other.numerator;
        proof {
            let gi = g as int;
            let d1 = self.denominator as int;
            let d2 = other.denominator as int;
            let n1 = self.numerator as int;
            let n2 = other.numerator as int;
            assert((lq as int) * gi == d2 && (rq as int) * gi == d1);
            assert(((lhs as int) < (rhs as int)) == (n1 * d2 < n2 * d1) && ((lhs as int) == (
            rhs as int)) == (n1 * d2 == n2 * d1)) by (nonlinear_arith)
                requires
                    lhs as int == (lq as int) * n1,
                    rhs as int == (rq as int) * n2,
                    (lq as int) * gi == d2,
                    (rq as int) * gi == d1,
                    gi >= 1,
            {}
        }
        if lhs < rhs {
            core::cmp::Ordering::Less
        } else if lhs == rhs {
            core::cmp::Ordering::Equal
        } else {
            core::cmp::Ordering::Greater
        }
    }
}

/// For a positive divisor that divides `a`'s magnitude, truncating
/// division is exact.
proof fn lemma_exact_div(a: int, g: int)
    requires
        1 <= g,
        mag(a) % g == 0,
    ensures
        ((if a >= 0 {
            a / g
        } else {
            -((-a) / g)
        }) * g) == a,
{
    if a >= 0 {
        lemma_fundamental_div_mod(a, g);
        assert((a / g) * g == a) by (nonlinear_arith)
            requires a == g * (a / g) + a % g, a % g == 0,
        {}
    } else {
        lemma_fundamental_div_mod(-a, g);
        assert((-((-a) / g)) * g == a) by (nonlinear_arith)
            requires -a == g * ((-a) / g) + (-a) % g, (-a) % g == 0,
        {}
    }
}

/// The exact value `checked_div` returns when the division is exact.
proof fn lemma_exact_div_value(a: int, g: int)
    requires
        1 <= g,
        mag(a) % g == 0,
    ensures
        a >= 0 ==> mag(a) / g == a / g,
        a < 0 ==> -(mag(a) / g) == -((-a) / g) && a / g == -((-a) / g),
{
    lemma_fundamental_div_mod(mag(a), g);
    if a < 0 {
        assert(((-a) / g) * g == -a) by (nonlinear_arith)
            requires -a == g * ((-a) / g),
        {}
        assert(a == g * (-((-a) / g))) by (nonlinear_arith)
            requires ((-a) / g) * g == -a,
        {}
        lemma_fundamental_div_mod_converse(a, g, -((-a) / g), 0);
    }
}

/// `gcd(x, 1) == 1`.
proof fn lemma_gcd_one(x: int)
    requires
        0 <= x,
    ensures
        spec_gcd(x, 1) == 1,
{
    assert(x % 1 == 0) by (nonlinear_arith) {}
    assert(spec_gcd(x, 1) == spec_gcd(1, x % 1));
}

/// Dividing by one changes nothing.
proof fn lemma_div_by_one(x: int)
    ensures
        x / 1 == x,
{
    lemma_fundamental_div_mod(x, 1);
}

} // verus!
