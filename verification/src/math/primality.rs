use vstd::prelude::*;
use vstd::arithmetic::div_mod::{lemma_fundamental_div_mod, lemma_fundamental_div_mod_converse};

verus! {

/// No integer in `[2, bound)` divides `j`.
pub open spec fn no_small_factor(j: int, bound: int) -> bool {
    forall|d: int| 2 <= d < bound ==> #[trigger] (j % d) != 0
}

pub open spec fn spec_prime(n: int) -> bool {
    2 <= n && no_small_factor(n, n)
}

/// `f` is the least factor (>= 2) of `j`; for `j >= 2` it is prime.
pub open spec fn is_least_factor(j: int, f: int) -> bool {
    &&& 2 <= f <= j
    &&& j % f == 0
    &&& no_small_factor(j, f)
}

/// Product of a sequence of numbers, taken left to right.
pub open spec fn product(s: Seq<usize>) -> int
    decreases s.len(),
{
    if s.len() == 0 {
        1
    } else {
        product(s.drop_last()) * s.last()
    }
}

pub open spec fn nondecreasing(s: Seq<usize>) -> bool {
    forall|a: int, b: int| 0 <= a <= b < s.len() ==> s[a] <= s[b]
}

/// Divisibility carries across a factor: if `a` divides `b` and `b` divides
/// `c`, then `a` divides `c`.
pub proof fn lemma_divides_trans(a: int, b: int, c: int)
    requires
        1 <= a,
        1 <= b,
        1 <= c,
        b % a == 0,
        c % b == 0,
    ensures
        c % a == 0,
{
    lemma_fundamental_div_mod(b, a);
    lemma_fundamental_div_mod(c, b);
    let q = (b / a) * (c / b);
    assert(c == a * q) by (nonlinear_arith)
        requires b == a * (b / a), c == b * (c / b), q == (b / a) * (c / b),
    {}
    assert(q >= 0) by (nonlinear_arith)
        requires c == a * q, 1 <= a, 1 <= c,
    {}
    lemma_fundamental_div_mod_converse(c, a, q, 0);
}

/// A divisor pairs with its cofactor.
pub proof fn lemma_factor_pair(n: int, d: int)
    requires
        2 <= d <= n,
        n % d == 0,
    ensures
        1 <= n / d <= n,
        n % (n / d) == 0,
        d * (n / d) == n,
        n / d < n,
        n / d == 1 ==> d == n,
{
    lemma_fundamental_div_mod(n, d);
    assert(n == d * (n / d));
    assert(1 <= n / d <= n && n / d < n && (n / d == 1 ==> d == n)) by (nonlinear_arith)
        requires n == d * (n / d), 2 <= d <= n,
    {}
    lemma_fundamental_div_mod_converse(n, n / d, d, 0);
}

/// The least factor of a number is prime.
pub proof fn lemma_least_factor_prime(j: int, f: int)
    requires
        is_least_factor(j, f),
    ensures
        spec_prime(f),
{
    assert forall|d: int| 2 <= d < f implies #[trigger] (f % d) != 0 by {
        if f % d == 0 {
            lemma_divides_trans(d, f, j);
        }
    }
}

/// A product of a multiple: `i * m` is divisible by `m` and by `i`.
pub proof fn lemma_multiple_divides(i: int, m: int)
    requires
        1 <= i,
        1 <= m,
    ensures
        (i * m) % m == 0,
        (i * m) % i == 0,
{
    assert(i * m == m * i);
    lemma_fundamental_div_mod_converse(i * m, m, i, 0);
    lemma_fundamental_div_mod_converse(i * m, i, m, 0);
}

/// Stepping a multiple of `i` by `i` keeps it a multiple.
pub proof fn lemma_multiple_step(i: int, j: int)
    requires
        1 <= i,
        0 <= j,
        j % i == 0,
    ensures
        (j + i) % i == 0,
{
    lemma_fundamental_div_mod(j, i);
    assert(j + i == i * (j / i + 1)) by (nonlinear_arith)
        requires j == i * (j / i),
    {}
    assert(j / i >= 0) by (nonlinear_arith)
        requires j == i * (j / i), 0 <= j, 1 <= i,
    {}
    lemma_fundamental_div_mod_converse(j + i, i, j / i + 1, 0);
}

/// Scans upward from `c` for the first divisor of `v`.
pub open spec fn lf_from(v: int, c: int) -> int
    decreases v - c,
{
    if c >= v {
        v
    } else if v % c == 0 {
        c
    } else {
        lf_from(v, c + 1)
    }
}

/// The least factor (>= 2) of `v`, as a function.
pub open spec fn least_factor(v: int) -> int {
    lf_from(v, 2)
}

proof fn lemma_lf_from(v: int, c: int)
    requires
        2 <= c <= v,
        no_small_factor(v, c),
    ensures
        is_least_factor(v, lf_from(v, c)),
    decreases v - c,
{
    if c >= v {
        assert(v % v == 0) by (nonlinear_arith)
            requires v >= 1,
        {}
    } else if v % c == 0 {
    } else {
        lemma_lf_from(v, c + 1);
    }
}

/// `least_factor` really is the least factor, for `v >= 2`.
pub proof fn lemma_least_factor(v: int)
    requires
        2 <= v,
    ensures
        is_least_factor(v, least_factor(v)),
{
    lemma_lf_from(v, 2);
}

/// Least factors are unique.
pub proof fn lemma_least_factor_unique(v: int, f: int)
    requires
        is_least_factor(v, f),
    ensures
        f == least_factor(v),
{
    lemma_least_factor(v);
}

/// Euclid's greatest common divisor, on nonnegative integers.
pub open spec fn spec_gcd(a: int, b: int) -> int
    decreases b,
        via gcd_decreases
{
    if b <= 0 {
        a
    } else {
        spec_gcd(b, a % b)
    }
}

#[via_fn]
proof fn gcd_decreases(a: int, b: int) {
    if b > 0 {
        vstd::arithmetic::div_mod::lemma_mod_bound(a, b);
    }
}

/// A sum of multiples of `d` is a multiple of `d`.
pub proof fn lemma_divides_add_multiple(d: int, b: int, r: int, q: int)
    requires
        1 <= d,
        0 <= b,
        0 <= r,
        0 <= q,
        b % d == 0,
        r % d == 0,
    ensures
        (q * b + r) % d == 0,
{
    lemma_fundamental_div_mod(b, d);
    lemma_fundamental_div_mod(r, d);
    assert(q * b + r == d * (q * (b / d) + r / d)) by (nonlinear_arith)
        requires b == d * (b / d), r == d * (r / d),
    {}
    assert(q * (b / d) + r / d >= 0) by (nonlinear_arith)
        requires
            b == d * (b / d),
            r == d * (r / d),
            0 <= b,
            0 <= r,
            0 <= q,
            1 <= d,
    {}
    lemma_fundamental_div_mod_converse(q * b + r, d, q * (b / d) + r / d, 0);
}

/// The gcd divides both of its arguments and is positive when either is.
pub proof fn lemma_gcd_divides(a: int, b: int)
    requires
        0 <= a,
        0 <= b,
        a > 0 || b > 0,
    ensures
        spec_gcd(a, b) >= 1,
        a % spec_gcd(a, b) == 0,
        b % spec_gcd(a, b) == 0,
    decreases b,
{
    if b == 0 {
        assert(a % a == 0) by (nonlinear_arith)
            requires a >= 1,
        {}
        assert(0int % a == 0) by (nonlinear_arith)
            requires a >= 1,
        {}
    } else {
        vstd::arithmetic::div_mod::lemma_mod_bound(a, b);
        lemma_gcd_divides(b, a % b);
        let g = spec_gcd(b, a % b);
        lemma_fundamental_div_mod(a, b);
        assert(a / b >= 0) by (nonlinear_arith)
            requires a == b * (a / b) + a % b, 0 <= a % b < b, 0 <= a,
        {}
        lemma_divides_add_multiple(g, b, a % b, a / b);
        assert((a / b) * b + a % b == a);
    }
}

/// Every common divisor of `a` and `b` divides their gcd.
pub proof fn lemma_gcd_greatest(a: int, b: int, d: int)
    requires
        0 <= a,
        0 <= b,
        a > 0 || b > 0,
        1 <= d,
        a % d == 0,
        b % d == 0,
    ensures
        spec_gcd(a, b) % d == 0,
    decreases b,
{
    if b == 0 {
    } else {
        vstd::arithmetic::div_mod::lemma_mod_bound(a, b);
        // d divides a % b == a - (a / b) * b
        lemma_fundamental_div_mod(a, b);
        lemma_fundamental_div_mod(a, d);
        lemma_fundamental_div_mod(b, d);
        let r = a % b;
        assert(r == d * (a / d - (a / b) * (b / d))) by (nonlinear_arith)
            requires
                a == b * (a / b) + r,
                a == d * (a / d),
                b == d * (b / d),
        {}
        assert(a / d - (a / b) * (b / d) >= 0) by (nonlinear_arith)
            requires r == d * (a / d - (a / b) * (b / d)), 0 <= r, 1 <= d,
        {}
        lemma_fundamental_div_mod_converse(r, d, a / d - (a / b) * (b / d), 0);
        lemma_gcd_greatest(b, r, d);
    }
}

/// The gcd scales: `gcd(k a, k b) == k gcd(a, b)`.
pub proof fn lemma_gcd_scale(k: int, a: int, b: int)
    requires
        1 <= k,
        0 <= a,
        0 <= b,
    ensures
        spec_gcd(k * a, k * b) == k * spec_gcd(a, b),
    decreases b,
{
    if b == 0 {
        assert(k * b == 0) by (nonlinear_arith)
            requires b == 0,
        {}
    } else {
        vstd::arithmetic::div_mod::lemma_mod_bound(a, b);
        lemma_fundamental_div_mod(a, b);
        assert(k * a == (k * b) * (a / b) + k * (a % b)) by (nonlinear_arith)
            requires a == b * (a / b) + a % b,
        {}
        assert(0 <= k * (a % b) < k * b) by (nonlinear_arith)
            requires 0 <= a % b < b, 1 <= k,
        {}
        lemma_fundamental_div_mod_converse(k * a, k * b, a / b, k * (a % b));
        assert(k * b > 0) by (nonlinear_arith)
            requires 1 <= k, 1 <= b,
        {}
        lemma_gcd_scale(k, b, a % b);
    }
}

/// Euclid's lemma: a prime dividing a product divides one of the factors.
pub proof fn lemma_euclid(p: int, a: int, b: int)
    requires
        spec_prime(p),
        1 <= a,
        0 <= b,
        (a * b) % p == 0,
        a % p != 0,
    ensures
        b % p == 0,
{
    if b == 0 {
        assert(0int % p == 0) by (nonlinear_arith)
            requires p >= 1,
        {}
    } else {
        let g = spec_gcd(p, a);
        lemma_gcd_divides(p, a);
        // a divisor of a prime is 1 or the prime itself
        assert(g == 1 || g == p) by {
            lemma_fundamental_div_mod(p, g);
            if 2 <= g < p {
                assert(p % g != 0);
            }
            if g > p {
                assert(p % g == p) by {
                    vstd::arithmetic::div_mod::lemma_small_mod(p as nat, g as nat);
                }
            }
        }
        assert(g == 1);
        lemma_gcd_scale(b, p, a);
        assert(b * p >= 0 && b * a >= 0 && (b * p > 0 || b * a > 0)) by (nonlinear_arith)
            requires 1 <= b, 1 <= a, 1 <= p,
        {}
        assert((b * p) % p == 0) by {
            lemma_multiple_divides(b, p);
        }
        assert((b * a) % p == 0) by {
            assert(b * a == a * b) by (nonlinear_arith) {}
        }
        lemma_gcd_greatest(b * p, b * a, p);
        assert(spec_gcd(b * p, b * a) == b * spec_gcd(p, a));
        assert(b * spec_gcd(p, a) == b) by (nonlinear_arith)
            requires spec_gcd(p, a) == 1,
        {}
    }
}

/// The least factor of `p * d` is `p` itself when `p` is prime and no
/// larger than every factor of `d`.
pub proof fn lemma_least_factor_of_product(p: int, d: int)
    requires
        spec_prime(p),
        2 <= d,
        forall|e: int| 2 <= e < p ==> #[trigger] (d % e) != 0,
    ensures
        is_least_factor(p * d, p),
{
    assert(2 <= p * d && p <= p * d) by (nonlinear_arith)
        requires 2 <= p, 2 <= d,
    {}
    lemma_multiple_divides(d, p);
    assert((p * d) % p == 0);
    assert forall|e: int| 2 <= e < p implies #[trigger] ((p * d) % e) != 0 by {
        if (p * d) % e == 0 {
            lemma_least_factor(e);
            let q = least_factor(e);
            lemma_least_factor_prime(e, q);
            lemma_divides_trans(q, e, p * d);
            assert(p % q != 0);
            lemma_euclid(q, p, d);
            assert(d % q != 0);
        }
    }
}

} // verus!
