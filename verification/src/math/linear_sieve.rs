use vstd::prelude::*;
use crate::math::primality::{
    no_small_factor, spec_prime, is_least_factor, product, nondecreasing, least_factor,
    lemma_least_factor, lemma_least_factor_unique, lemma_least_factor_prime,
    lemma_least_factor_of_product, lemma_divides_trans, lemma_factor_pair,
    lemma_multiple_divides,
};
use vstd::arithmetic::div_mod::lemma_fundamental_div_mod;

verus! {

/// The cofactor of a number against its least factor.
pub open spec fn cofactor(v: int) -> int {
    v / least_factor(v)
}

pub open spec fn contains_num(s: Seq<usize>, x: int) -> bool {
    exists|k: int| 0 <= k < s.len() && s[k] == x
}

pub open spec fn strictly_increasing(s: Seq<usize>) -> bool {
    forall|a: int, b: int| 0 <= a < b < s.len() ==> s[a] < s[b]
}

/// Which slots the linear sieve has filled once the outer pass has handled
/// every number below `d`: slot `v` holds its least factor as soon as `v`
/// itself or the cofactor of `v` has been passed, and `0` before that.
pub open spec fn slot_ok(lpf: Seq<usize>, v: int, d: int) -> bool {
    if v < d || (2 <= cofactor(v) && cofactor(v) < d) {
        lpf[v] == least_factor(v)
    } else {
        lpf[v] == 0
    }
}

/// Basic shape of a number against its least factor.
proof fn lemma_cof(v: int)
    requires
        2 <= v,
    ensures
        2 <= least_factor(v) <= v,
        1 <= cofactor(v) < v,
        least_factor(v) * cofactor(v) == v,
        cofactor(v) == 1 <==> least_factor(v) == v,
        v % least_factor(v) == 0,
{
    lemma_least_factor(v);
    lemma_factor_pair(v, least_factor(v));
}

/// `p <= n / d` is the overflow-free version of `p * d <= n`.
proof fn lemma_div_guard(p: int, d: int, n: int)
    requires
        1 <= d,
        0 <= p,
        0 <= n,
    ensures
        p <= n / d <==> p * d <= n,
{
    lemma_fundamental_div_mod(n, d);
    assert(p <= n / d <==> p * d <= n) by (nonlinear_arith)
        requires n == d * (n / d) + n % d, 0 <= n % d < d, 0 <= p,
    {}
}

/// Linear-time sieve: one pass fills `lpf[v]` with the least prime factor
/// of every `v`, each composite being struck exactly once, and collects the
/// primes in increasing order.
pub struct LinearSieve {
    /// All primes up to the sieve's limit, in increasing order.
    pub primes: Vec<usize>,
    lpf: Vec<usize>,
}

impl LinearSieve {
    /// Largest number the sieve covers.
    pub closed spec fn limit(&self) -> int {
        self.lpf@.len() - 1
    }

    /// The collected primes, as a sequence.
    pub closed spec fn primes_seq(&self) -> Seq<usize> {
        self.primes@
    }

    pub closed spec fn well_formed(&self) -> bool {
        &&& self.lpf@.len() >= 1
        &&& forall|v: int|
            2 <= v < self.lpf@.len() ==> is_least_factor(v, #[trigger] self.lpf@[v] as int)
    }

    /// Builds the sieve for numbers up to `n_max` inclusive.
    pub fn new(n_max: usize) -> (s: Self)
        requires
            n_max <= 0x3fff_ffff,
        ensures
            s.well_formed(),
            s.limit() == n_max,
            strictly_increasing(s.primes_seq()),
            forall|k: int|
                0 <= k < s.primes_seq().len() ==> spec_prime(#[trigger] s.primes_seq()[k] as int)
                    && s.primes_seq()[k] <= n_max,
            forall|q: int| 2 <= q <= n_max && spec_prime(q) ==> contains_num(s.primes_seq(), q),
    {
        let mut primes: Vec<usize> = Vec::new();
        let mut lpf: Vec<usize> = Vec::new();
        while lpf.len() < n_max + 1
            invariant
                n_max <= 0x3fff_ffff,
                lpf@.len() <= n_max + 1,
                forall|v: int| 0 <= v < lpf@.len() ==> #[trigger] lpf@[v] == 0usize,
            decreases n_max + 1 - lpf@.len(),
        {
            lpf.push(0);
        }
        let mut d: usize = 2;
        while d <= n_max
            invariant
                2 <= d,
                d <= n_max + 1 || d == 2,
                n_max <= 0x3fff_ffff,
                lpf@.len() == n_max + 1,
                forall|v: int| 2 <= v <= n_max ==> #[trigger] slot_ok(lpf@, v, d as int),
                strictly_increasing(primes@),
                forall|k: int|
                    0 <= k < primes@.len() ==> spec_prime(#[trigger] primes@[k] as int)
                        && 2 <= primes@[k] < d,
                forall|q: int| 2 <= q < d && spec_prime(q) ==> contains_num(primes@, q),
            decreases n_max + 1 - d,
        {
            let ghost lpf_entry = lpf@;
            proof {
                lemma_cof(d as int);
            }
            if lpf[d] == 0 {
                proof {
                    assert(slot_ok(lpf@, d as int, d as int));
                    assert(spec_prime(d as int)) by {
                        if cofactor(d as int) >= 2 {
                            assert(lpf@[d as int] == least_factor(d as int));
                        }
                        assert(cofactor(d as int) == 1);
                        assert(least_factor(d as int) == d as int);
                        lemma_least_factor(d as int);
                        lemma_least_factor_prime(d as int, d as int);
                    }
                }
                lpf[d] = d;
                let ghost primes0 = primes@;
                primes.push(d);
                proof {
                    assert(least_factor(d as int) == d as int);
                    assert forall|q: int| 2 <= q < d + 1 && spec_prime(q) implies contains_num(
                        primes@,
                        q,
                    ) by {
                        if q < d {
                            let k = choose|k: int| 0 <= k < primes0.len() && primes0[k] == q;
                            assert(primes@[k] == q);
                        } else {
                            assert(primes@[primes@.len() - 1] == q);
                        }
                    }
                }
            } else {
                proof {
                    assert(slot_ok(lpf@, d as int, d as int));
                    assert(lpf@[d as int] == least_factor(d as int));
                    assert(!spec_prime(d as int)) by {
                        if spec_prime(d as int) {
                            // a prime's slot can only be filled by its own pass
                            assert(forall|e: int|
                                2 <= e < d ==> #[trigger] ((d as int) % e) != 0);
                            if cofactor(d as int) >= 2 {
                                lemma_cof(d as int);
                                assert((d as int) % least_factor(d as int) == 0);
                                assert(least_factor(d as int) == d as int);
                            }
                        }
                    }
                    assert forall|q: int| 2 <= q < d + 1 && spec_prime(q) implies contains_num(
                        primes@,
                        q,
                    ) by {}
                }
            }
            let lpf_d = lpf[d];
            proof {
                assert(lpf@[d as int] == least_factor(d as int));
                assert(spec_prime(2));
                assert(contains_num(primes@, 2));
                assert(primes@.len() > 0);
                assert(primes@[0] == 2usize) by {
                    let kf = choose|kf: int| 0 <= kf < primes@.len() && primes@[kf] == 2usize;
                    if kf > 0 {
                        assert(primes@[0] < primes@[kf]);
                    }
                }
                assert forall|v: int|
                    2 <= v <= n_max && v != d && cofactor(v) == d && (0 == primes@.len()
                        || least_factor(v) < primes@[0]) implies #[trigger] lpf@[v]
                    == least_factor(v) by {
                    lemma_cof(v);
                }
                assert forall|v: int|
                    2 <= v <= n_max && v != d && !(cofactor(v) == d && (0 == primes@.len()
                        || least_factor(v) < primes@[0])) implies #[trigger] slot_ok(
                    lpf@,
                    v,
                    d as int,
                ) by {
                    assert(slot_ok(lpf_entry, v, d as int));
                }
            }
            let mut k: usize = 0;
            while k < primes.len()
                invariant
                    2 <= d <= n_max,
                    n_max <= 0x3fff_ffff,
                    lpf@.len() == n_max + 1,
                    k <= primes@.len(),
                    lpf_d as int == least_factor(d as int),
                    lpf@[d as int] == least_factor(d as int),
                    strictly_increasing(primes@),
                    forall|j: int|
                        0 <= j < primes@.len() ==> spec_prime(#[trigger] primes@[j] as int)
                            && 2 <= primes@[j] < d + 1,
                    forall|q: int| 2 <= q < d + 1 && spec_prime(q) ==> contains_num(primes@, q),
                    forall|v: int|
                        2 <= v <= n_max && v != d && cofactor(v) == d && (k == primes@.len()
                            || least_factor(v) < primes@[k as int]) ==> #[trigger] lpf@[v]
                            == least_factor(v),
                    forall|v: int|
                        2 <= v <= n_max && v != d && !(cofactor(v) == d && (k == primes@.len()
                            || least_factor(v) < primes@[k as int])) ==> #[trigger] slot_ok(
                            lpf@,
                            v,
                            d as int,
                        ),
                ensures
                    lpf@.len() == n_max + 1,
                    lpf@[d as int] == least_factor(d as int),
                    forall|v: int|
                        2 <= v <= n_max && v != d && cofactor(v) == d ==> #[trigger] lpf@[v]
                            == least_factor(v),
                    forall|v: int|
                        2 <= v <= n_max && v != d && cofactor(v) != d ==> #[trigger] slot_ok(
                            lpf@,
                            v,
                            d as int,
                        ),
                decreases primes@.len() - k,
            {
                let p = primes[k];
                if p > lpf_d || p > n_max / d {
                    proof {
                        lemma_div_guard(p as int, d as int, n_max as int);
                        assert forall|v: int|
                            2 <= v <= n_max && v != d && cofactor(v) == d implies #[trigger] lpf@[v]
                            == least_factor(v) by {
                            lemma_cof(v);
                            crate::math::primality::lemma_least_factor(v);
                            let f = least_factor(v);
                            assert(v % (d as int) == 0) by {
                                lemma_multiple_divides(f, d as int);
                                assert(f * (d as int) == v);
                            }
                            assert(f <= least_factor(d as int)) by {
                                lemma_cof(d as int);
                                lemma_divides_trans(least_factor(d as int), d as int, v);
                                if f > least_factor(d as int) {
                                    assert((v % least_factor(d as int)) != 0);
                                }
                            }
                            assert(f < p) by {
                                if p > lpf_d {
                                } else {
                                    assert(p as int * d as int > n_max);
                                    assert(f * d as int <= n_max) by (nonlinear_arith)
                                        requires
                                            f * cofactor(v) == v,
                                            cofactor(v) == d as int,
                                            v <= n_max,
                                    {}
                                    assert(f < p) by (nonlinear_arith)
                                        requires
                                            f * (d as int) <= n_max,
                                            (p as int) * (d as int) > n_max,
                                            1 <= d,
                                    {}
                                }
                            }
                        }
                    }
                    break ;
                }
                proof {
                    lemma_div_guard(p as int, d as int, n_max as int);
                    assert((p as int) * (d as int) <= n_max);
                }
                let v0 = p * d;
                proof {
                    assert(v0 <= n_max);
                    assert(spec_prime(p as int));
                    crate::math::primality::lemma_least_factor(d as int);
                    assert forall|e: int| 2 <= e < p implies #[trigger] ((d as int) % e) != 0 by {
                        assert(no_small_factor(d as int, least_factor(d as int)));
                    }
                    lemma_least_factor_of_product(p as int, d as int);
                    lemma_least_factor_unique(p as int * d as int, p as int);
                    assert(least_factor(v0 as int) == p as int);
                    assert(cofactor(v0 as int) == d as int) by {
                        lemma_factor_pair(v0 as int, p as int);
                        assert(p as int * (v0 as int / p as int) == v0 as int);
                        assert(v0 as int / p as int == d as int) by (nonlinear_arith)
                            requires
                                (p as int) * (v0 as int / p as int) == v0 as int,
                                (p as int) * (d as int) == v0 as int,
                                1 <= p,
                        {}
                    }
                    assert(v0 != d) by (nonlinear_arith)
                        requires (p as int) * (d as int) == v0 as int, 2 <= p, 2 <= d,
                    {}
                }
                let ghost lpf0 = lpf@;
                lpf[v0] = p;
                k += 1;
                proof {
                    assert forall|v: int|
                        2 <= v <= n_max && v != d && cofactor(v) == d && (k == primes@.len()
                            || least_factor(v) < primes@[k as int]) implies #[trigger] lpf@[v]
                        == least_factor(v) by {
                        if v == v0 {
                        } else {
                            lemma_cof(v);
                            let f = least_factor(v);
                            assert(f != p) by {
                                if f == p {
                                    assert(v == v0) by (nonlinear_arith)
                                        requires
                                            f * cofactor(v) == v,
                                            cofactor(v) == d as int,
                                            (p as int) * (d as int) == v0 as int,
                                            f == p as int,
                                    {}
                                }
                            }
                            if f < p {
                                assert(lpf0[v] == least_factor(v));
                            } else {
                                // f would be a prime missing from the collected list
                                assert(f > p);
                                crate::math::primality::lemma_least_factor(v);
                                lemma_least_factor_prime(v, f);
                                assert(v % (d as int) == 0) by {
                                    lemma_multiple_divides(f, d as int);
                                    assert(f * (d as int) == v);
                                }
                                assert(f <= least_factor(d as int)) by {
                                    lemma_cof(d as int);
                                    lemma_divides_trans(least_factor(d as int), d as int, v);
                                    if f > least_factor(d as int) {
                                        assert((v % least_factor(d as int)) != 0);
                                    }
                                }
                                assert(f < d + 1);
                                assert(contains_num(primes@, f));
                                let kf = choose|kf: int|
                                    0 <= kf < primes@.len() && primes@[kf] == f;
                                assert(primes@[k - 1] == p);
                                if kf <= k - 1 {
                                    assert(primes@[kf] <= primes@[k - 1]);
                                } else if k < primes@.len() {
                                    assert(primes@[kf] >= primes@[k as int]);
                                } else {
                                    assert(kf <= k - 1);
                                }
                            }
                        }
                    }
                    assert forall|v: int|
                        2 <= v <= n_max && v != d && !(cofactor(v) == d && (k == primes@.len()
                            || least_factor(v) < primes@[k as int])) implies #[trigger] slot_ok(
                        lpf@,
                        v,
                        d as int,
                    ) by {
                        if v == v0 {
                            assert(cofactor(v0 as int) == d as int);
                            if k < primes@.len() {
                                assert(primes@[k - 1] == p);
                                assert(primes@[k - 1] < primes@[k as int]);
                            }
                        } else {
                            assert(slot_ok(lpf0, v, d as int));
                        }
                    }
                }
            }
            proof {
                assert forall|v: int| 2 <= v <= n_max implies #[trigger] slot_ok(
                    lpf@,
                    v,
                    d as int + 1,
                ) by {
                    lemma_cof(v);
                    if v == d {
                        assert(lpf@[v] == least_factor(v));
                    } else if cofactor(v) == d {
                        assert(lpf@[v] == least_factor(v));
                        assert(2 <= cofactor(v) && cofactor(v) < d + 1);
                    } else {
                        assert(slot_ok(lpf@, v, d as int));
                        assert(v < d || (2 <= cofactor(v) && cofactor(v) < d) <==> (v < d + 1 && v
                            != d) || (2 <= cofactor(v) && cofactor(v) < d + 1 && cofactor(v) != d));
                    }
                }
            }
            d += 1;
        }
        let s = LinearSieve { primes, lpf };
        proof {
            assert forall|v: int| 2 <= v < s.lpf@.len() implies is_least_factor(
                v,
                #[trigger] s.lpf@[v] as int,
            ) by {
                assert(slot_ok(s.lpf@, v, d as int));
                lemma_least_factor(v);
            }
        }
        s
    }

    /// Whether `n` is prime; `n` must not exceed the sieve's limit.
    pub fn is_prime(&self, n: usize) -> (r: bool)
        requires
            self.well_formed(),
            n <= self.limit(),
        ensures
            r == spec_prime(n as int),
    {
        let r = n > 1 && self.lpf[n] == n;
        proof {
            if n >= 2 {
                if self.lpf@[n as int] == n {
                } else {
                    assert(is_least_factor(n as int, self.lpf@[n as int] as int));
                    assert(!spec_prime(n as int)) by {
                        assert((n as int) % (self.lpf@[n as int] as int) == 0);
                    }
                }
            }
        }
        r
    }

    /// The prime factors of `n` in nondecreasing order, with multiplicity:
    /// their product is `n` (a number below `2` has none).
    pub fn factorize(&self, n: usize) -> (res: Vec<usize>)
        requires
            self.well_formed(),
            n <= self.limit(),
        ensures
            n < 2 ==> res@.len() == 0,
            n >= 2 ==> product(res@) == n,
            nondecreasing(res@),
            forall|k: int| 0 <= k < res@.len() ==> spec_prime(#[trigger] res@[k] as int),
    {
        if n < 2 {
            let res: Vec<usize> = Vec::new();
            return res;
        }
        let mut res: Vec<usize> = Vec::new();
        let mut i = n;
        while !self.is_prime(i)
            invariant
                self.well_formed(),
                2 <= i <= n,
                n <= self.limit(),
                product(res@) * i == n,
                nondecreasing(res@),
                forall|k: int| 0 <= k < res@.len() ==> spec_prime(#[trigger] res@[k] as int),
                res@.len() > 0 ==> no_small_factor(i as int, res@.last() as int),
            decreases i,
        {
            let f = self.lpf[i];
            proof {
                assert(is_least_factor(i as int, f as int));
                lemma_least_factor_prime(i as int, f as int);
                lemma_factor_pair(i as int, f as int);
                if res@.len() > 0 && res@.last() > f {
                    assert((i as int) % (f as int) != 0);
                }
                assert(res@.push(f).drop_last() =~= res@);
                let i2 = i as int / f as int;
                assert(product(res@.push(f)) * i2 == n) by (nonlinear_arith)
                    requires
                        product(res@.push(f)) == product(res@) * f,
                        product(res@) * (i as int) == n,
                        (f as int) * i2 == i as int,
                {}
                assert(i2 >= 2) by {
                    assert(!spec_prime(i as int));
                    if i2 == 1 {
                        assert(f == i);
                        assert(no_small_factor(i as int, i as int));
                    }
                }
                assert forall|e: int| 2 <= e < f implies #[trigger] (i2 % e) != 0 by {
                    if i2 % e == 0 {
                        lemma_divides_trans(e, i2, i as int);
                    }
                }
            }
            res.push(f);
            i = i / f;
        }
        proof {
            if res@.len() > 0 && res@.last() > i {
                assert((i as int) % (i as int) == 0);
            }
            assert(res@.push(i).drop_last() =~= res@);
            assert(product(res@) * (i as int) == product(res@.push(i)));
        }
        res.push(i);
        res
    }
}

} // verus!
