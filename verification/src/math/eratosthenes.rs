use vstd::prelude::*;
use crate::math::primality::{
    no_small_factor, spec_prime, is_least_factor, product, nondecreasing, lemma_divides_trans,
    lemma_factor_pair, lemma_least_factor_prime, lemma_multiple_step,
};

verus! {

/// What a sieve slot may hold midway: either `v` has no factor below
/// `bound` and still holds itself, or it already holds its least factor,
/// which lies below `bound`.
pub open spec fn lpf_cond(lpf: Seq<usize>, v: int, bound: int) -> bool {
    ||| (no_small_factor(v, bound) && lpf[v] == v)
    ||| (lpf[v] < bound && is_least_factor(v, lpf[v] as int))
}

/// Sieve of Eratosthenes: `lpf[v]` is the least prime factor of `v`, found
/// by striking multiples of each prime from its square upward.
pub struct Eratosthenes {
    lpf: Vec<usize>,
}

impl Eratosthenes {
    /// Largest number the sieve covers.
    pub closed spec fn limit(&self) -> int {
        self.lpf@.len() - 1
    }

    pub closed spec fn well_formed(&self) -> bool {
        &&& self.lpf@.len() >= 1
        &&& forall|v: int|
            2 <= v < self.lpf@.len() ==> is_least_factor(v, #[trigger] self.lpf@[v] as int)
    }

    /// Builds the sieve for numbers up to `n_max` inclusive.
    pub fn new(n_max: usize) -> (s: Self)
        requires
            n_max <= 0x3fff_ffff,
        ensures
            s.well_formed(),
            s.limit() == n_max,
    {
        let mut lpf: Vec<usize> = Vec::new();
        while lpf.len() < n_max + 1
            invariant
                n_max <= 0x3fff_ffff,
                lpf@.len() <= n_max + 1,
                forall|k: int| 0 <= k < lpf@.len() ==> #[trigger] lpf@[k] as int == k,
            decreases n_max + 1 - lpf@.len(),
        {
            let v = lpf.len();
            lpf.push(v);
        }
        let mut i: usize = 2;
        while i * i <= n_max
            invariant
                2 <= i,
                n_max <= 0x3fff_ffff,
                i == 2 || (i - 1) * (i - 1) <= n_max,
                i <= 0x8000,
                i * i <= 0x4000_0000,
                lpf@.len() == n_max + 1,
                forall|v: int| 2 <= v <= n_max ==> #[trigger] lpf_cond(lpf@, v, i as int),
            decreases n_max + 1 - i,
        {
            proof {
                assert(i <= n_max) by (nonlinear_arith)
                    requires i * i <= n_max, 2 <= i,
                {}
            }
            if lpf[i] == i {
                let mut j = i * i;
                proof {
                    crate::math::primality::lemma_multiple_divides(i as int, i as int);
                }
                while j <= n_max
                    invariant
                        2 <= i <= 0x8000,
                        n_max <= 0x3fff_ffff,
                        i * i <= n_max,
                        i * i <= j,
                        j % i == 0,
                        lpf@.len() == n_max + 1,
                        forall|v: int|
                            2 <= v <= n_max && !(v % (i as int) == 0 && i * i <= v < j)
                                ==> #[trigger] lpf_cond(lpf@, v, i as int),
                        forall|v: int|
                            2 <= v <= n_max && v % (i as int) == 0 && i * i <= v < j
                                ==> #[trigger] lpf_cond(lpf@, v, i as int + 1),
                    decreases n_max + i - j,
                {
                    let ghost old_lpf = lpf@;
                    let cur = lpf[j];
                    if i < cur {
                        lpf[j] = i;
                    }
                    proof {
                        assert(i < i * i) by (nonlinear_arith)
                            requires 2 <= i,
                        {}
                        assert(lpf_cond(lpf@, j as int, i as int + 1)) by {
                            assert(lpf_cond(old_lpf, j as int, i as int));
                        }
                        assert forall|v: int|
                            2 <= v <= n_max && !(v % (i as int) == 0 && i * i <= v < j + i)
                                implies #[trigger] lpf_cond(lpf@, v, i as int) by {
                            assert(lpf_cond(old_lpf, v, i as int));
                        }
                        assert forall|v: int|
                            2 <= v <= n_max && v % (i as int) == 0 && i * i <= v < j + i
                                implies #[trigger] lpf_cond(lpf@, v, i as int + 1) by {
                            if v < j {
                                assert(lpf_cond(old_lpf, v, i as int + 1));
                            } else {
                                // only j itself is a new multiple of i in [j, j + i)
                                assert(v == j) by {
                                    if v != j {
                                        lemma_factor_pair(v, i as int);
                                        lemma_factor_pair(j as int, i as int);
                                        assert(false) by (nonlinear_arith)
                                            requires
                                                (i as int) * (v / (i as int)) == v,
                                                (i as int) * ((j as int) / (i as int)) == j
                                                    as int,
                                                j <= v < j + i,
                                                v != j,
                                                2 <= i,
                                        {}
                                    }
                                }
                            }
                        }
                        lemma_multiple_step(i as int, j as int);
                    }
                    j += i;
                }
                proof {
                    assert forall|v: int| 2 <= v <= n_max implies #[trigger] lpf_cond(
                        lpf@,
                        v,
                        i as int + 1,
                    ) by {
                        lemma_extend(lpf@, v, i as int, n_max as int, j as int);
                    }
                }
            } else {
                proof {
                    assert forall|v: int| 2 <= v <= n_max implies #[trigger] lpf_cond(
                        lpf@,
                        v,
                        i as int + 1,
                    ) by {
                        lemma_extend_composite(lpf@, v, i as int, n_max as int);
                    }
                }
            }
            proof {
                assert((i - 1 + 1) * (i - 1 + 1) == i * i);
                assert(i < 0x8000) by (nonlinear_arith)
                    requires i * i <= n_max, n_max <= 0x3fff_ffff, 2 <= i,
                {}
                assert((i + 1) * (i + 1) <= 0x4000_0000) by (nonlinear_arith)
                    requires i + 1 <= 0x8000, 0 <= i,
                {}
            }
            i += 1;
        }
        let s = Eratosthenes { lpf };
        proof {
            assert forall|v: int| 2 <= v < s.lpf@.len() implies is_least_factor(
                v,
                #[trigger] s.lpf@[v] as int,
            ) by {
                assert(lpf_cond(s.lpf@, v, i as int));
                lemma_settled(s.lpf@, v, i as int);
            }
        }
        s
    }

    /// Whether `n` is prime; `n` must not exceed the sieve's limit.
    pub fn is_prime(&self, n: usize) -> (r: bool)
        requires
            self.well_formed(),
            n <= self.limit(),
        ensures
            r == spec_prime(n as int),
    {
        let r = n > 1 && self.lpf[n] == n;
        proof {
            if n >= 2 {
                if self.lpf@[n as int] == n {
                } else {
                    assert(is_least_factor(n as int, self.lpf@[n as int] as int));
                    assert(!spec_prime(n as int)) by {
                        assert((n as int) % (self.lpf@[n as int] as int) == 0);
                    }
                }
            }
        }
        r
    }

    /// The prime factors of `n` in nondecreasing order, with multiplicity:
    /// their product is `n` (a number below `2` has none).
    pub fn factorize(&self, n: usize) -> (res: Vec<usize>)
        requires
            self.well_formed(),
            n <= self.limit(),
        ensures
            n < 2 ==> res@.len() == 0,
            n >= 2 ==> product(res@) == n,
            nondecreasing(res@),
            forall|k: int| 0 <= k < res@.len() ==> spec_prime(#[trigger] res@[k] as int),
    {
        if n < 2 {
            let res: Vec<usize> = Vec::new();
            return res;
        }
        let mut res: Vec<usize> = Vec::new();
        let mut i = n;
        while !self.is_prime(i)
            invariant
                self.well_formed(),
                2 <= i <= n,
                n <= self.limit(),
                product(res@) * i == n,
                nondecreasing(res@),
                forall|k: int| 0 <= k < res@.len() ==> spec_prime(#[trigger] res@[k] as int),
                res@.len() > 0 ==> no_small_factor(i as int, res@.last() as int),
            decreases i,
        {
            let f = self.lpf[i];
            proof {
                assert(is_least_factor(i as int, f as int));
                lemma_least_factor_prime(i as int, f as int);
                lemma_factor_pair(i as int, f as int);
                if res@.len() > 0 && res@.last() > f {
                    assert((i as int) % (f as int) != 0);
                }
                assert(res@.push(f).drop_last() =~= res@);
                let i2 = i as int / f as int;
                assert(product(res@.push(f)) * i2 == n) by (nonlinear_arith)
                    requires
                        product(res@.push(f)) == product(res@) * f,
                        product(res@) * (i as int) == n,
                        (f as int) * i2 == i as int,
                {}
                assert(i2 >= 2) by {
                    assert(!spec_prime(i as int));
                    if i2 == 1 {
                        assert(f == i);
                        assert(no_small_factor(i as int, i as int));
                    }
                }
                assert forall|d: int| 2 <= d < f implies #[trigger] (i2 % d) != 0 by {
                    if i2 % d == 0 {
                        lemma_divides_trans(d, i2, i as int);
                    }
                }
            }
            res.push(f);
            i = i / f;
        }
        proof {
            if res@.len() > 0 && res@.last() > i {
                assert((i as int) % (i as int) == 0);
            }
            assert(res@.push(i).drop_last() =~= res@);
            assert(product(res@) * (i as int) == product(res@.push(i)));
        }
        res.push(i);
        res
    }
}

/// After the inner pass for a prime `i`, every slot is settled one bound
/// further.
proof fn lemma_extend(lpf: Seq<usize>, v: int, i: int, n_max: int, j: int)
    requires
        2 <= i,
        2 <= v <= n_max,
        n_max < lpf.len(),
        i * i <= n_max,
        j > n_max,
        v % i == 0 && i * i <= v < j ==> lpf_cond(lpf, v, i + 1),
        !(v % i == 0 && i * i <= v < j) ==> lpf_cond(lpf, v, i),
    ensures
        lpf_cond(lpf, v, i + 1),
{
    if v % i == 0 && i * i <= v {
    } else if lpf[v] < i && is_least_factor(v, lpf[v] as int) {
    } else {
        assert(no_small_factor(v, i) && lpf[v] == v);
        if v % i != 0 {
            assert(no_small_factor(v, i + 1));
        } else {
            // v is a small multiple of i: v == i * m with m < i
            lemma_factor_pair(v, i);
            let m = v / i;
            if m == 1 {
                assert(v == i);
                assert(is_least_factor(v, v));
            } else {
                assert(2 <= m);
                assert(m < i) by (nonlinear_arith)
                    requires i * m == v, v < i * i, 2 <= i, 1 <= m,
                {}
                assert(v % m == 0);
                assert(false);
            }
        }
    }
}

/// A composite `i` strikes nothing: its own least factor already rules its
/// multiples out of the first case.
proof fn lemma_extend_composite(lpf: Seq<usize>, v: int, i: int, n_max: int)
    requires
        2 <= i,
        2 <= v <= n_max,
        n_max < lpf.len(),
        i <= n_max,
        lpf[i] != i,
        lpf_cond(lpf, i, i),
        lpf_cond(lpf, v, i),
    ensures
        lpf_cond(lpf, v, i + 1),
{
    if lpf[v] < i && is_least_factor(v, lpf[v] as int) {
    } else {
        assert(no_small_factor(v, i) && lpf[v] == v);
        if v % i != 0 {
            assert(no_small_factor(v, i + 1));
        } else {
            assert(lpf[i] < i && is_least_factor(i, lpf[i] as int));
            if v == i {
                assert(false);
            } else {
                lemma_divides_trans(lpf[i] as int, i, v);
                assert(v % (lpf[i] as int) == 0);
                assert(false);
            }
        }
    }
}

/// Once the pass bound has crossed the square root of the limit, a slot
/// still holding itself really has no factor at all.
proof fn lemma_settled(lpf: Seq<usize>, v: int, i: int)
    requires
        2 <= v < lpf.len(),
        2 <= i,
        i * i > v,
        lpf_cond(lpf, v, i),
    ensures
        is_least_factor(v, lpf[v] as int),
{
    if no_small_factor(v, i) && lpf[v] == v {
        assert forall|d: int| 2 <= d < v implies #[trigger] (v % d) != 0 by {
            if v % d == 0 {
                lemma_factor_pair(v, d);
                let c = v / d;
                assert(2 <= c) by {
                    if c == 1 {
                        assert(d == v);
                    }
                }
                if d < i {
                } else {
                    assert(c < i) by (nonlinear_arith)
                        requires d * c == v, v < i * i, d >= i, 1 <= c, 2 <= i,
                    {}
                    assert(v % c == 0);
                }
            }
        }
    }
}

} // verus!
