use vstd::prelude::*;
use crate::math::primality::spec_prime;
use vstd::arithmetic::div_mod::{
    lemma_fundamental_div_mod, lemma_fundamental_div_mod_converse, lemma_mul_mod_noop,
    lemma_mul_mod_noop_left, lemma_small_mod,
};

verus! {

/// The factorial of `n`.
pub open spec fn fact_spec(n: nat) -> int
    decreases n,
{
    if n == 0 {
        1
    } else {
        n * fact_spec((n - 1) as nat)
    }
}

/// Counting helper over a prime modulus: factorials and inverse factorials
/// up to a fixed bound, giving permutation and binomial counts modulo `p`.
/// Every result `r` is pinned down by a congruence: multiplying `r` back by
/// the factorials that were divided out recovers the plain factorial, and
/// `r` is the unique such value below `p` (`lemma_congruence_unique`).
pub struct Enumerator {
    fact: Vec<usize>,
    finv: Vec<usize>,
    n: usize,
    p: usize,
}

/// `(a * i) % p == 1`: `a` inverts `i` modulo `p`.
pub open spec fn is_inverse(p: int, a: int, i: int) -> bool {
    (a * i) % p == 1
}

/// The recurrence `inv(i) = p - inv(p % i) * (p / i) % p` really produces an
/// inverse of `i`, given an inverse of `p % i`.
proof fn lemma_inv_step(p: int, i: int, a: int, x: int)
    requires
        spec_prime(p),
        2 <= i < p,
        0 <= a,
        is_inverse(p, a, p % i),
        x == (a * (p / i)) % p,
    ensures
        is_inverse(p, p - x, i),
        1 <= x < p,
{
    let r = p % i;
    let q = p / i;
    lemma_fundamental_div_mod(p, i);
    lemma_fundamental_div_mod(a * r, p);
    lemma_fundamental_div_mod(a * q, p);
    let t = (a * r) / p;
    let s = (a * q) / p;
    assert((p - x) * i == p * (i - a + t + s * i) + 1) by (nonlinear_arith)
        requires
            p == i * q + r,
            a * r == p * t + 1,
            a * q == p * s + x,
    {}
    lemma_fundamental_div_mod_converse((p - x) * i, p, i - a + t + s * i, 1);
    assert(0 <= x < p);
    if x == 0 {
        assert((p * i) % p == 0) by {
            crate::math::primality::lemma_multiple_divides(i, p);
        }
    }
}

/// Products of congruent pairs stay congruent: the step that extends the
/// factorial and inverse-factorial tables in lock step.
proof fn lemma_product_pair(p: int, ff: int, fv: int, i: int, v: int)
    requires
        2 <= p,
        0 <= ff,
        0 <= fv,
        0 <= i,
        0 <= v,
        (ff * fv) % p == 1,
        (v * i) % p == 1,
    ensures
        (((ff * i) % p) * ((fv * v) % p)) % p == 1,
{
    lemma_mul_mod_noop(ff * i, fv * v, p);
    assert((ff * i) * (fv * v) == (ff * fv) * (i * v)) by (nonlinear_arith) {}
    lemma_mul_mod_noop(ff * fv, i * v, p);
    assert(i * v == v * i);
    lemma_small_mod(1, p as nat);
}

/// A congruence `r * c == v (mod p)` with an invertible `c` has exactly one
/// solution below `p`: the contracts of `permutate` and `binomial` pin
/// their results completely.
pub proof fn lemma_congruence_unique(p: int, c: int, d: int, r1: int, r2: int)
    requires
        2 <= p,
        0 <= c,
        0 <= d,
        0 <= r1 < p,
        0 <= r2 < p,
        (c * d) % p == 1,
        (r1 * c) % p == (r2 * c) % p,
    ensures
        r1 == r2,
{
    lemma_same_after_inverse(p, c, d, r1);
    lemma_same_after_inverse(p, c, d, r2);
    lemma_mul_mod_noop_left(r1 * c, d, p);
    lemma_mul_mod_noop_left(r2 * c, d, p);
}

/// Multiplying by `c` and then by its inverse `d` gives the value back,
/// modulo `p`.
proof fn lemma_same_after_inverse(p: int, c: int, d: int, r: int)
    requires
        2 <= p,
        0 <= c,
        0 <= d,
        0 <= r < p,
        (c * d) % p == 1,
    ensures
        ((r * c) % p * d) % p == r,
{
    lemma_mul_mod_noop_left(r * c, d, p);
    assert((r * c) * d == r * (c * d)) by (nonlinear_arith) {}
    lemma_mul_mod_noop(r as int, c * d, p);
    lemma_small_mod(r as nat, p as nat);
    lemma_small_mod(1, p as nat);
    vstd::arithmetic::div_mod::lemma_mod_twice(r, p);
}

impl Enumerator {
    /// Largest argument the tables cover.
    pub closed spec fn limit(&self) -> int {
        self.n as int - 1
    }

    /// The (prime) modulus.
    pub closed spec fn modulus(&self) -> int {
        self.p as int
    }

    pub closed spec fn well_formed(&self) -> bool {
        &&& 2 <= self.p
        &&& spec_prime(self.p as int)
        &&& self.fact@.len() == self.n
        &&& self.finv@.len() == self.n
        &&& 1 <= self.n <= self.p
        &&& (self.p as int) * (self.p as int) <= usize::MAX as int
        &&& forall|j: int|
            0 <= j < self.n ==> (#[trigger] self.fact@[j] as int) == fact_spec(j as nat) % (
            self.p as int)
        &&& forall|j: int| 0 <= j < self.n ==> #[trigger] self.fact@[j] < self.p
        &&& forall|j: int| 0 <= j < self.n ==> #[trigger] self.finv@[j] < self.p
        &&& forall|j: int|
            0 <= j < self.n ==> ((#[trigger] self.fact@[j] as int) * (self.finv@[j] as int)) % (
            self.p as int) == 1
    }

    fn init(&mut self)
        requires
            2 <= old(self).p,
            spec_prime(old(self).p as int),
            old(self).fact@.len() == old(self).n,
            old(self).finv@.len() == old(self).n,
            1 <= old(self).n <= old(self).p,
            (old(self).p as int) * (old(self).p as int) <= usize::MAX as int,
        ensures
            final(self).well_formed(),
            final(self).n == old(self).n,
            final(self).p == old(self).p,
            final(self).limit() == old(self).limit(),
            final(self).modulus() == old(self).modulus(),
    {
        let n = self.n;
        let p = self.p;
        self.fact[0] = 1;
        self.finv[0] = 1;
        proof {
            lemma_small_mod(1, p as nat);
        }
        if n == 1 {
            return ;
        }
        let mut invs: Vec<usize> = Vec::new();
        while invs.len() < n
            invariant
                invs@.len() <= n,
            decreases n - invs@.len(),
        {
            invs.push(0);
        }
        self.fact[1] = 1;
        self.finv[1] = 1;
        invs[1] = 1;
        proof {
            assert(fact_spec(0) == 1);
            assert(fact_spec(1) == 1 * fact_spec(0));
            lemma_small_mod(1, p as nat);
        }
        let mut i: usize = 2;
        while i < n
            invariant
                2 <= i <= n,
                n == self.n,
                p == self.p,
                2 <= p,
                n <= p,
                spec_prime(p as int),
                (p as int) * (p as int) <= usize::MAX as int,
                self.fact@.len() == n,
                self.finv@.len() == n,
                invs@.len() == n,
                forall|j: int|
                    0 <= j < i ==> (#[trigger] self.fact@[j] as int) == fact_spec(j as nat) % (
                    p as int),
                forall|j: int| 0 <= j < i ==> #[trigger] self.fact@[j] < p,
                forall|j: int| 0 <= j < i ==> #[trigger] self.finv@[j] < p,
                forall|j: int|
                    0 <= j < i ==> ((#[trigger] self.fact@[j] as int) * (self.finv@[j] as int)) % (
                    p as int) == 1,
                forall|j: int|
                    1 <= j < i ==> 1 <= (#[trigger] invs@[j] as int) < p && is_inverse(
                        p as int,
                        invs@[j] as int,
                        j,
                    ),
            decreases n - i,
        {
            let fprev = self.fact[i - 1];
            proof {
                assert((fprev as int) * (i as int) < (p as int) * (p as int)) by (nonlinear_arith)
                    requires fprev < p, i < p, 0 <= fprev, 2 <= p,
                {}
            }
            let fi = (fprev * i) % p;
            self.fact[i] = fi;
            let r = p % i;
            proof {
                assert((p as int) % (i as int) != 0);
                assert(1 <= r < i);
            }
            let a = invs[r];
            proof {
                assert(1 <= (invs@[r as int] as int) < p && is_inverse(
                    p as int,
                    invs@[r as int] as int,
                    r as int,
                ));
                lemma_fundamental_div_mod(p as int, i as int);
                assert((p as int) / (i as int) <= p) by (nonlinear_arith)
                    requires
                        p as int == (i as int) * ((p as int) / (i as int)) + (p as int) % (i as int),
                        2 <= i,
                        0 <= (p as int) % (i as int),
                        0 <= (p as int) / (i as int),
                {}
                assert((a as int) * ((p as int) / (i as int)) < (p as int) * (p as int) + 1)
                    by (nonlinear_arith)
                    requires
                        0 <= a < p,
                        0 <= (p as int) / (i as int) <= p as int,
                {}
            }
            let x = (a * (p / i)) % p;
            let vi = p - x;
            invs[i] = vi;
            let vprev = self.finv[i - 1];
            proof {
                assert((vprev as int) * (vi as int) < (p as int) * (p as int) + 1)
                    by (nonlinear_arith)
                    requires 0 <= vprev < p, 0 <= vi <= p,
                {}
            }
            let fvi = (vprev * vi) % p;
            self.finv[i] = fvi;
            proof {
                lemma_inv_step(p as int, i as int, a as int, x as int);
                assert(is_inverse(p as int, vi as int, i as int));
                // factorial table extends by one step
                assert((fi as int) == fact_spec(i as nat) % (p as int)) by {
                    assert(fprev as int == fact_spec((i - 1) as nat) % (p as int));
                    lemma_mul_mod_noop_left(fact_spec((i - 1) as nat), i as int, p as int);
                    assert(fact_spec(i as nat) == (i as int) * fact_spec((i - 1) as nat));
                    assert(fact_spec((i - 1) as nat) * (i as int) == fact_spec(i as nat))
                        by (nonlinear_arith)
                        requires fact_spec(i as nat) == (i as int) * fact_spec((i - 1) as nat),
                    {}
                }
                lemma_product_pair(p as int, fprev as int, vprev as int, i as int, vi as int);
            }
            i += 1;
        }
    }

    /// Tables for arguments up to `n_max`, modulo the prime `p`.
    pub fn new(n_max: usize, p: usize) -> (e: Enumerator)
        requires
            spec_prime(p as int),
            n_max < p,
            (p as int) * (p as int) <= usize::MAX as int,
        ensures
            e.well_formed(),
            e.limit() == n_max,
            e.modulus() == p,
    {
        let mut fact: Vec<usize> = Vec::new();
        while fact.len() < n_max + 1
            invariant
                fact@.len() <= n_max + 1,
                n_max < usize::MAX,
            decreases n_max + 1 - fact@.len(),
        {
            fact.push(0);
        }
        let mut finv: Vec<usize> = Vec::new();
        while finv.len() < n_max + 1
            invariant
                finv@.len() <= n_max + 1,
                n_max < usize::MAX,
            decreases n_max + 1 - finv@.len(),
        {
            finv.push(0);
        }
        let mut enr = Enumerator { fact, finv, n: n_max + 1, p };
        enr.init();
        enr
    }

    /// `n!` modulo the modulus.
    pub fn factorial(&self, n: usize) -> (r: usize)
        requires
            self.well_formed(),
            n <= self.limit(),
        ensures
            r as int == fact_spec(n as nat) % self.modulus(),
    {
        self.fact[n]
    }

    /// The number of ordered arrangements of `k` out of `n`, modulo the
    /// modulus: the unique `r < p` with `r * (n-k)! == n!` (mod `p`), and
    /// `0` when `k` exceeds `n`.
    pub fn permutate(&self, n: usize, k: usize) -> (r: usize)
        requires
            self.well_formed(),
            k <= n ==> n <= self.limit(),
        ensures
            n < k ==> r == 0,
            k <= n ==> {
                &&& r < self.modulus()
                &&& r != 0
                &&& ((r as int) * fact_spec((n - k) as nat)) % self.modulus() == fact_spec(
                    n as nat,
                ) % self.modulus()
            },
    {
        if n < k {
            return 0;
        }
        let p = self.p;
        let fn_ = self.fact[n];
        let fv = self.finv[n - k];
        proof {
            assert((fn_ as int) * (fv as int) < (p as int) * (p as int)) by (nonlinear_arith)
                requires 0 <= fn_ < p, 0 <= fv < p, 2 <= p,
            {}
        }
        let r = (fn_ * fv) % p;
        proof {
            let p_int = p as int;
            let fnk = fact_spec((n - k) as nat);
            // r * (n-k)! == n! * (finv * fact)[n-k] == n!  (mod p)
            lemma_mul_mod_noop_left((fn_ as int) * (fv as int), fnk, p_int);
            assert(((fn_ as int) * (fv as int)) * fnk == (fn_ as int) * ((fv as int) * fnk))
                by (nonlinear_arith) {}
            lemma_mul_mod_noop(fv as int, fnk, p_int);
            lemma_small_mod(fv as nat, p as nat);
            assert((fv as int) * (fnk % p_int) == (fv as int) * (self.fact@[n - k] as int));
            lemma_mul_mod_noop(fn_ as int, (fv as int) * fnk, p_int);
            lemma_small_mod(fn_ as nat, p as nat);
            assert(((fv as int) * fnk) % p_int == ((fv as int) * (self.fact@[n - k] as int))
                % p_int) by {
                lemma_mul_mod_noop(fv as int, self.fact@[n - k] as int, p_int);
            }
            assert(((fv as int) * (self.fact@[n - k] as int)) % p_int == 1) by {
                let fknk = self.fact@[n - k] as int;
                assert(fknk * (fv as int) == (fv as int) * fknk) by (nonlinear_arith) {}
            }
            lemma_small_mod(1, p as nat);
            assert(((fn_ as int) * 1) % p_int == (fn_ as int) % p_int);
            assert((fn_ as int) % p_int == fact_spec(n as nat) % p_int) by {
                vstd::arithmetic::div_mod::lemma_mod_twice(fact_spec(n as nat), p_int);
            }
            // r is not zero: n! has an inverse modulo the prime p
            if r == 0 {
                assert(((r as int) * fnk) % p_int == 0) by {
                    assert((r as int) * fnk == 0) by (nonlinear_arith)
                        requires r == 0usize,
                    {}
                    vstd::arithmetic::div_mod::lemma_mod_self_0(p_int);
                    lemma_small_mod(0, p as nat);
                }
                assert(fact_spec(n as nat) % p_int != 0) by {
                    let fn_int = fn_ as int;
                    if fn_int == 0 {
                        assert((fn_int * (self.finv@[n as int] as int)) % p_int == 1);
                        assert(fn_int * (self.finv@[n as int] as int) == 0) by (nonlinear_arith)
                            requires fn_int == 0,
                        {}
                        lemma_small_mod(0, p as nat);
                    }
                }
            }
        }
        r
    }

    /// The number of ways to choose `k` out of `n` disregarding order,
    /// modulo the modulus: the unique `r < p` with
    /// `r * k! * (n-k)! == n!` (mod `p`), and `0` when `k` exceeds `n`.
    pub fn binomial(&self, n: usize, k: usize) -> (r: usize)
        requires
            self.well_formed(),
            k <= n ==> n <= self.limit(),
        ensures
            n < k ==> r == 0,
            k <= n ==> {
                &&& r < self.modulus()
                &&& r != 0
                &&& (((r as int) * fact_spec(k as nat)) * fact_spec((n - k) as nat))
                    % self.modulus() == fact_spec(n as nat) % self.modulus()
            },
    {
        let perm = self.permutate(n, k);
        if perm != 0 {
            let p = self.p;
            let fvk = self.finv[k];
            proof {
                assert((perm as int) * (fvk as int) < (p as int) * (p as int)) by (nonlinear_arith)
                    requires 0 <= perm < p, 0 <= fvk < p, 2 <= p,
                {}
            }
            let r = (perm * fvk) % p;
            proof {
                let p_int = p as int;
                let fk = fact_spec(k as nat);
                let fnk = fact_spec((n - k) as nat);
                // r * k! == perm  (mod p), so r * k! * (n-k)! == n!  (mod p)
                lemma_mul_mod_noop_left((perm as int) * (fvk as int), fk, p_int);
                assert(((perm as int) * (fvk as int)) * fk == (perm as int) * ((fvk as int) * fk))
                    by (nonlinear_arith) {}
                assert(((fvk as int) * fk) % p_int == 1) by {
                    lemma_mul_mod_noop(fvk as int, fk, p_int);
                    lemma_small_mod(fvk as nat, p as nat);
                    lemma_mul_mod_noop(fvk as int, self.fact@[k as int] as int, p_int);
                    let fkk = self.fact@[k as int] as int;
                    assert(fkk * (fvk as int) == (fvk as int) * fkk) by (nonlinear_arith) {}
                }
                lemma_mul_mod_noop(perm as int, (fvk as int) * fk, p_int);
                lemma_small_mod(perm as nat, p as nat);
                lemma_small_mod(1, p as nat);
                assert(((r as int) * fk) % p_int == (perm as int) % p_int);
                lemma_small_mod(perm as nat, p as nat);
                // now multiply both sides by (n-k)!
                lemma_mul_mod_noop_left((r as int) * fk, fnk, p_int);
                lemma_mul_mod_noop_left(perm as int, fnk, p_int);
                assert((((r as int) * fk) % p_int) * fnk == ((perm as int) % p_int) * fnk);
                if r == 0 {
                    assert(((r as int) * fk) % p_int == 0) by {
                        assert((r as int) * fk == 0) by (nonlinear_arith)
                            requires r == 0usize,
                        {}
                        lemma_small_mod(0, p as nat);
                    }
                    assert((perm as int) % p_int == perm as int);
                }
            }
            r
        } else {
            proof {
                if k <= n {
                    assert(perm != 0);
                }
            }
            0
        }
    }

    /// Choosing `k` out of `n` kinds with repetition allowed: the binomial
    /// count for `n + k - 1` over `k`.
    pub fn choose_with_duplicates(&self, n: usize, k: usize) -> (r: usize)
        requires
            self.well_formed(),
            n + k >= 1,
            n + k - 1 <= usize::MAX,
            k <= n + k - 1 ==> n + k - 1 <= self.limit(),
        ensures
            n == 0 ==> r == 0,
            n >= 1 ==> {
                &&& r < self.modulus()
                &&& r != 0
                &&& (((r as int) * fact_spec(k as nat)) * fact_spec((n - 1) as nat))
                    % self.modulus() == fact_spec((n + k - 1) as nat) % self.modulus()
            },
    {
        self.binomial(n + k - 1, k)
    }
}

} // verus!
