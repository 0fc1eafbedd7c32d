use vstd::prelude::*;
use vstd::arithmetic::power::pow;
use vstd::arithmetic::div_mod::{
    lemma_fundamental_div_mod, lemma_mod_multiples_vanish, lemma_mul_mod_noop,
    lemma_mul_mod_noop_left, lemma_add_mod_noop, lemma_small_mod,
};

verus! {

/// The fixed Mersenne modulus `2^61 - 1`.
pub open spec fn spec_mod() -> int {
    0x1fff_ffff_ffff_ffff
}

/// Polynomial hash of `s[l..r]` under `base`, reduced at every step.
pub open spec fn hash_range(s: Seq<u8>, base: int, l: int, r: int) -> int
    decreases r - l,
{
    if r <= l {
        0
    } else {
        (hash_range(s, base, l, r - 1) * base + s[r - 1]) % spec_mod()
    }
}

/// The window identity: a prefix hash splits into the earlier prefix
/// shifted up and the window hash.
proof fn lemma_hash_split(s: Seq<u8>, base: int, l: int, r: int)
    requires
        0 <= l <= r <= s.len(),
        0 <= base,
    ensures
        hash_range(s, base, 0, r) % spec_mod() == (hash_range(s, base, 0, l) * pow(
            base,
            (r - l) as nat,
        ) + hash_range(s, base, l, r)) % spec_mod(),
    decreases r - l,
{
    let m = spec_mod();
    if l == r {
        assert(pow(base, 0) == 1) by {
            vstd::arithmetic::power::lemma_pow0(base);
        }
        lemma_small_mod(0, m as nat);
        assert(hash_range(s, base, 0, r) % m == hash_range(s, base, 0, r)) by {
            if r > 0 {
                vstd::arithmetic::div_mod::lemma_mod_twice(
                    hash_range(s, base, 0, r - 1) * base + s[r - 1],
                    m,
                );
            } else {
                lemma_small_mod(0, m as nat);
            }
        }
    } else {
        lemma_hash_split(s, base, l, r - 1);
        let p0 = hash_range(s, base, 0, l);
        let w = (r - 1 - l) as nat;
        let h1 = hash_range(s, base, l, r - 1);
        let c = s[r - 1] as int;
        // multiply the previous identity through by the base and absorb c
        assert(hash_range(s, base, 0, r) == (hash_range(s, base, 0, r - 1) * base + c) % m);
        lemma_mul_mod_noop_left(hash_range(s, base, 0, r - 1), base, m);
        assert((hash_range(s, base, 0, r - 1) % m) * base % m == hash_range(s, base, 0, r - 1)
            * base % m);
        lemma_mul_mod_noop_left(p0 * pow(base, w) + h1, base, m);
        assert((p0 * pow(base, w) + h1) * base == p0 * (pow(base, w) * base) + h1 * base)
            by (nonlinear_arith) {}
        assert(pow(base, w) * base == pow(base, w + 1)) by {
            vstd::arithmetic::power::lemma_pow1(base);
            vstd::arithmetic::power::lemma_pow_adds(base, w, 1);
        }
        // now add the final byte and regroup
        assert(hash_range(s, base, 0, r - 1) * base % m == (p0 * pow(base, w + 1) + h1 * base)
            % m) by {
            assert((hash_range(s, base, 0, r - 1) % m) * base == ((p0 * pow(base, w) + h1) % m)
                * base);
        }
        lemma_add_mod_noop(hash_range(s, base, 0, r - 1) * base, c, m);
        lemma_add_mod_noop(p0 * pow(base, w + 1) + h1 * base, c, m);
        assert((hash_range(s, base, 0, r - 1) * base % m + c % m) % m == ((p0 * pow(base, w + 1)
            + h1 * base) % m + c % m) % m);
        // fold (h1 * base + c) back into the window hash
        assert(hash_range(s, base, l, r) == (h1 * base + c) % m);
        lemma_add_mod_noop_three(p0 * pow(base, w + 1), h1 * base, c, m);
    }
}

///`(a + b + c) % m` may reduce `b + c` first.
proof fn lemma_add_mod_noop_three(a: int, b: int, c: int, m: int)
    requires
        m > 0,
    ensures
        (a + (b + c) % m) % m == (a + b + c) % m,
{
    lemma_add_mod_noop(a, b + c, m);
    lemma_add_mod_noop(a % m, (b + c) % m, m);
    vstd::arithmetic::div_mod::lemma_mod_twice(a, m);
    vstd::arithmetic::div_mod::lemma_mod_twice(b + c, m);
    lemma_add_mod_noop(a, (b + c) % m, m);
}

/// Rolling (polynomial) hasher over a byte string with the fixed modulus
/// `2^61 - 1`: prefix hashes and powers of the base, from which the hash
/// of any window comes in constant time.
pub struct RollingHash {
    hash_acc: Vec<u64>,
    base_pow: Vec<u64>,
    target: Ghost<Seq<u8>>,
    base: Ghost<u64>,
}

/// `x * y` modulo `2^61 - 1`, computed without overflowing `u64`:
/// the factors split at bit 31 and the high product folds back in because
/// `2^61` is congruent to `1`.
pub fn mul_mod(a: u64, b: u64) -> (r: u64)
    requires
        a as int <= spec_mod(),
        b as int <= spec_mod(),
    ensures
        (r as int) % spec_mod() == ((a as int) * (b as int)) % spec_mod(),
        r as int <= 4 * spec_mod(),
{
    let m31: u64 = 0x7fff_ffff;
    let m30: u64 = 0x3fff_ffff;
    let au = a >> 31;
    let ad = a & m31;
    let bu = b >> 31;
    let bd = b & m31;
    proof {
        assert(a == (a >> 31) * 0x8000_0000u64 + (a & 0x7fff_ffffu64) && (a & 0x7fff_ffffu64)
            < 0x8000_0000u64 && (a >> 31) <= 0x3fff_ffffu64) by (bit_vector)
            requires a <= 0x1fff_ffff_ffff_ffffu64,
        ;
        assert(b == (b >> 31) * 0x8000_0000u64 + (b & 0x7fff_ffffu64) && (b & 0x7fff_ffffu64)
            < 0x8000_0000u64 && (b >> 31) <= 0x3fff_ffffu64) by (bit_vector)
            requires b <= 0x1fff_ffff_ffff_ffffu64,
        ;
        assert((ad as int) * (bu as int) + (au as int) * (bd as int) < 0x4000_0000_0000_0000)
            by (nonlinear_arith)
            requires
                ad < 0x8000_0000u64,
                bd < 0x8000_0000u64,
                au <= 0x3fff_ffffu64,
                bu <= 0x3fff_ffffu64,
        {}
    }
    let mid = ad * bu + au * bd;
    proof {
        assert(mid == (mid >> 30) * 0x4000_0000u64 + (mid & 0x3fff_ffffu64) && (mid
            & 0x3fff_ffffu64) < 0x4000_0000u64 && (mid >> 30) <= 0x1_0000_0000u64) by (bit_vector)
            requires mid < 0x4000_0000_0000_0000u64,
        ;
        assert(((mid & 0x3fff_ffffu64) << 31) == (mid & 0x3fff_ffffu64) * 0x8000_0000u64)
            by (bit_vector);
        assert((au as int) * (bu as int) * 2 + 0x1_0000_0000 + ((mid & 0x3fff_ffffu64) as int)
            * 0x8000_0000 + (ad as int) * (bd as int) <= 4 * 0x1fff_ffff_ffff_ffff)
            by (nonlinear_arith)
            requires
                ad < 0x8000_0000u64,
                bd < 0x8000_0000u64,
                au <= 0x3fff_ffffu64,
                bu <= 0x3fff_ffffu64,
                (mid & 0x3fff_ffffu64) < 0x4000_0000u64,
        {}
    }
    let high = au * bu;
    let r = high * 2 + (mid >> 30) + ((mid & m30) << 31) + ad * bd;
    proof {
        let m = spec_mod();
        let aui = au as int;
        let adi = ad as int;
        let bui = bu as int;
        let bdi = bd as int;
        let midi = mid as int;
        // the product, split at the 31st and 62nd bits
        assert((a as int) * (b as int) == aui * bui * 0x4000_0000_0000_0000 + midi * 0x8000_0000
            + adi * bdi) by (nonlinear_arith)
            requires
                a as int == aui * 0x8000_0000 + adi,
                b as int == bui * 0x8000_0000 + bdi,
                midi == adi * bui + aui * bdi,
        {}
        let hi = (mid >> 30) as int;
        let lo = (mid & m30) as int;
        assert(midi * 0x8000_0000 == hi * 0x2000_0000_0000_0000 + lo * 0x8000_0000)
            by (nonlinear_arith)
            requires midi == hi * 0x4000_0000 + lo,
        {}
        // 2^62 == 2 (mod m) and 2^61 == 1 (mod m)
        assert(aui * bui * 0x4000_0000_0000_0000 == m * (aui * bui * 2) + aui * bui * 2)
            by (nonlinear_arith)
            requires m == 0x1fff_ffff_ffff_ffff,
        {}
        assert(hi * 0x2000_0000_0000_0000 == m * hi + hi) by (nonlinear_arith)
            requires m == 0x1fff_ffff_ffff_ffff,
        {}
        assert((a as int) * (b as int) == m * (aui * bui * 2 + hi) + (r as int))
            by (nonlinear_arith)
            requires
                (a as int) * (b as int) == aui * bui * 0x4000_0000_0000_0000 + midi * 0x8000_0000
                    + adi * bdi,
                midi * 0x8000_0000 == hi * 0x2000_0000_0000_0000 + lo * 0x8000_0000,
                aui * bui * 0x4000_0000_0000_0000 == m * (aui * bui * 2) + aui * bui * 2,
                hi * 0x2000_0000_0000_0000 == m * hi + hi,
                r as int == aui * bui * 2 + hi + lo * 0x8000_0000 + adi * bdi,
                m == 0x1fff_ffff_ffff_ffff,
        {}
        lemma_mod_multiples_vanish(aui * bui * 2 + hi, r as int, m);
    }
    r
}

/// `x` reduced modulo `2^61 - 1`, folding the top three bits down.
pub fn modulo(x: u64) -> (r: u64)
    ensures
        r as int == (x as int) % spec_mod(),
{
    let m61: u64 = 0x1fff_ffff_ffff_ffff;
    let mm: u64 = 0x1fff_ffff_ffff_ffff;
    proof {
        assert(x == (x >> 61) * 0x2000_0000_0000_0000u64 + (x & 0x1fff_ffff_ffff_ffffu64) && (x
            >> 61) <= 7u64 && (x & 0x1fff_ffff_ffff_ffffu64) <= 0x1fff_ffff_ffff_ffffu64)
            by (bit_vector);
    }
    let mut res = (x >> 61) + (x & m61);
    proof {
        let m = spec_mod();
        let q = (x >> 61) as int;
        let w = (x & m61) as int;
        assert(q * 0x2000_0000_0000_0000 == m * q + q) by (nonlinear_arith)
            requires m == 0x1fff_ffff_ffff_ffff,
        {}
        assert(x as int == m * q + (res as int)) by (nonlinear_arith)
            requires
                x as int == q * 0x2000_0000_0000_0000 + w,
                q * 0x2000_0000_0000_0000 == m * q + q,
                res as int == q + w,
        {}
        lemma_mod_multiples_vanish(q, res as int, m);
    }
    let ghost before = res as int;
    if res >= mm {
        res = res - mm;
        proof {
            lemma_mod_multiples_vanish(1, res as int, spec_mod());
            assert(spec_mod() * 1 + res as int == before);
        }
    }
    proof {
        lemma_small_mod(res as nat, spec_mod() as nat);
        vstd::arithmetic::div_mod::lemma_mod_twice(x as int, spec_mod());
    }
    res
}

impl RollingHash {
    /// The hashed byte string.
    pub closed spec fn text(&self) -> Seq<u8> {
        self.target@
    }

    /// The base the polynomial is evaluated at.
    pub closed spec fn base_spec(&self) -> int {
        self.base@ as int
    }

    pub closed spec fn well_formed(&self) -> bool {
        &&& self.hash_acc@.len() == self.target@.len() + 1
        &&& self.base_pow@.len() == self.target@.len() + 1
        &&& (self.base@ as int) < spec_mod()
        &&& forall|k: int|
            0 <= k < self.hash_acc@.len() ==> (#[trigger] self.hash_acc@[k] as int) == hash_range(
                self.target@,
                self.base@ as int,
                0,
                k,
            )
        &&& forall|k: int|
            0 <= k < self.base_pow@.len() ==> (#[trigger] self.base_pow@[k] as int) == pow(
                self.base@ as int,
                k as nat,
            ) % spec_mod()
    }

    /// Prefix hashes and base powers for `target` under `base`.
    pub fn new(target: &[u8], base: u64) -> (h: RollingHash)
        requires
            (base as int) < spec_mod(),
            target@.len() < usize::MAX,
        ensures
            h.well_formed(),
            h.text() == target@,
            h.base_spec() == base as int,
    {
        let n = target.len();
        let ghost t = target@;
        let ghost bi = base as int;
        let mut hash_acc: Vec<u64> = Vec::new();
        let mut base_pow: Vec<u64> = Vec::new();
        hash_acc.push(0);
        base_pow.push(1);
        proof {
            lemma_small_mod(0, spec_mod() as nat);
            lemma_small_mod(1, spec_mod() as nat);
            vstd::arithmetic::power::lemma_pow0(bi);
        }
        let mut i: usize = 0;
        while i < n
            invariant
                i <= n,
                n == t.len(),
                t == target@,
                bi == base as int,
                bi < spec_mod(),
                hash_acc@.len() == i + 1,
                base_pow@.len() == i + 1,
                forall|k: int|
                    0 <= k <= i ==> (#[trigger] hash_acc@[k] as int) == hash_range(t, bi, 0, k),
                forall|k: int|
                    0 <= k <= i ==> (#[trigger] base_pow@[k] as int) == pow(bi, k as nat)
                        % spec_mod(),
            decreases n - i,
        {
            let hprev = hash_acc[i];
            let pprev = base_pow[i];
            proof {
                lemma_hash_bound(t, bi, 0, i as int);
                lemma_mod_bound_pow(bi, i as nat);
            }
            let hm = mul_mod(hprev, base);
            let c = target[i];
            let hnext = modulo(hm + c as u64);
            let pnext = modulo(mul_mod(pprev, base));
            proof {
                let m = spec_mod();
                // the new prefix hash
                assert(hnext as int == hash_range(t, bi, 0, i + 1)) by {
                    lemma_add_mod_noop(hm as int, c as int, m);
                    lemma_add_mod_noop((hprev as int) * bi, c as int, m);
                    lemma_small_mod(c as nat, m as nat);
                    lemma_mul_mod_noop_left(hash_range(t, bi, 0, i as int), bi, m);
                    vstd::arithmetic::div_mod::lemma_mod_twice((hprev as int) * bi, m);
                    vstd::arithmetic::div_mod::lemma_mod_twice(hm as int, m);
                }
                // the new power of the base
                assert(pnext as int == pow(bi, (i + 1) as nat) % m) by {
                    lemma_mul_mod_noop_left(pow(bi, i as nat), bi, m);
                    vstd::arithmetic::div_mod::lemma_mod_twice((pprev as int) * bi, m);
                    vstd::arithmetic::power::lemma_pow1(bi);
                    vstd::arithmetic::power::lemma_pow_adds(bi, i as nat, 1);
                }
            }
            hash_acc.push(hnext);
            base_pow.push(pnext);
            i += 1;
        }
        RollingHash { hash_acc, base_pow, target: Ghost(t), base: Ghost(base) }
    }

    /// The hash of the window `[left, right)` of the text, `left`
    /// defaulting to `0` and `right` to the text's length; `None` on a
    /// reversed or out-of-range window.
    pub fn query(&self, left: Option<usize>, right: Option<usize>) -> (res: Option<u64>)
        requires
            self.well_formed(),
        ensures
            ({
                let n = self.text().len() as int;
                let l = match left {
                    Some(x) => x as int,
                    None => 0,
                };
                let r = match right {
                    Some(x) => x as int,
                    None => n,
                };
                if 0 <= l <= r <= n {
                    res matches Some(v) && v as int == hash_range(
                        self.text(),
                        self.base_spec(),
                        l,
                        r,
                    )
                } else {
                    res matches Option::<u64>::None
                }
            }),
    {
        let n = self.hash_acc.len() - 1;
        let l = match left {
            Some(x) => x,
            None => 0,
        };
        let r = match right {
            Some(x) => x,
            None => n,
        };
        if l > r || r > n {
            return None;
        }
        let ghost t = self.text();
        let ghost bi = self.base_spec();
        let ghost m = spec_mod();
        proof {
            lemma_hash_bound(t, bi, 0, l as int);
            lemma_mod_bound_pow(bi, (r - l) as nat);
        }
        let hl = self.hash_acc[l];
        let hr = self.hash_acc[r];
        let pw = self.base_pow[r - l];
        let sub = mul_mod(hl, pw);
        let big: u64 = 0x1fff_ffff_ffff_ffff;
        proof {
            lemma_hash_bound(t, bi, 0, r as int);
        }
        let v = modulo(hr + 4 * big - sub);
        proof {
            // the computed value is congruent to the window hash, and both
            // of them are reduced, so they are equal
            let hli = hl as int;
            let hri = hr as int;
            let subi = sub as int;
            let w = (r - l) as nat;
            lemma_hash_split(t, bi, l as int, r as int);
            lemma_hash_bound(t, bi, l as int, r as int);
            lemma_hash_bound(t, bi, 0, r as int);
            assert(hri % m == (hli * pow(bi, w) + hash_range(t, bi, l as int, r as int)) % m) by {
                lemma_small_mod(hr as nat, m as nat);
            }
            assert(subi % m == (hli * (pow(bi, w) % m)) % m);
            lemma_mul_mod_noop(hli, pow(bi, w), m);
            lemma_small_mod(hl as nat, m as nat);
            assert(subi % m == (hli * pow(bi, w)) % m) by {
                vstd::arithmetic::div_mod::lemma_mod_twice(hli * pow(bi, w), m);
                lemma_mul_mod_noop(hli, pow(bi, w) % m, m);
                vstd::arithmetic::div_mod::lemma_mod_twice(pow(bi, w), m);
            }
            // hr + 4m - sub == 4m + (hr - sub) and the multiples of m vanish
            lemma_fundamental_div_mod(subi, m);
            lemma_fundamental_div_mod(hli * pow(bi, w), m);
            let d1 = subi / m;
            let d2 = (hli * pow(bi, w)) / m;
            assert(hri + 4 * m - subi == m * (4 - d1 + d2) + (hri - hli * pow(bi, w)))
                by (nonlinear_arith)
                requires
                    subi == m * d1 + subi % m,
                    hli * pow(bi, w) == m * d2 + (hli * pow(bi, w)) % m,
                    subi % m == (hli * pow(bi, w)) % m,
            {}
            lemma_mod_multiples_vanish(4 - d1 + d2, hri - hli * pow(bi, w), m);
            // hri - hli * pow == window (mod m)
            lemma_sub_mod(hri, hli * pow(bi, w), hash_range(t, bi, l as int, r as int), m);
            lemma_small_mod(
                hash_range(t, bi, l as int, r as int) as nat,
                m as nat,
            );
        }
        Some(v)
    }

    /// Every start position in the text whose window of the pattern's
    /// length has the same hash as the whole pattern (the two hashers must
    /// share their base), in increasing order; `None` when the pattern is
    /// longer than the text.
    pub fn find_all(&self, pattern: &RollingHash) -> (res: Option<Vec<usize>>)
        requires
            self.well_formed(),
            pattern.well_formed(),
            pattern.base_spec() == self.base_spec(),
        ensures
            ({
                let n = self.text().len() as int;
                let m = pattern.text().len() as int;
                if n < m {
                    res matches Option::<Vec<usize>>::None
                } else {
                    res matches Some(v) && {
                        &&& forall|x: int, y: int| 0 <= x < y < v@.len() ==> v@[x] < v@[y]
                        &&& forall|k: int|
                            0 <= k < v@.len() ==> 0 <= #[trigger] v@[k] + m <= n && hash_range(
                                self.text(),
                                self.base_spec(),
                                v@[k] as int,
                                v@[k] + m,
                            ) == hash_range(pattern.text(), pattern.base_spec(), 0, m)
                        &&& forall|i: int|
                            0 <= i <= n - m && hash_range(
                                self.text(),
                                self.base_spec(),
                                i,
                                i + m,
                            ) == hash_range(pattern.text(), pattern.base_spec(), 0, m)
                                ==> #[trigger] contains_pos(v@, i)
                    }
                }
            }),
    {
        let n = self.hash_acc.len() - 1;
        let m = pattern.hash_acc.len() - 1;
        if n < m {
            return None;
        }
        let ghost phash = hash_range(pattern.text(), pattern.base_spec(), 0, m as int);
        let pat = pattern.query(None, None).unwrap();
        let mut res: Vec<usize> = Vec::new();
        let mut i: usize = 0;
        while i <= n - m
            invariant
                self.well_formed(),
                i <= n - m + 1,
                m <= n,
                n < usize::MAX,
                n == self.text().len(),
                m == pattern.text().len(),
                pat as int == phash,
                phash == hash_range(pattern.text(), pattern.base_spec(), 0, m as int),
                forall|x: int, y: int| 0 <= x < y < res@.len() ==> res@[x] < res@[y],
                forall|k: int|
                    0 <= k < res@.len() ==> 0 <= #[trigger] res@[k] + m <= n && res@[k] < i
                        && hash_range(
                        self.text(),
                        self.base_spec(),
                        res@[k] as int,
                        res@[k] + m,
                    ) == phash,
                forall|q: int|
                    0 <= q < i && hash_range(self.text(), self.base_spec(), q, q + m) == phash
                        ==> #[trigger] contains_pos(res@, q),
            decreases n - m + 1 - i,
        {
            let h = self.query(Some(i), Some(i + m)).unwrap();
            let ghost res0 = res@;
            if h == pat {
                res.push(i);
            }
            proof {
                assert forall|q: int|
                    0 <= q < i + 1 && hash_range(self.text(), self.base_spec(), q, q + m) == phash
                        implies #[trigger] contains_pos(res@, q) by {
                    if q < i {
                        assert(contains_pos(res0, q));
                        let k = choose|k: int| 0 <= k < res0.len() && res0[k] == q;
                        assert(res@[k] == q);
                    } else {
                        assert(res@[res@.len() - 1] == q);
                    }
                }
            }
            i += 1;
        }
        Some(res)
    }
}

pub open spec fn contains_pos(v: Seq<usize>, q: int) -> bool {
    exists|k: int| 0 <= k < v.len() && v[k] == q
}

/// A reduced hash lies below the modulus.
proof fn lemma_hash_bound(s: Seq<u8>, base: int, l: int, r: int)
    ensures
        0 <= hash_range(s, base, l, r) < spec_mod(),
{
    if r <= l {
    } else {
        vstd::arithmetic::div_mod::lemma_mod_bound(
            hash_range(s, base, l, r - 1) * base + s[r - 1],
            spec_mod(),
        );
    }
}

/// A reduced power lies below the modulus.
proof fn lemma_mod_bound_pow(base: int, e: nat)
    ensures
        0 <= pow(base, e) % spec_mod() < spec_mod(),
{
    vstd::arithmetic::div_mod::lemma_mod_bound(pow(base, e), spec_mod());
}

/// Subtracting congruent values preserves the residue.
proof fn lemma_sub_mod(x: int, y: int, h: int, m: int)
    requires
        m > 0,
        x % m == (y + h) % m,
    ensures
        (x - y) % m == h % m,
{
    lemma_fundamental_div_mod(x, m);
    lemma_fundamental_div_mod(y + h, m);
    let qx = x / m;
    let qy = (y + h) / m;
    assert(x - y == m * (qx - qy) + h) by (nonlinear_arith)
        requires
            x == m * qx + x % m,
            y + h == m * qy + (y + h) % m,
            x % m == (y + h) % m,
    {}
    lemma_mod_multiples_vanish(qx - qy, h, m);
}

} // verus!
