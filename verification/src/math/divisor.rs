use vstd::prelude::*;
use vstd::arithmetic::div_mod::{lemma_fundamental_div_mod, lemma_fundamental_div_mod_converse};

verus! {

/// `d` is a divisor of `n` (so `d >= 1`, which also rules out `n == 0`).
pub open spec fn is_divisor(n: usize, d: usize) -> bool {
    1 <= d <= n && n as int % d as int == 0
}

pub open spec fn strictly_ascending(s: Seq<usize>) -> bool {
    forall|a: int, b: int| 0 <= a < b < s.len() ==> s[a] < s[b]
}

spec fn strictly_descending(s: Seq<usize>) -> bool {
    forall|a: int, b: int| 0 <= a < b < s.len() ==> s[a] > s[b]
}

/// The cofactor `n / d` of a divisor `d` is itself a divisor,
/// and dividing `n` by it gives `d` back.
proof fn lemma_cofactor(n: int, d: int)
    requires
        1 <= d <= n,
        n % d == 0,
    ensures
        1 <= n / d <= n,
        n % (n / d) == 0,
        n / (n / d) == d,
        d * (n / d) == n,
{
    lemma_fundamental_div_mod(n, d);
    assert(n == d * (n / d));
    assert(1 <= n / d <= n) by (nonlinear_arith)
        requires 1 <= d <= n, n == d * (n / d),
    {}
    lemma_fundamental_div_mod_converse(n, n / d, d, 0);
}

/// Cofactors of strictly ordered divisors are strictly ordered the other way.
proof fn lemma_cofactor_order(n: int, d1: int, d2: int)
    requires
        1 <= d1 < d2 <= n,
        n % d1 == 0,
        n % d2 == 0,
    ensures
        n / d1 > n / d2,
{
    lemma_cofactor(n, d1);
    lemma_cofactor(n, d2);
    assert(n / d1 > n / d2) by (nonlinear_arith)
        requires
            1 <= d1 < d2 <= n,
            d1 * (n / d1) == n,
            d2 * (n / d2) == n,
            n / d1 >= 1,
            n / d2 >= 1,
    {}
}

/// For `i >= 1`, the overflow-free test `i <= n / i` is the same as `i * i <= n`.
proof fn lemma_sqrt_test(n: int, i: int)
    requires
        1 <= i,
        0 <= n,
    ensures
        i <= n / i <==> i * i <= n,
{
    lemma_fundamental_div_mod(n, i);
    assert(i <= n / i <==> i * i <= n) by (nonlinear_arith)
        requires 1 <= i, n == i * (n / i) + n % i, 0 <= n % i < i,
    {}
}

/// All divisors of `n` in increasing order.
pub fn enumerate_divisors(n: usize) -> (res: Vec<usize>)
    ensures
        strictly_ascending(res@),
        forall|d: usize| #[trigger] res@.contains(d) <==> is_divisor(n, d),
{
    let mut front: Vec<usize> = vec![];
    let mut back: Vec<usize> = vec![];
    let mut i: usize = 1;
    proof {
        assert forall|d: usize| is_divisor(n, d) implies n / d >= 1 by {
            lemma_cofactor(n as int, d as int);
        }
    }
    while i <= n / i
        invariant
            1 <= i,
            strictly_ascending(front@),
            strictly_descending(back@),
            forall|k: int| 0 <= k < front@.len() ==> is_divisor(n, #[trigger] front@[k]),
            forall|k: int| 0 <= k < front@.len()
                ==> (#[trigger] front@[k]) < i && front@[k] * front@[k] <= n,
            forall|d: usize| is_divisor(n, d) && d < i ==> front@.contains(d),
            forall|k: int| 0 <= k < back@.len()
                ==> is_divisor(n, #[trigger] back@[k]) && back@[k] * back@[k] > n
                    && n / back@[k] < i,
            forall|d: usize|
                is_divisor(n, d) && d * d > n && n / d < i ==> back@.contains(d),
        decreases n + 1 - i,
    {
        proof {
            lemma_sqrt_test(n as int, i as int);
            assert(i <= n) by (nonlinear_arith)
                requires i as int * i as int <= n as int, 1 <= i as int,
            {}
            assert(i < usize::MAX) by (nonlinear_arith)
                requires
                    i as int * i as int <= n as int,
                    n <= usize::MAX,
                    1 <= i as int,
                    usize::MAX >= 3,
            {}
        }
        let ghost pf = front@;
        let ghost pb = back@;
        if n % i == 0 {
            proof {
                lemma_cofactor(n as int, i as int);
                assert forall|k: int| 0 <= k < back@.len() implies back@[k] > n / i by {
                    lemma_cofactor(n as int, back@[k] as int);
                    lemma_cofactor_order(n as int, n as int / back@[k] as int, i as int);
                }
            }
            front.push(i);
            if n / i != i {
                proof {
                    let c = n as int / i as int;
                    assert(c != i);
                    assert(c * c > n) by (nonlinear_arith)
                        requires
                            1 <= i as int,
                            i as int * c == n,
                            c != i as int,
                            i as int <= n as int / i as int,
                            i as int * i as int <= n,
                            c >= 1,
                    {}
                }
                back.push(n / i);
            } else {
                assert(i * i == n) by {
                    lemma_cofactor(n as int, i as int);
                }
            }
        }
        proof {
            assert forall|d: usize| is_divisor(n, d) && d < i + 1
                implies front@.contains(d) by {
                if d == i {
                    assert(front@[front@.len() - 1] == i);
                } else {
                    let k = choose|k: int| 0 <= k < pf.len() && pf[k] == d;
                    assert(front@[k] == d);
                }
            }
            assert forall|d: usize| is_divisor(n, d) && d * d > n && n / d < i + 1
                implies back@.contains(d) by {
                if n / d == i {
                    lemma_cofactor(n as int, d as int);
                    assert(d > i) by (nonlinear_arith)
                        requires
                            d as int * d as int > n as int,
                            i as int * i as int <= n as int,
                            d as int >= 1,
                            i as int >= 1,
                    {}
                    assert(n as int % i as int == 0);
                    assert(back@[back@.len() - 1] == d);
                } else {
                    let k = choose|k: int| 0 <= k < pb.len() && pb[k] == d;
                    assert(back@[k] == d);
                }
            }
        }
        i += 1;
    }
    proof {
        lemma_sqrt_test(n as int, i as int);
        // every divisor is now accounted for: small ones in `front`, large ones in `back`
        assert forall|d: usize| is_divisor(n, d)
            implies front@.contains(d) || back@.contains(d) by {
            if d * d > n {
                lemma_cofactor(n as int, d as int);
                assert((n as int / d as int) * (n as int / d as int) < i as int * i as int)
                    by (nonlinear_arith)
                    requires
                        1 <= d as int,
                        d as int * (n as int / d as int) == n,
                        d as int * d as int > n,
                        i as int * i as int > n,
                        n as int / d as int >= 1,
                {}
                assert((n as int / d as int) < i as int) by (nonlinear_arith)
                    requires
                        (n as int / d as int) * (n as int / d as int) < i as int * i as int,
                        n as int / d as int >= 1,
                        i as int >= 1,
                {}
            } else {
                assert(d < i) by (nonlinear_arith)
                    requires
                        d as int * d as int <= n as int,
                        i as int * i as int > n as int,
                        d as int >= 1,
                        i as int >= 1,
                {}
            }
        }
    }
    while back.len() > 0
        invariant
            strictly_ascending(front@),
            strictly_descending(back@),
            forall|k: int| 0 <= k < front@.len() ==> is_divisor(n, #[trigger] front@[k]),
            forall|k: int| 0 <= k < back@.len() ==> is_divisor(n, #[trigger] back@[k]),
            forall|d: usize| is_divisor(n, d) ==> front@.contains(d) || back@.contains(d),
            forall|a: int, b: int|
                0 <= a < front@.len() && 0 <= b < back@.len()
                    ==> #[trigger] front@[a] < #[trigger] back@[b],
        decreases back.len(),
    {
        let ghost pf = front@;
        let ghost pb = back@;
        let v = back.pop().unwrap();
        front.push(v);
        proof {
            assert forall|d: usize| is_divisor(n, d)
                implies front@.contains(d) || back@.contains(d) by {
                if pf.contains(d) {
                    let k = choose|k: int| 0 <= k < pf.len() && pf[k] == d;
                    assert(front@[k] == d);
                } else {
                    let k = choose|k: int| 0 <= k < pb.len() && pb[k] == d;
                    if k == pb.len() - 1 {
                        assert(front@[front@.len() - 1] == d);
                    } else {
                        assert(back@[k] == d);
                    }
                }
            }
        }
    }
    proof {
        assert forall|d: usize| #[trigger] front@.contains(d) implies is_divisor(n, d) by {
            let k = choose|k: int| 0 <= k < front@.len() && front@[k] == d;
        }
    }
    front
}

} // verus!
