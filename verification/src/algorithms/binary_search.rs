use vstd::prelude::*;

verus! {

/// Boundaries and tolerance live in this symmetric range so that the sums
/// and differences taken below stay inside `i64`.
pub open spec fn in_domain(x: int) -> bool {
    -(i64::MAX as int / 4) <= x <= i64::MAX as int / 4
}

/// The tolerance actually used: an absent tolerance means `1`, the
/// multiplicative identity of the integers.
pub open spec fn eps_value(eps: Option<i64>) -> int {
    match eps {
        Some(e) => e as int,
        None => 1,
    }
}

pub open spec fn lo_of(good: i64, bad: i64) -> int {
    if good <= bad {
        good as int
    } else {
        bad as int
    }
}

pub open spec fn hi_of(good: i64, bad: i64) -> int {
    if good <= bad {
        bad as int
    } else {
        good as int
    }
}

/// Whether `a` and `b` lie more than `eps` apart.
fn gap_exceeds(a: i64, b: i64, eps: i64) -> (r: bool)
    requires
        in_domain(a as int),
        in_domain(b as int),
        0 <= eps <= i64::MAX / 4,
    ensures
        r == (if a >= b {
            a - b > eps
        } else {
            b - a > eps
        }),
{
    if a >= b {
        a - b > eps
    } else {
        b - a > eps
    }
}

/// Binary search for the flipping point of a weakly monotone predicate.
pub trait BinarySearch: Fn(i64) -> bool + Sized {
    /// Narrows the bracket `good`..`bad` until it is no wider than `eps`
    /// (`1` when absent), keeping `good` on the side where `self` holds and
    /// `bad` on the side where it does not; returns the `good` end, or
    /// `None` when the bracket is empty. The two ensured witnesses pin the
    /// result: `g` is the given `good` or a point where `self` returned
    /// `true`, and within `eps` beyond it, on the `bad` side, lies a point
    /// `b` that is the given `bad` or a point where `self` returned
    /// `false`.
    fn binary_search(&self, good: i64, bad: i64, eps: Option<i64>) -> (res: Option<i64>)
        requires
            in_domain(good as int),
            in_domain(bad as int),
            1 <= eps_value(eps) <= i64::MAX as int / 4,
            forall|x: i64|
                lo_of(good, bad) < x < hi_of(good, bad) ==> call_requires(*self, (x,)),
        ensures
            (res matches Option::<i64>::None) <==> good == bad,
            res matches Some(g) ==> {
                &&& lo_of(good, bad) <= g as int <= hi_of(good, bad)
                &&& g == good || call_ensures(*self, (g,), true)
                &&& exists|b: i64|
                    {
                        &&& #[trigger] bracket_end(b)
                        &&& lo_of(good, bad) <= b as int <= hi_of(good, bad)
                        &&& (b == bad || call_ensures(*self, (b,), false))
                        &&& (good < bad ==> (g as int) < b as int <= g as int + eps_value(eps))
                        &&& (good > bad ==> (b as int) < g as int <= b as int + eps_value(eps))
                    }
            },
    ;
}

/// Marker used to give the existential witness in `binary_search` a trigger.
pub open spec fn bracket_end(b: i64) -> bool {
    true
}

impl<F: Fn(i64) -> bool> BinarySearch for F {
    fn binary_search(&self, good: i64, bad: i64, eps: Option<i64>) -> (res: Option<i64>) {
        if good == bad {
            return None;
        }
        let eps_v = match eps {
            Some(e) => e,
            None => 1,
        };
        let mut g = good;
        let mut b = bad;
        while gap_exceeds(g, b, eps_v)
            invariant
                in_domain(good as int),
                in_domain(bad as int),
                in_domain(g as int),
                in_domain(b as int),
                1 <= eps_v <= i64::MAX / 4,
                eps_v as int == eps_value(eps),
                good != bad,
                good < bad ==> good <= g < b && b <= bad,
                good > bad ==> bad <= b < g && g <= good,
                g == good || call_ensures(*self, (g,), true),
                b == bad || call_ensures(*self, (b,), false),
                forall|x: i64|
                    lo_of(good, bad) < x < hi_of(good, bad) ==> call_requires(*self, (x,)),
            decreases (if g >= b {
                g - b
            } else {
                b - g
            }),
        {
            let mid = (g + b) / 2;
            assert(lo_of(good, bad) < (mid as int) && (mid as int) < hi_of(good, bad));
            if self(mid) {
                g = mid;
            } else {
                b = mid;
            }
        }
        proof {
            assert(bracket_end(b));
        }
        Some(g)
    }
}

pub open spec fn sorted_nondec(s: Seq<i64>) -> bool {
    forall|i: int, j: int| 0 <= i <= j < s.len() ==> s[i] <= s[j]
}

/// Insertion points in a sorted slice, found by binary search over the
/// index predicate.
pub trait ElementBisect: View<V = Seq<i64>> {
    /// The leftmost position where `x` could be inserted keeping the slice
    /// sorted: everything before it is strictly below `x`, everything from
    /// it on is at least `x`.
    fn bisect_left(&self, x: &i64) -> (r: usize)
        requires
            sorted_nondec(self@),
            self@.len() <= i64::MAX as int / 4,
        ensures
            r <= self@.len(),
            forall|i: int| 0 <= i < r ==> self@[i] < *x,
            forall|i: int| r <= i < self@.len() ==> self@[i] >= *x,
    ;

    /// The rightmost position where `x` could be inserted keeping the slice
    /// sorted: everything before it is at most `x`, everything from it on is
    /// strictly above `x`.
    fn bisect_right(&self, x: &i64) -> (r: usize)
        requires
            sorted_nondec(self@),
            self@.len() <= i64::MAX as int / 4,
        ensures
            r <= self@.len(),
            forall|i: int| 0 <= i < r ==> self@[i] <= *x,
            forall|i: int| r <= i < self@.len() ==> self@[i] > *x,
    ;
}

impl ElementBisect for [i64] {
    fn bisect_left(&self, x: &i64) -> (r: usize) {
        let n = self.len() as i64;
        let f = |i: i64| -> (res: bool)
            requires
                0 <= i < self@.len(),
            ensures
                res == (self@[i as int] >= *x),
            { self[i as usize] >= *x };
        let g = f.binary_search(n, -1, None).unwrap();
        proof {
            let bw = choose|b: i64|
                {
                    &&& #[trigger] bracket_end(b)
                    &&& lo_of(n, -1i64) <= b as int <= hi_of(n, -1i64)
                    &&& (b == -1i64 || call_ensures(f, (b,), false))
                    &&& (n < -1 ==> (g as int) < b as int <= g as int + eps_value(None))
                    &&& (n > -1 ==> (b as int) < g as int <= b as int + eps_value(None))
                };
            assert(b_left_ok(self@, *x, g as int)) by {
                assert(bw == g - 1);
                assert forall|i: int| 0 <= i < g implies self@[i] < *x by {
                    assert(self@[i] <= self@[bw as int]);
                }
                assert forall|i: int| g <= i < self@.len() implies self@[i] >= *x by {
                    assert(self@[g as int] <= self@[i]);
                }
            }
        }
        g as usize
    }

    fn bisect_right(&self, x: &i64) -> (r: usize) {
        let n = self.len() as i64;
        let f = |i: i64| -> (res: bool)
            requires
                0 <= i < self@.len(),
            ensures
                res == (self@[i as int] > *x),
            { self[i as usize] > *x };
        let g = f.binary_search(n, -1, None).unwrap();
        proof {
            let bw = choose|b: i64|
                {
                    &&& #[trigger] bracket_end(b)
                    &&& lo_of(n, -1i64) <= b as int <= hi_of(n, -1i64)
                    &&& (b == -1i64 || call_ensures(f, (b,), false))
                    &&& (n < -1 ==> (g as int) < b as int <= g as int + eps_value(None))
                    &&& (n > -1 ==> (b as int) < g as int <= b as int + eps_value(None))
                };
            assert(b_right_ok(self@, *x, g as int)) by {
                assert(bw == g - 1);
                assert forall|i: int| 0 <= i < g implies self@[i] <= *x by {
                    assert(self@[i] <= self@[bw as int]);
                }
                assert forall|i: int| g <= i < self@.len() implies self@[i] > *x by {
                    assert(self@[g as int] <= self@[i]);
                }
            }
        }
        g as usize
    }
}

spec fn b_left_ok(s: Seq<i64>, x: i64, r: int) -> bool {
    &&& 0 <= r <= s.len()
    &&& forall|i: int| 0 <= i < r ==> s[i] < x
    &&& forall|i: int| r <= i < s.len() ==> s[i] >= x
}

spec fn b_right_ok(s: Seq<i64>, x: i64, r: int) -> bool {
    &&& 0 <= r <= s.len()
    &&& forall|i: int| 0 <= i < r ==> s[i] <= x
    &&& forall|i: int| r <= i < s.len() ==> s[i] > x
}

} // verus!
