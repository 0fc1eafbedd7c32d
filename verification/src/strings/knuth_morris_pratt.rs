use vstd::prelude::*;

verus! {

/// The first `k` bytes of `p` occur at position `s` of `t`.
pub open spec fn match_at(t: Seq<u8>, p: Seq<u8>, s: int, k: int) -> bool {
    &&& 0 <= s
    &&& s + k <= t.len()
    &&& 0 <= k <= p.len()
    &&& forall|u: int| 0 <= u < k ==> #[trigger] t[s + u] == p[u]
}

/// The whole pattern `p` occurs at position `s` of `t`.
pub open spec fn is_occurrence(t: Seq<u8>, p: Seq<u8>, s: int) -> bool {
    match_at(t, p, s, p.len() as int)
}

/// `p[0..k]` is a border of `p[0..i]`: a proper prefix that is also a
/// suffix.
pub open spec fn is_border(p: Seq<u8>, i: int, k: int) -> bool {
    &&& 0 <= k < i <= p.len()
    &&& forall|u: int| 0 <= u < k ==> #[trigger] p[u] == p[i - k + u]
}

/// `k` is the length of the longest border of `p[0..i]`.
pub open spec fn is_longest_border(p: Seq<u8>, i: int, k: int) -> bool {
    &&& is_border(p, i, k)
    &&& forall|k2: int| k < k2 < i ==> !is_border(p, i, k2)
}

pub open spec fn contains_value(v: Seq<usize>, s: int) -> bool {
    exists|k: int| 0 <= k < v.len() && v[k] == s
}

pub open spec fn strictly_increasing(v: Seq<usize>) -> bool {
    forall|a: int, b: int| 0 <= a < b < v.len() ==> v[a] < v[b]
}

/// Two prefix matches ending at the same point make the shorter prefix a
/// border of the longer one.
proof fn lemma_two_matches_border(t: Seq<u8>, p: Seq<u8>, i: int, k: int, j: int)
    requires
        match_at(t, p, i - k, k),
        match_at(t, p, i - j, j),
        0 <= k < j <= i,
    ensures
        is_border(p, j, k),
{
    assert forall|u: int| 0 <= u < k implies #[trigger] p[u] == p[j - k + u] by {
        assert(t[(i - k) + u] == p[u]);
        assert(t[(i - j) + (j - k + u)] == p[j - k + u]);
    }
}

/// A border of a matched prefix is itself matched, ending at the same point.
proof fn lemma_border_match(t: Seq<u8>, p: Seq<u8>, i: int, j: int, k: int)
    requires
        match_at(t, p, i - j, j),
        is_border(p, j, k),
        j <= i,
    ensures
        match_at(t, p, i - k, k),
{
    assert forall|u: int| 0 <= u < k implies #[trigger] t[(i - k) + u] == p[u] by {
        assert(p[u] == p[j - k + u]);
        assert(t[(i - j) + (j - k + u)] == p[j - k + u]);
    }
}

/// Borders of the same prefix nest: the shorter is a border of the longer.
proof fn lemma_border_nesting(p: Seq<u8>, i: int, k1: int, k2: int)
    requires
        is_border(p, i, k1),
        is_border(p, i, k2),
        k1 < k2,
    ensures
        is_border(p, k2, k1),
{
    assert forall|u: int| 0 <= u < k1 implies #[trigger] p[u] == p[k2 - k1 + u] by {
        assert(p[u] == p[i - k1 + u]);
        assert(p[(k2 - k1 + u)] == p[i - k2 + (k2 - k1 + u)]);
    }
}

/// Knuth-Morris-Pratt pattern search over a borrowed byte string.
pub struct KnuthMorrisPratt<'a> {
    target: &'a [u8],
}

impl<'a> View for KnuthMorrisPratt<'a> {
    type V = Seq<u8>;

    closed spec fn view(&self) -> Seq<u8> {
        self.target@
    }
}

impl<'a> KnuthMorrisPratt<'a> {
    /// The failure function of `pattern`: `fail[i]` is the length of the
    /// longest proper prefix of `pattern[0..i]` that is also a suffix of it.
    pub fn get_failure_function(pattern: &[u8]) -> (fail: Vec<usize>)
        requires
            pattern@.len() < usize::MAX,
        ensures
            fail@.len() == pattern@.len() + 1,
            fail@[0] == 0usize,
            forall|i: int|
                1 <= i <= pattern@.len() ==> is_longest_border(pattern@, i, #[trigger] fail@[i] as int),
    {
        let m = pattern.len();
        let ghost p = pattern@;
        let mut fail: Vec<usize> = Vec::new();
        while fail.len() < m + 1
            invariant
                m < usize::MAX,
                fail@.len() <= m + 1,
                forall|q: int| 0 <= q < fail@.len() ==> fail@[q] == 0usize,
            decreases m + 1 - fail@.len(),
        {
            fail.push(0);
        }
        let mut i: usize = 2;
        proof {
            if m >= 1 {
                assert(is_longest_border(p, 1, 0));
            }
        }
        while i <= m
            invariant
                2 <= i,
                i <= m + 1 || i == 2,
                m < usize::MAX,
                m == p.len(),
                p == pattern@,
                fail@.len() == m + 1,
                fail@[0] == 0usize,
                forall|q: int|
                    1 <= q < i && q <= m ==> is_longest_border(p, q, #[trigger] fail@[q] as int),
            decreases m + 1 - i,
        {
            let mut j = fail[i - 1];
            proof {
                assert(is_longest_border(p, i - 1, j as int));
                assert forall|k: int| is_border(p, i as int, k) implies k <= j + 1 by {
                    if k >= 1 {
                        assert(is_border(p, i - 1, k - 1)) by {
                            assert forall|u: int| 0 <= u < k - 1 implies #[trigger] p[u] == p[(i
                                - 1) - (k - 1) + u] by {
                                assert(p[u] == p[i - k + u]);
                            }
                        }
                    }
                }
            }
            loop
                invariant
                    2 <= i <= m,
                    m == p.len(),
                    p == pattern@,
                    fail@.len() == m + 1,
                    fail@[0] == 0usize,
                    forall|q: int|
                        1 <= q < i && q <= m ==> is_longest_border(p, q, #[trigger] fail@[q] as int),
                    is_border(p, i - 1, j as int),
                    forall|k: int| is_border(p, i as int, k) ==> k <= j + 1,
                ensures
                    fail@.len() == m + 1,
                    fail@[0] == 0usize,
                    forall|q: int|
                        1 <= q <= i && q <= m ==> is_longest_border(p, q, #[trigger] fail@[q] as int),
                decreases j,
            {
                if pattern[j] == pattern[i - 1] {
                    proof {
                        let jn = j + 1;
                        assert(is_border(p, i as int, jn as int)) by {
                            assert forall|u: int| 0 <= u < jn implies #[trigger] p[u] == p[i - jn + u] by {
                                if u < j {
                                    assert(p[u] == p[(i - 1) - j + u]);
                                }
                            }
                        }
                    }
                    fail[i] = j + 1;
                    proof {
                        assert forall|q: int| 1 <= q <= i implies is_longest_border(
                            p,
                            q,
                            #[trigger] fail@[q] as int,
                        ) by {
                            if q < i {
                                assert(is_longest_border(p, q, fail@[q] as int));
                            }
                        }
                    }
                    break ;
                }
                if j == 0 {
                    proof {
                        assert(is_border(p, i as int, 0));
                        assert forall|k2: int| 0 < k2 < i implies !is_border(p, i as int, k2) by {
                            if is_border(p, i as int, k2) {
                                assert(k2 <= 1);
                                assert(p[0] == p[i - 1]);
                            }
                        }
                    }
                    fail[i] = 0;
                    proof {
                        assert forall|q: int| 1 <= q <= i implies is_longest_border(
                            p,
                            q,
                            #[trigger] fail@[q] as int,
                        ) by {
                            if q < i {
                                assert(is_longest_border(p, q, fail@[q] as int));
                            }
                        }
                    }
                    break ;
                }
                let ghost j_old = j as int;
                j = fail[j];
                proof {
                    assert(is_longest_border(p, j_old, j as int));
                    // the old candidate is dead: its last byte mismatched
                    assert forall|k: int| is_border(p, i as int, k) implies k <= j + 1 by {
                        if k == j_old + 1 {
                            assert(p[k - 1] == p[i - k + (k - 1)]);
                        } else if k >= 1 {
                            assert(k <= j_old);
                            assert(is_border(p, i - 1, k - 1)) by {
                                assert forall|u: int| 0 <= u < k - 1 implies #[trigger] p[u] == p[(i - 1) - (k - 1) + u] by {
                                    assert(p[u] == p[i - k + u]);
                                }
                            }
                            if k - 1 < j_old {
                                lemma_border_nesting(p, i - 1, k - 1, j_old);
                            }
                        }
                    }
                    // the new candidate is still a border of p[0..i-1]
                    assert(is_border(p, i - 1, j as int)) by {
                        assert forall|u: int| 0 <= u < j implies #[trigger] p[u] == p[(i - 1) - j + u] by {
                            assert(p[u] == p[j_old - j + u]);
                            assert(p[(j_old - j + u)] == p[(i - 1) - j_old + (j_old - j + u)]);
                        }
                    }
                }
            }
            i += 1;
        }
        proof {
            if m >= 1 {
                assert(is_longest_border(p, 1, fail@[1] as int));
            }
        }
        fail
    }

    pub fn new(target: &'a [u8]) -> (r: Self)
        ensures
            r@ == target@,
    {
        Self { target }
    }

    /// All start positions at which `pattern` occurs in the target, in
    /// increasing order. An empty pattern is allowed only with an empty
    /// target (it matches nowhere then).
    pub fn find_all(&self, pattern: &[u8]) -> (indices: Vec<usize>)
        requires
            pattern@.len() >= 1 || self@.len() == 0,
            pattern@.len() < usize::MAX,
        ensures
            strictly_increasing(indices@),
            pattern@.len() == 0 ==> indices@.len() == 0,
            pattern@.len() >= 1 ==> forall|s: int|
                #![trigger contains_value(indices@, s)]
                #![trigger is_occurrence(self@, pattern@, s)]
                contains_value(indices@, s) <==> is_occurrence(self@, pattern@, s),
    {
        let n = self.target.len();
        let m = pattern.len();
        let ghost t = self.target@;
        let ghost p = pattern@;
        let mut indices: Vec<usize> = Vec::new();
        let fail = Self::get_failure_function(pattern);
        let mut i: usize = 0;
        let mut j: usize = 0;
        while i < n
            invariant
                n == t.len(),
                m == p.len(),
                t == self@,
                p == pattern@,
                j <= i <= n,
                n == 0 || j < m,
                fail@.len() == m + 1,
                forall|q: int| 1 <= q <= m ==> is_longest_border(p, q, #[trigger] fail@[q] as int),
                m == 0 ==> indices@.len() == 0,
                match_at(t, p, i - j, j as int),
                forall|k: int|
                    0 <= k < indices@.len() ==> is_occurrence(t, p, #[trigger] indices@[k] as int)
                        && indices@[k] + m <= i,
                forall|s: int|
                    0 <= s < i - j && #[trigger] is_occurrence(t, p, s) ==> contains_value(
                        indices@,
                        s,
                    ),
                strictly_increasing(indices@),
            decreases n - i, j,
        {
            let ghost i0 = i as int;
            let ghost j0 = j as int;
            let ghost inds0 = indices@;
            if self.target[i] == pattern[j] {
                i += 1;
                j += 1;
                if j == m {
                    let s = i - m;
                    proof {
                        assert(is_occurrence(t, p, s as int));
                        assert forall|a: int, b: int|
                            0 <= a < b < inds0.push(s).len() implies inds0.push(s)[a] < inds0.push(
                            s,
                        )[b] by {
                            if b < inds0.len() {
                            } else {
                                assert(inds0.push(s)[a] == inds0[a]);
                                assert(inds0[a] + m <= i0);
                            }
                        }
                    }
                    indices.push(s);
                    j = fail[m];
                    proof {
                        assert(is_longest_border(p, m as int, j as int));
                        lemma_border_match(t, p, i as int, m as int, j as int);
                        // no occurrence can start inside the skipped stretch
                        assert forall|s2: int|
                            0 <= s2 < i - j && is_occurrence(t, p, s2) implies contains_value(
                            indices@,
                            s2,
                        ) by {
                            if s2 < i0 - j0 {
                                assert(contains_value(inds0, s2));
                                let k = choose|k: int| 0 <= k < inds0.len() && inds0[k] == s2;
                                assert(indices@[k] == s2);
                            } else if s2 == s {
                                assert(indices@[indices@.len() - 1] == s2);
                            } else {
                                let k2 = i - s2;
                                assert(match_at(t, p, s2, k2)) by {
                                    assert forall|u: int| 0 <= u < k2 implies #[trigger] t[s2 + u]
                                        == p[u] by {}
                                }
                                lemma_two_matches_border(t, p, i as int, k2, m as int);
                            }
                        }
                    }
                } else {
                    proof {
                        assert(match_at(t, p, i - j, j as int));
                    }
                }
            } else if j > 0 {
                let ghost jn = fail@[j0] as int;
                j = fail[j];
                proof {
                    assert(is_longest_border(p, j0, jn));
                    lemma_border_match(t, p, i as int, j0, jn);
                    assert forall|s2: int|
                        0 <= s2 < i - j && is_occurrence(t, p, s2) implies contains_value(
                        indices@,
                        s2,
                    ) by {
                        if s2 < i0 - j0 {
                        } else if s2 == i0 - j0 {
                            // an occurrence here would need t[i] == p[j], which just failed
                            assert(t[s2 + j0] == p[j0]);
                        } else {
                            let k2 = i - s2;
                            assert(match_at(t, p, s2, k2)) by {
                                assert forall|u: int| 0 <= u < k2 implies #[trigger] t[s2 + u]
                                    == p[u] by {}
                            }
                            lemma_two_matches_border(t, p, i as int, k2, j0);
                        }
                    }
                }
            } else {
                proof {
                    assert forall|s2: int|
                        0 <= s2 < i + 1 && is_occurrence(t, p, s2) implies contains_value(
                        indices@,
                        s2,
                    ) by {
                        if s2 == i0 {
                            assert(t[s2 + 0] == p[0]);
                        }
                    }
                }
                i += 1;
            }
        }
        proof {
            if m >= 1 {
                assert forall|s: int| #[trigger] contains_value(indices@, s) implies is_occurrence(
                    t,
                    p,
                    s,
                ) by {
                    let k = choose|k: int| 0 <= k < indices@.len() && indices@[k] == s;
                }
                assert forall|s: int| #[trigger] is_occurrence(t, p, s) implies contains_value(
                    indices@,
                    s,
                ) by {
                    if s >= n - j {
                        assert(s + m <= n);
                    }
                }
            }
        }
        indices
    }
}

} // verus!
