use vstd::prelude::*;
use crate::data_structure::monoid::{
    Monoid, all_in_carrier, range_op, lemma_range_op_in_carrier, lemma_range_op_concat,
    lemma_range_op_singleton,
};

verus! {

/// How an out-of-bounds request is reported.
#[derive(Clone, Copy, Debug, PartialEq, Eq, Structural)]
pub enum SegTreeError {
    /// `read`/`update` was given an index at or past the logical size.
    IndexOutOfRange,
    /// `query` was given a reversed range or one past the logical size.
    InvalidRange,
}

/// A range-reduction structure: a complete binary tree over `cap` leaves,
/// stored as one flat array of `2 * cap` slots. Slot `1` is the root, slot
/// `k` has children `2k` and `2k + 1`, and the leaf for logical position `p`
/// is slot `cap + p`. Leaves past the logical length hold the identity.
pub struct SegmentTree<T: Copy, M: Monoid<T>> {
    len: usize,
    cap: usize,
    node: Vec<T>,
    m: M,
}

pub open spec fn is_pow2(n: nat) -> bool
    decreases n,
{
    if n == 0 {
        false
    } else if n == 1 {
        true
    } else {
        n % 2 == 0 && is_pow2(n / 2)
    }
}

/// The heap property over a flat node array: every internal slot holds its
/// two children combined, and every slot holds a carrier value.
pub open spec fn heap_ok<T, M: Monoid<T>>(m: M, nodes: Seq<T>, cap: int) -> bool {
    &&& 1 <= cap
    &&& nodes.len() == 2 * cap
    &&& forall|k: int| 1 <= k < 2 * cap ==> m.in_carrier(#[trigger] nodes[k])
    &&& forall|k: int|
        1 <= k < cap ==> #[trigger] nodes[k] == m.op_spec(nodes[2 * k], nodes[2 * k + 1])
}

impl<T: Copy, M: Monoid<T>> View for SegmentTree<T, M> {
    type V = Seq<T>;

    /// The logical contents: the first `len` leaves.
    closed spec fn view(&self) -> Seq<T> {
        self.node@.subrange(self.cap as int, self.cap as int + self.len as int)
    }
}

impl<T: Copy, M: Monoid<T>> SegmentTree<T, M> {
    /// The monoid this tree combines with.
    pub closed spec fn monoid(&self) -> M {
        self.m
    }

    /// Established by construction and preserved by every operation:
    /// the capacity is the least power of two covering the logical length,
    /// the flat array has `2 * cap` slots, padding leaves hold the identity,
    /// and the heap property holds of every internal slot.
    pub closed spec fn well_formed(&self) -> bool {
        &&& is_pow2(self.cap as nat)
        &&& self.cap <= usize::MAX / 2
        &&& self.len <= self.cap
        &&& self.cap == 1 || self.cap < 2 * self.len
        &&& heap_ok(self.m, self.node@, self.cap as int)
        &&& forall|p: int|
            self.len <= p < self.cap ==> #[trigger] self.node@[self.cap + p] == self.m.id_spec()
        &&& all_in_carrier(self.m, self@)
    }

    /// Fresh tree of logical size `n`, every position holding the identity.
    pub fn new(n: usize, m: M) -> (t: Self)
        requires
            n <= usize::MAX / 4,
        ensures
            t.well_formed(),
            t.monoid() == m,
            t@.len() == n,
            forall|p: int| 0 <= p < n ==> t@[p] == m.id_spec(),
    {
        let mut cap: usize = 1;
        while cap < n
            invariant
                is_pow2(cap as nat),
                1 <= cap,
                cap == 1 || cap < 2 * n,
                n <= usize::MAX / 4,
                cap <= usize::MAX / 2,
            decreases 2 * n - cap,
        {
            cap = cap * 2;
        }
        let total = 2 * cap;
        let idv = m.id();
        let mut node: Vec<T> = Vec::new();
        while node.len() < total
            invariant
                node@.len() <= total,
                idv == m.id_spec(),
                forall|k: int| 0 <= k < node@.len() ==> #[trigger] node@[k] == m.id_spec(),
            decreases total - node@.len(),
        {
            node.push(idv);
        }
        let t = SegmentTree { len: n, cap, node, m };
        proof {
            t.m.lemma_id_in_carrier();
            t.m.lemma_identity(t.m.id_spec());
            assert(t@ =~= Seq::new(n as nat, |p: int| t.m.id_spec()));
        }
        t
    }

    /// Tree holding exactly the elements of `slice`, built bottom-up.
    pub fn from_slice(slice: &[T], m: M) -> (t: Self)
        requires
            slice@.len() <= usize::MAX / 4,
            forall|k: int| 0 <= k < slice@.len() ==> m.in_carrier(#[trigger] slice@[k]),
        ensures
            t.well_formed(),
            t.monoid() == m,
            t@ == slice@,
    {
        let n = slice.len();
        let mut t = Self::new(n, m);
        let ghost idval = t.m.id_spec();
        proof {
            t.m.lemma_id_in_carrier();
            assert forall|q: int| 0 <= q < t.cap implies #[trigger] t.node@[t.cap + q]
                == idval by {
                if q < n {
                    assert(t@[q] == idval);
                    assert(t@[q] == t.node@[t.cap + q]);
                }
            }
        }
        let mut j: usize = 0;
        while j < n
            invariant
                j <= n,
                n == t.len,
                t.len <= t.cap,
                t.cap <= usize::MAX / 2,
                is_pow2(t.cap as nat),
                t.cap == 1 || t.cap < 2 * t.len,
                t.node@.len() == 2 * t.cap,
                t.m == m,
                n == slice@.len(),
                forall|k: int| 0 <= k < slice@.len() ==> m.in_carrier(#[trigger] slice@[k]),
                m.in_carrier(idval),
                forall|q: int| 0 <= q < j ==> #[trigger] t.node@[t.cap + q] == slice@[q],
                forall|q: int| j <= q < t.cap ==> #[trigger] t.node@[t.cap + q] == idval,
                forall|k: int| 1 <= k < 2 * t.cap ==> m.in_carrier(#[trigger] t.node@[k]),
            decreases n - j,
        {
            let v = slice[j];
            t.node[t.cap + j] = v;
            j += 1;
        }
        let mut i: usize = t.cap;
        while i > 1
            invariant
                1 <= i <= t.cap,
                n == t.len,
                t.len <= t.cap,
                t.cap <= usize::MAX / 2,
                is_pow2(t.cap as nat),
                t.cap == 1 || t.cap < 2 * t.len,
                t.node@.len() == 2 * t.cap,
                t.m == m,
                n == slice@.len(),
                m.in_carrier(idval),
                forall|q: int| 0 <= q < n ==> #[trigger] t.node@[t.cap + q] == slice@[q],
                forall|q: int| n <= q < t.cap ==> #[trigger] t.node@[t.cap + q] == idval,
                forall|k: int| 1 <= k < 2 * t.cap ==> m.in_carrier(#[trigger] t.node@[k]),
                forall|k: int|
                    i <= k < t.cap ==> #[trigger] t.node@[k] == m.op_spec(
                        t.node@[2 * k],
                        t.node@[2 * k + 1],
                    ),
            decreases i,
        {
            i = i - 1;
            let a = t.node[2 * i];
            let b = t.node[2 * i + 1];
            let v = t.m.op(a, b);
            proof {
                m.lemma_op_closed(a, b);
            }
            t.node[i] = v;
        }
        proof {
            assert forall|q: int| 0 <= q < n implies t@[q] == slice@[q] by {
                assert(t.node@[t.cap + q] == slice@[q]);
            }
            assert(t@ =~= slice@);
            assert(t.well_formed());
        }
        t
    }

    /// The value at logical position `index`; `IndexOutOfRange` at or past
    /// the logical size (padding slots are not addressable).
    pub fn read(&self, index: usize) -> (r: Result<T, SegTreeError>)
        requires
            self.well_formed(),
        ensures
            match r {
                Ok(v) => index < self@.len() && v == self@[index as int],
                Err(e) => index >= self@.len() && e == SegTreeError::IndexOutOfRange,
            },
    {
        if index < self.len {
            Ok(self.node[self.cap + index])
        } else {
            Err(SegTreeError::IndexOutOfRange)
        }
    }

    /// The logical contents as a vector, in positional order.
    pub fn to_vec(&self) -> (v: Vec<T>)
        requires
            self.well_formed(),
        ensures
            v@ == self@,
    {
        let mut v: Vec<T> = Vec::new();
        let mut j: usize = 0;
        while j < self.len
            invariant
                j <= self.len,
                self.well_formed(),
                v@ =~= self@.subrange(0, j as int),
            decreases self.len - j,
        {
            proof {
                assert(self.node@.len() == 2 * (self.cap as int));
            }
            v.push(self.node[self.cap + j]);
            j += 1;
        }
        proof {
            assert(v@ =~= self@);
        }
        v
    }

    /// Writes `value` at logical position `index` and recombines the
    /// ancestors of that leaf, so the heap property holds again; every other
    /// slot is untouched. `IndexOutOfRange` (with no change) at or past the
    /// logical size.
    pub fn update(&mut self, index: usize, value: T) -> (r: Result<(), SegTreeError>)
        requires
            old(self).well_formed(),
            old(self).monoid().in_carrier(value),
        ensures
            final(self).well_formed(),
            final(self).monoid() == old(self).monoid(),
            match r {
                Ok(()) => index < old(self)@.len() && final(self)@ == old(self)@.update(
                    index as int,
                    value,
                ),
                Err(e) => index >= old(self)@.len() && e == SegTreeError::IndexOutOfRange
                    && final(self)@ == old(self)@,
            },
    {
        let ghost orig = *self;
        if index >= self.len {
            return Err(SegTreeError::IndexOutOfRange);
        }
        let mut i = self.cap + index;
        let ghost f0 = i as int;
        let ghost m = self.m;
        self.node[i] = value;
        proof {
            assert(in_chain(f0, f0));
            assert forall|j: int|
                1 <= j < orig.cap && !(in_chain(j, f0) && j < i) implies #[trigger] self.node@[j]
                == m.op_spec(self.node@[2 * j], self.node@[2 * j + 1]) by {
                if 2 * j == f0 || 2 * j + 1 == f0 {
                    assert(j == f0 / 2);
                    lemma_chain_step(f0, f0);
                }
            }
        }
        while i > 1
            invariant
                1 <= i < 2 * orig.cap,
                in_chain(i as int, f0),
                f0 == orig.cap + index,
                index < orig.len,
                self.cap == orig.cap,
                self.len == orig.len,
                self.m == orig.m,
                m == orig.m,
                orig.well_formed(),
                self.node@.len() == 2 * orig.cap,
                forall|j: int|
                    orig.cap <= j < 2 * orig.cap ==> #[trigger] self.node@[j]
                        == orig.node@.update(f0, value)[j],
                forall|k: int| 1 <= k < 2 * orig.cap ==> m.in_carrier(#[trigger] self.node@[k]),
                forall|j: int|
                    1 <= j < orig.cap && !(in_chain(j, f0) && j < i) ==> #[trigger] self.node@[j]
                        == m.op_spec(self.node@[2 * j], self.node@[2 * j + 1]),
            decreases i,
        {
            let ghost i_old = i as int;
            i = i / 2;
            let a = self.node[2 * i];
            let b = self.node[2 * i + 1];
            let v = self.m.op(a, b);
            proof {
                m.lemma_op_closed(a, b);
                lemma_chain_step(i_old, f0);
            }
            self.node[i] = v;
            proof {
                let nu = i as int;
                assert forall|j: int|
                    1 <= j < orig.cap && !(in_chain(j, f0) && j < nu) implies #[trigger] self
                    .node@[j] == m.op_spec(self.node@[2 * j], self.node@[2 * j + 1]) by {
                    if j == nu {
                    } else {
                        if in_chain(j, f0) && j < i_old {
                            lemma_chain_below(j, i_old, f0);
                            lemma_chain_le(j, nu);
                        }
                        assert(2 * j != nu && 2 * j + 1 != nu) by {
                            if 2 * j == nu || 2 * j + 1 == nu {
                                assert(j == nu / 2);
                                lemma_chain_step(nu, f0);
                                lemma_chain_le(j, nu / 2);
                            }
                        }
                    }
                }
            }
        }
        proof {
            assert(self.well_formed()) by {
                assert forall|p: int|
                    #![trigger self.node@[self.cap + p]]
                    self.len <= p < self.cap implies self.node@[self.cap + p] == self
                    .m
                    .id_spec() by {
                    assert(self.node@[self.cap + p] == orig.node@.update(f0, value)[self.cap + p]);
                }
                assert(all_in_carrier(self.m, self@)) by {
                    assert forall|k: int| 0 <= k < self@.len() implies self.m.in_carrier(
                        self@[k],
                    ) by {
                        assert(self@[k] == self.node@[self.cap + k]);
                    }
                }
            }
            assert(self@ =~= orig@.update(index as int, value));
        }
        Ok(())
    }

    /// Combined value of the half-open logical range `[left, right)`, with
    /// `left` defaulting to `0` and `right` to the logical size. The result
    /// is the fold of the range's elements strictly left to right, so the
    /// answer is exact for non-commutative operations too; an empty range
    /// yields the identity. `InvalidRange` if `left > right` or `right`
    /// exceeds the logical size.
    pub fn query(&self, left: Option<usize>, right: Option<usize>) -> (r: Result<
        T,
        SegTreeError,
    >)
        requires
            self.well_formed(),
        ensures
            ({
                let lo = match left {
                    Some(x) => x as int,
                    None => 0,
                };
                let hi = match right {
                    Some(x) => x as int,
                    None => self@.len() as int,
                };
                match r {
                    Ok(v) => lo <= hi <= self@.len() && v == range_op(
                        self.monoid(),
                        self@.subrange(lo, hi),
                    ),
                    Err(e) => !(lo <= hi <= self@.len()) && e == SegTreeError::InvalidRange,
                }
            }),
    {
        let lo = match left {
            Some(x) => x,
            None => 0,
        };
        let hi = match right {
            Some(x) => x,
            None => self.len,
        };
        if lo > hi || hi > self.len {
            return Err(SegTreeError::InvalidRange);
        }
        let ghost m = self.m;
        let ghost nodes = self.node@;
        proof {
            assert(self.node@.len() == 2 * (self.cap as int));
        }
        let ghost cap = self.cap as int;
        let ghost target_seq = nodes.subrange(cap + lo, cap + hi);
        let mut l = self.cap + lo;
        let mut r = self.cap + hi;
        let mut res_l = self.m.id();
        let mut res_r = self.m.id();
        proof {
            m.lemma_id_in_carrier();
            lemma_level_leaves(nodes, cap, cap + lo, cap + hi);
            lemma_level_in_carrier(m, nodes, cap, cap + lo, cap + hi);
            lemma_range_op_in_carrier(m, target_seq);
            m.lemma_identity(range_op(m, target_seq));
        }
        while l < r
            invariant
                self.well_formed(),
                nodes == self.node@,
                cap == self.cap as int,
                m == self.m,
                1 <= l <= r <= 2 * cap,
                m.in_carrier(res_l),
                m.in_carrier(res_r),
                m.op_spec(res_l, m.op_spec(range_op(m, level_seg(nodes, cap, l as int, r as int)), res_r))
                    == range_op(m, target_seq),
            decreases r,
        {
            let ghost l0 = l as int;
            let ghost r0 = r as int;
            proof {
                lemma_level_in_carrier(m, nodes, cap, l0, r0);
            }
            if l % 2 == 1 {
                let x = self.node[l];
                proof {
                    // peel the leftmost covered node off the window
                    assert(level_seg(nodes, cap, l0, r0) =~= node_seg(nodes, cap, l0) + level_seg(
                        nodes,
                        cap,
                        l0 + 1,
                        r0,
                    ));
                    lemma_node_seg(m, nodes, cap, l0);
                    lemma_level_in_carrier(m, nodes, cap, l0 + 1, r0);
                    lemma_range_op_concat(
                        m,
                        node_seg(nodes, cap, l0),
                        level_seg(nodes, cap, l0 + 1, r0),
                    );
                    let rest = range_op(m, level_seg(nodes, cap, l0 + 1, r0));
                    lemma_range_op_in_carrier(m, level_seg(nodes, cap, l0 + 1, r0));
                    m.lemma_op_closed(rest, res_r);
                    m.lemma_assoc(res_l, nodes[l0], m.op_spec(rest, res_r));
                    m.lemma_assoc(nodes[l0], rest, res_r);
                    m.lemma_op_closed(res_l, nodes[l0]);
                }
                res_l = self.m.op(res_l, x);
                l += 1;
            }
            proof {
                assert(l as int == r0 ==> l % 2 == 0);
            }
            if r % 2 == 1 {
                r -= 1;
                let x = self.node[r];
                proof {
                    lemma_level_snoc(nodes, cap, l as int, r as int + 1);
                    lemma_node_seg(m, nodes, cap, r as int);
                    lemma_level_in_carrier(m, nodes, cap, l as int, r as int);
                    lemma_range_op_concat(
                        m,
                        level_seg(nodes, cap, l as int, r as int),
                        node_seg(nodes, cap, r as int),
                    );
                    let head = range_op(m, level_seg(nodes, cap, l as int, r as int));
                    lemma_range_op_in_carrier(m, level_seg(nodes, cap, l as int, r as int));
                    m.lemma_assoc(head, nodes[r as int], res_r);
                    m.lemma_op_closed(nodes[r as int], res_r);
                }
                res_r = self.m.op(x, res_r);
            }
            proof {
                if (l as int) < r as int {
                    lemma_level_even(nodes, cap, l as int, r as int);
                } else {
                    assert(level_seg(nodes, cap, l as int, r as int)
                        =~= level_seg(nodes, cap, l as int / 2, r as int / 2));
                }
            }
            l = l / 2;
            r = r / 2;
        }
        proof {
            m.lemma_identity(res_r);
            assert(self@.subrange(lo as int, hi as int) =~= target_seq);
        }
        Ok(self.m.op(res_l, res_r))
    }
}

/// `j` lies on the repeated-halving chain that starts at `x`.
spec fn in_chain(j: int, x: int) -> bool
    decreases x,
{
    if x < 1 {
        false
    } else if j == x {
        true
    } else {
        in_chain(j, x / 2)
    }
}

proof fn lemma_chain_le(j: int, x: int)
    requires
        in_chain(j, x),
    ensures
        1 <= j <= x,
    decreases x,
{
    if x >= 1 && j != x {
        lemma_chain_le(j, x / 2);
    }
}

/// Halving a chain member gives another chain member.
proof fn lemma_chain_step(i: int, f: int)
    requires
        in_chain(i, f),
        i >= 2,
    ensures
        in_chain(i / 2, f),
    decreases f,
{
    if f >= 1 && i != f {
        lemma_chain_step(i, f / 2);
    } else {
        assert(in_chain(i / 2, i / 2));
    }
}

/// Chain members below a chain member `i` all lie on the chain of `i / 2`.
proof fn lemma_chain_below(j: int, i: int, f: int)
    requires
        in_chain(i, f),
        in_chain(j, f),
        j < i,
    ensures
        in_chain(j, i / 2),
    decreases f,
{
    lemma_chain_le(i, f);
    lemma_chain_le(j, f);
    if i == f {
        assert(in_chain(j, f / 2));
    } else {
        lemma_chain_below(j, i, f / 2);
    }
}

/// The leaves covered by the subtree rooted at flat slot `x`.
spec fn node_seg<T>(nodes: Seq<T>, cap: int, x: int) -> Seq<T>
    decreases 2 * cap - x,
{
    if x < 1 || x >= 2 * cap {
        Seq::empty()
    } else if x >= cap {
        seq![nodes[x]]
    } else {
        node_seg(nodes, cap, 2 * x) + node_seg(nodes, cap, 2 * x + 1)
    }
}

/// The leaves covered by the row of subtrees rooted at slots `l .. r`.
spec fn level_seg<T>(nodes: Seq<T>, cap: int, l: int, r: int) -> Seq<T>
    decreases r - l,
{
    if l >= r {
        Seq::empty()
    } else {
        node_seg(nodes, cap, l) + level_seg(nodes, cap, l + 1, r)
    }
}

/// Under the heap property, a slot holds exactly the fold of the leaves its
/// subtree covers, and those leaves are carrier values.
proof fn lemma_node_seg<T, M: Monoid<T>>(m: M, nodes: Seq<T>, cap: int, x: int)
    requires
        heap_ok(m, nodes, cap),
        1 <= x < 2 * cap,
    ensures
        all_in_carrier(m, node_seg(nodes, cap, x)),
        range_op(m, node_seg(nodes, cap, x)) == nodes[x],
        node_seg(nodes, cap, x).len() >= 1,
    decreases 2 * cap - x,
{
    if x >= cap {
        lemma_range_op_singleton(m, nodes[x]);
    } else {
        lemma_node_seg(m, nodes, cap, 2 * x);
        lemma_node_seg(m, nodes, cap, 2 * x + 1);
        lemma_range_op_concat(m, node_seg(nodes, cap, 2 * x), node_seg(nodes, cap, 2 * x + 1));
    }
}

proof fn lemma_level_in_carrier<T, M: Monoid<T>>(m: M, nodes: Seq<T>, cap: int, l: int, r: int)
    requires
        heap_ok(m, nodes, cap),
        1 <= l,
        r <= 2 * cap,
    ensures
        all_in_carrier(m, level_seg(nodes, cap, l, r)),
    decreases r - l,
{
    if l < r {
        lemma_node_seg(m, nodes, cap, l);
        lemma_level_in_carrier(m, nodes, cap, l + 1, r);
    }
}

/// A row of leaf slots covers exactly those leaves, in order.
proof fn lemma_level_leaves<T>(nodes: Seq<T>, cap: int, a: int, b: int)
    requires
        1 <= cap,
        nodes.len() == 2 * cap,
        cap <= a <= b <= 2 * cap,
    ensures
        level_seg(nodes, cap, a, b) == nodes.subrange(a, b),
    decreases b - a,
{
    if a < b {
        lemma_level_leaves(nodes, cap, a + 1, b);
        assert(level_seg(nodes, cap, a, b) =~= nodes.subrange(a, b));
    } else {
        assert(level_seg(nodes, cap, a, b) =~= nodes.subrange(a, b));
    }
}

/// Peeling the rightmost subtree off a row.
proof fn lemma_level_snoc<T>(nodes: Seq<T>, cap: int, l: int, r: int)
    requires
        l < r,
    ensures
        level_seg(nodes, cap, l, r) == level_seg(nodes, cap, l, r - 1) + node_seg(
            nodes,
            cap,
            r - 1,
        ),
    decreases r - l,
{
    if l == r - 1 {
        assert(level_seg(nodes, cap, l + 1, r) =~= Seq::<T>::empty());
        assert(level_seg(nodes, cap, l, r - 1) =~= Seq::<T>::empty());
        assert(level_seg(nodes, cap, l, r) =~= level_seg(nodes, cap, l, r - 1) + node_seg(
            nodes,
            cap,
            r - 1,
        ));
    } else {
        lemma_level_snoc(nodes, cap, l + 1, r);
        assert(level_seg(nodes, cap, l, r - 1) =~= node_seg(nodes, cap, l) + level_seg(
            nodes,
            cap,
            l + 1,
            r - 1,
        ));
        assert(level_seg(nodes, cap, l, r) =~= level_seg(nodes, cap, l, r - 1) + node_seg(
            nodes,
            cap,
            r - 1,
        ));
    }
}

/// Halving an even-aligned row moves it one level up without changing the
/// leaves it covers.
proof fn lemma_level_even<T>(nodes: Seq<T>, cap: int, l: int, r: int)
    requires
        1 <= cap,
        l % 2 == 0,
        r % 2 == 0,
        2 <= l <= r <= 2 * cap,
    ensures
        level_seg(nodes, cap, l / 2, r / 2) == level_seg(nodes, cap, l, r),
    decreases r - l,
{
    if l == r {
    } else {
        lemma_level_even(nodes, cap, l + 2, r);
        assert((l + 2) / 2 == l / 2 + 1);
        assert(level_seg(nodes, cap, l + 1, r) =~= node_seg(nodes, cap, l + 1) + level_seg(
            nodes,
            cap,
            l + 2,
            r,
        ));
        assert(level_seg(nodes, cap, l / 2, r / 2) =~= node_seg(nodes, cap, l / 2) + level_seg(
            nodes,
            cap,
            l / 2 + 1,
            r / 2,
        ));
        assert(node_seg(nodes, cap, l / 2) =~= node_seg(nodes, cap, l) + node_seg(
            nodes,
            cap,
            l + 1,
        ));
        assert(level_seg(nodes, cap, l, r) =~= node_seg(nodes, cap, l) + (node_seg(nodes, cap, l + 1)
            + level_seg(nodes, cap, l + 2, r)));
        assert(level_seg(nodes, cap, l / 2, r / 2) =~= level_seg(nodes, cap, l, r));
    }
}

/// Decomposition law: the fold of `[i, k)` is the fold of `[i, j)` combined
/// with the fold of `[j, k)`, for any split point `j`.
pub proof fn lemma_query_decomposition<T, M: Monoid<T>>(m: M, s: Seq<T>, i: int, j: int, k: int)
    requires
        0 <= i <= j <= k <= s.len(),
        all_in_carrier(m, s),
    ensures
        range_op(m, s.subrange(i, k)) == m.op_spec(
            range_op(m, s.subrange(i, j)),
            range_op(m, s.subrange(j, k)),
        ),
{
    assert(s.subrange(i, k) =~= s.subrange(i, j) + s.subrange(j, k));
    lemma_range_op_concat(m, s.subrange(i, j), s.subrange(j, k));
}

/// Read-after-update law: writing `v` at `p` makes position `p` read back
/// `v`, and makes the one-element range `[p, p + 1)` fold to `v`.
pub proof fn lemma_read_after_update<T, M: Monoid<T>>(m: M, s: Seq<T>, p: int, v: T)
    requires
        0 <= p < s.len(),
        m.in_carrier(v),
    ensures
        s.update(p, v)[p] == v,
        range_op(m, s.update(p, v).subrange(p, p + 1)) == v,
{
    assert(s.update(p, v).subrange(p, p + 1) =~= seq![v]);
    lemma_range_op_singleton(m, v);
}

/// Empty-range law: the fold of `[k, k)` is the identity.
pub proof fn lemma_empty_range<T, M: Monoid<T>>(m: M, s: Seq<T>, k: int)
    requires
        0 <= k <= s.len(),
    ensures
        range_op(m, s.subrange(k, k)) == m.id_spec(),
{
    assert(s.subrange(k, k) =~= Seq::<T>::empty());
}

/// Build-equivalence law: folding the whole range of a sequence is folding
/// the sequence itself, so a freshly built tree's whole-range query is the
/// left-to-right fold of its input.
pub proof fn lemma_whole_range<T, M: Monoid<T>>(m: M, s: Seq<T>)
    ensures
        range_op(m, s.subrange(0, s.len() as int)) == range_op(m, s),
{
    assert(s.subrange(0, s.len() as int) =~= s);
}

} // verus!
