use vstd::prelude::*;

verus! {

broadcast use vstd::seq_lib::group_to_multiset_ensures;

pub open spec fn sorted_seq(s: Seq<i64>) -> bool {
    forall|a: int, b: int| 0 <= a <= b < s.len() ==> s[a] <= s[b]
}

/// Two sorted sequences with the same contents are the same sequence: the
/// sorted order is a canonical form, so the contracts below that fix the
/// contents and sortedness fix the whole state.
pub proof fn lemma_sorted_unique(s1: Seq<i64>, s2: Seq<i64>)
    requires
        sorted_seq(s1),
        sorted_seq(s2),
        s1.to_multiset() == s2.to_multiset(),
    ensures
        s1 == s2,
    decreases s1.len(),
{
    assert(s1.to_multiset().len() == s1.len());
    assert(s2.to_multiset().len() == s2.len());
    if s1.len() == 0 && s2.len() == 0 {
        assert(s1 =~= s2);
    } else {
        assert(s1[0] == s2[0]) by {
            assert(s1.contains(s1[0]) && s2.contains(s2[0]));
            assert(s2.to_multiset().count(s1[0]) > 0);
            assert(s2.contains(s1[0]));
            let i2 = choose|i: int| 0 <= i < s2.len() && s2[i] == s1[0];
            assert(s2[0] <= s1[0]);
            assert(s1.to_multiset().count(s2[0]) > 0);
            assert(s1.contains(s2[0]));
            let i1 = choose|i: int| 0 <= i < s1.len() && s1[i] == s2[0];
            assert(s1[0] <= s2[0]);
        }
        let t1 = s1.drop_first();
        let t2 = s2.drop_first();
        assert(s1.remove(0) =~= t1);
        assert(s2.remove(0) =~= t2);
        assert(t1.to_multiset() == s1.to_multiset().remove(s1[0]));
        assert(t2.to_multiset() == s2.to_multiset().remove(s2[0]));
        lemma_sorted_unique(t1, t2);
        assert(s1 =~= s2) by {
            assert(forall|i: int| 1 <= i < s1.len() ==> s1[i] == t1[i - 1] && s2[i] == t2[i - 1]);
        }
    }
}

/// An ordered multiset of integers, kept as a sorted vector: iteration,
/// first and last follow the value order, and duplicates are kept with
/// their multiplicity.
pub struct MultiSet {
    elems: Vec<i64>,
}

impl View for MultiSet {
    type V = Seq<i64>;

    /// The elements in nondecreasing order.
    closed spec fn view(&self) -> Seq<i64> {
        self.elems@
    }
}

impl Default for MultiSet {
    fn default() -> (r: Self)
        ensures
            r@ == Seq::<i64>::empty(),
    {
        MultiSet { elems: Vec::new() }
    }
}

impl MultiSet {
    pub open spec fn well_formed(&self) -> bool {
        sorted_seq(self@)
    }

    pub fn new() -> (r: Self)
        ensures
            r@ == Seq::<i64>::empty(),
            r.well_formed(),
    {
        MultiSet { elems: Vec::new() }
    }

    /// The multiset holding every element of `slice`.
    pub fn from_slice(slice: &[i64]) -> (r: Self)
        ensures
            r.well_formed(),
            r@.to_multiset() == slice@.to_multiset(),
            r@.len() == slice@.len(),
    {
        let mut result = Self::new();
        let mut i: usize = 0;
        while i < slice.len()
            invariant
                i <= slice@.len(),
                result.well_formed(),
                result@.to_multiset() == slice@.subrange(0, i as int).to_multiset(),
                result@.len() == i,
            decreases slice@.len() - i,
        {
            let e = slice[i];
            result.insert(e);
            proof {
                assert(slice@.subrange(0, i + 1) =~= slice@.subrange(0, i as int).push(
                    slice@[i as int],
                ));
            }
            i += 1;
        }
        proof {
            assert(slice@.subrange(0, slice@.len() as int) =~= slice@);
        }
        result
    }

    /// Removes everything.
    pub fn clear(&mut self)
        ensures
            final(self)@ == Seq::<i64>::empty(),
            final(self).well_formed(),
    {
        self.elems.clear();
    }

    pub fn is_empty(&self) -> (r: bool)
        ensures
            r == (self@.len() == 0),
    {
        self.elems.is_empty()
    }

    /// Total number of elements, multiplicity included.
    pub fn len(&self) -> (r: usize)
        ensures
            r == self@.len(),
    {
        self.elems.len()
    }

    /// How many elements equal `e`.
    pub fn count(&self, e: &i64) -> (r: usize)
        ensures
            r == self@.to_multiset().count(*e),
    {
        let mut cnt: usize = 0;
        let mut i: usize = 0;
        while i < self.elems.len()
            invariant
                i <= self@.len(),
                cnt == self@.subrange(0, i as int).to_multiset().count(*e),
                cnt <= i,
            decreases self@.len() - i,
        {
            proof {
                assert(self@.subrange(0, i + 1) =~= self@.subrange(0, i as int).push(
                    self@[i as int],
                ));
            }
            if self.elems[i] == *e {
                cnt += 1;
            }
            i += 1;
        }
        proof {
            assert(self@.subrange(0, self@.len() as int) =~= self@);
        }
        cnt
    }

    /// Adds one copy of `e`, keeping the order.
    pub fn insert(&mut self, e: i64)
        requires
            old(self).well_formed(),
        ensures
            final(self).well_formed(),
            final(self)@.to_multiset() == old(self)@.to_multiset().insert(e),
            final(self)@.len() == old(self)@.len() + 1,
    {
        let mut i: usize = 0;
        while i < self.elems.len() && self.elems[i] <= e
            invariant
                i <= self@.len(),
                self == old(self),
                forall|j: int| 0 <= j < i ==> self@[j] <= e,
            decreases self@.len() - i,
        {
            i += 1;
        }
        proof {
            assert forall|j: int| i <= j < self@.len() implies self@[j] > e by {
                assert(self@[i as int] <= self@[j]);
            }
        }
        let ghost before = self@;
        self.elems.insert(i, e);
        proof {
            let now = self@;
            assert(now.remove(i as int) =~= before);
            assert(now.remove(i as int).to_multiset() == now.to_multiset().remove(now[i as int]));
            assert(now[i as int] == e);
            assert(now.to_multiset().count(e) > 0) by {
                assert(now.contains(e));
            }
            assert(now.to_multiset() =~= before.to_multiset().insert(e));
        }
    }

    /// Whether at least one element equals `e`.
    pub fn contains(&self, e: &i64) -> (r: bool)
        ensures
            r == (self@.to_multiset().count(*e) > 0),
    {
        let mut i: usize = 0;
        while i < self.elems.len()
            invariant
                i <= self@.len(),
                forall|j: int| 0 <= j < i ==> self@[j] != *e,
            decreases self@.len() - i,
        {
            if self.elems[i] == *e {
                proof {
                    assert(self@.contains(*e));
                }
                return true;
            }
            i += 1;
        }
        proof {
            assert(!self@.contains(*e));
        }
        false
    }

    /// Drops one copy of `e` (the first in order) if any is present, and
    /// says whether it did.
    pub fn remove(&mut self, e: &i64) -> (r: bool)
        requires
            old(self).well_formed(),
        ensures
            final(self).well_formed(),
            old(self)@.to_multiset().count(*e) > 0 ==> r == true && final(self)@.to_multiset()
                == old(self)@.to_multiset().remove(*e) && final(self)@.len() == old(self)@.len()
                - 1,
            old(self)@.to_multiset().count(*e) == 0 ==> r == false && final(self)@ == old(self)@,
    {
        if !self.contains(e) {
            return false;
        }
        let mut i: usize = 0;
        while i < self.elems.len() && self.elems[i] != *e
            invariant
                i <= self@.len(),
                self == old(self),
                self@.to_multiset().count(*e) > 0,
                forall|j: int| 0 <= j < i ==> self@[j] != *e,
            decreases self@.len() - i,
        {
            i += 1;
        }
        proof {
            if i == self@.len() {
                assert(!self@.contains(*e));
            }
        }
        let ghost before = self@;
        self.elems.remove(i);
        proof {
            assert(self@ == before.remove(i as int));
            assert(before.remove(i as int).to_multiset() == before.to_multiset().remove(
                before[i as int],
            ));
        }
        true
    }

    /// The least element, if any.
    pub fn first(&self) -> (r: Option<i64>)
        requires
            self.well_formed(),
        ensures
            self@.len() == 0 ==> r == Option::<i64>::None,
            self@.len() > 0 ==> r == Some(self@[0]),
    {
        if self.elems.len() == 0 {
            None
        } else {
            Some(self.elems[0])
        }
    }

    /// The greatest element, if any.
    pub fn last(&self) -> (r: Option<i64>)
        requires
            self.well_formed(),
        ensures
            self@.len() == 0 ==> r == Option::<i64>::None,
            self@.len() > 0 ==> r == Some(self@[self@.len() - 1]),
    {
        if self.elems.len() == 0 {
            None
        } else {
            Some(self.elems[self.elems.len() - 1])
        }
    }

    /// Removes and returns the least element, if any.
    pub fn pop_first(&mut self) -> (r: Option<i64>)
        requires
            old(self).well_formed(),
        ensures
            final(self).well_formed(),
            old(self)@.len() == 0 ==> r == Option::<i64>::None && final(self)@ == old(self)@,
            old(self)@.len() > 0 ==> r == Some(old(self)@[0])
                && final(self)@ == old(self)@.drop_first(),
    {
        if self.is_empty() {
            return None;
        }
        let ghost before = self@;
        let min_key = self.first().unwrap();
        proof {
            assert(self@.contains(self@[0]));
        }
        self.remove(&min_key);
        proof {
            assert(before.remove(0) =~= before.drop_first());
            assert(before.drop_first().to_multiset() == before.to_multiset().remove(before[0]));
            lemma_sorted_unique(self@, before.drop_first());
        }
        Some(min_key)
    }

    /// Removes and returns the greatest element, if any.
    pub fn pop_last(&mut self) -> (r: Option<i64>)
        requires
            old(self).well_formed(),
        ensures
            final(self).well_formed(),
            old(self)@.len() == 0 ==> r == Option::<i64>::None && final(self)@ == old(self)@,
            old(self)@.len() > 0 ==> r == Some(old(self)@[old(self)@.len() - 1])
                && final(self)@ == old(self)@.drop_last(),
    {
        if self.is_empty() {
            return None;
        }
        let ghost before = self@;
        let max_key = self.last().unwrap();
        proof {
            assert(self@.contains(self@[self@.len() - 1]));
        }
        self.remove(&max_key);
        proof {
            assert(before.remove(before.len() - 1) =~= before.drop_last());
            assert(before.drop_last().to_multiset() == before.to_multiset().remove(
                before[before.len() - 1],
            ));
            lemma_sorted_unique(self@, before.drop_last());
        }
        Some(max_key)
    }

    /// A two-ended cursor over the elements in order.
    pub fn iter(&self) -> (it: Iter)
        requires
            self.well_formed(),
        ensures
            it.well_formed(),
            it.remaining() == self@,
    {
        Iter { elems: &self.elems, front: 0, back: self.elems.len() }
    }
}

/// Walks a `MultiSet` from either end, in value order.
pub struct Iter<'a> {
    elems: &'a Vec<i64>,
    front: usize,
    back: usize,
}

impl<'a> Iter<'a> {
    /// The elements not yet handed out.
    pub closed spec fn remaining(&self) -> Seq<i64> {
        self.elems@.subrange(self.front as int, self.back as int)
    }

    pub closed spec fn well_formed(&self) -> bool {
        self.front <= self.back <= self.elems@.len()
    }

    /// The next element from the front.
    pub fn next(&mut self) -> (r: Option<i64>)
        requires
            old(self).well_formed(),
        ensures
            final(self).well_formed(),
            old(self).remaining().len() == 0 ==> r == Option::<i64>::None
                && final(self).remaining() == old(self).remaining(),
            old(self).remaining().len() > 0 ==> r == Some(old(self).remaining()[0])
                && final(self).remaining() == old(self).remaining().drop_first(),
    {
        if self.front < self.back {
            let v = self.elems[self.front];
            self.front += 1;
            proof {
                assert(self.remaining() =~= old(self).remaining().drop_first());
            }
            Some(v)
        } else {
            None
        }
    }

    /// The next element from the back.
    pub fn next_back(&mut self) -> (r: Option<i64>)
        requires
            old(self).well_formed(),
        ensures
            final(self).well_formed(),
            old(self).remaining().len() == 0 ==> r == Option::<i64>::None
                && final(self).remaining() == old(self).remaining(),
            old(self).remaining().len() > 0 ==> r == Some(
                old(self).remaining()[old(self).remaining().len() - 1])
                && final(self).remaining() == old(self).remaining().drop_last(),
    {
        if self.front < self.back {
            let v = self.elems[self.back - 1];
            self.back -= 1;
            proof {
                assert(self.remaining() =~= old(self).remaining().drop_last());
            }
            Some(v)
        } else {
            None
        }
    }
}

} // verus!
