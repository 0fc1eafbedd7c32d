use vstd::prelude::*;
use vstd::set_lib::{lemma_int_range, lemma_len_subset, lemma_set_disjoint_lens, set_int_range};

verus! {

/// The members of the class led by `r`.
pub open spec fn class_set(repr: Seq<int>, r: int) -> Set<int> {
    Set::new(|i: int| 0 <= i < repr.len() && repr[i] == r)
}

/// How many members the class led by `r` has.
pub open spec fn class_card(repr: Seq<int>, r: int) -> nat {
    class_set(repr, r).len()
}

/// Union-find over `0..n` with union by size and full path compression.
/// The abstraction is the map from each element to its current leader; the
/// flat array packs a parent pointer (nonnegative) or the negated class
/// size (at leaders) into one `isize` per element.
pub struct DisjointSet {
    n: usize,
    parent_or_size: Vec<isize>,
    repr: Ghost<Seq<int>>,
    dist: Ghost<Seq<nat>>,
}

impl View for DisjointSet {
    type V = Seq<int>;

    /// Each element's current leader.
    closed spec fn view(&self) -> Seq<int> {
        self.repr@
    }
}

impl DisjointSet {
    /// Number of elements.
    pub closed spec fn spec_len(&self) -> int {
        self.n as int
    }

    /// How far `a` still is from its leader, by the ghost depth measure.
    pub closed spec fn depth_gap(&self, a: int) -> int {
        self.dist@[self.repr@[a]] - self.dist@[a]
    }

    pub closed spec fn well_formed(&self) -> bool {
        let n = self.n as int;
        let s = self.parent_or_size@;
        let repr = self.repr@;
        let dist = self.dist@;
        &&& s.len() == n
        &&& repr.len() == n
        &&& dist.len() == n
        &&& n <= isize::MAX
        &&& forall|i: int|
            0 <= i < n && (#[trigger] s[i]) < 0 ==> repr[i] == i
        &&& forall|i: int|
            0 <= i < n && (#[trigger] s[i]) >= 0 ==> 0 <= s[i] < n && repr[s[i] as int] == repr[i]
                && dist[i] < dist[s[i] as int]
        &&& forall|i: int|
            0 <= i < n ==> 0 <= #[trigger] repr[i] < n && s[repr[i]] < 0 && dist[i]
                <= dist[repr[i]]
        &&& forall|r: int|
            0 <= r < n && (#[trigger] s[r]) < 0 ==> s[r] == -(class_card(repr, r) as int)
    }

    /// Every class is a subset of `0..n`, so its size is at most `n`.
    proof fn lemma_card_bound(repr: Seq<int>, r: int)
        ensures
            class_card(repr, r) <= repr.len(),
            class_set(repr, r).finite(),
    {
        lemma_int_range(0, repr.len() as int);
        lemma_len_subset(class_set(repr, r), set_int_range(0, repr.len() as int));
    }

    /// `size` fresh singleton classes.
    pub fn new(size: usize) -> (d: Self)
        requires
            size <= isize::MAX,
        ensures
            d.well_formed(),
            d.spec_len() == size,
            d@ =~= Seq::new(size as nat, |i: int| i),
    {
        let mut parent_or_size: Vec<isize> = Vec::new();
        while parent_or_size.len() < size
            invariant
                parent_or_size@.len() <= size,
                forall|i: int|
                    0 <= i < parent_or_size@.len() ==> #[trigger] parent_or_size@[i] == -1isize,
            decreases size - parent_or_size@.len(),
        {
            parent_or_size.push(-1);
        }
        let d = DisjointSet {
            n: size,
            parent_or_size,
            repr: Ghost(Seq::new(size as nat, |i: int| i)),
            dist: Ghost(Seq::new(size as nat, |i: int| 0nat)),
        };
        proof {
            assert forall|r: int| 0 <= r < size && (#[trigger] d.parent_or_size@[r]) < 0
                implies d.parent_or_size@[r] == -(class_card(d.repr@, r) as int) by {
                assert(class_set(d.repr@, r) =~= Set::<int>::empty().insert(r));
            }
        }
        d
    }

    /// The leader of `a`'s class, compressing the path walked.
    pub fn leader(&mut self, a: usize) -> (r: usize)
        requires
            old(self).well_formed(),
            a < old(self).spec_len(),
        ensures
            final(self).well_formed(),
            final(self)@ == old(self)@,
            final(self).spec_len() == old(self).spec_len(),
            r < final(self).spec_len(),
            r as int == old(self)@[a as int],
        decreases old(self).depth_gap(a as int),
    {
        let p = self.parent_or_size[a];
        if p < 0 {
            return a;
        }
        let pi = p as usize;
        let r = self.leader(pi);
        self.parent_or_size[a] = r as isize;
        proof {
            assert(self.repr@[a as int] == r as int);
            assert(self.dist@[a as int] < self.dist@[r as int]);
        }
        r
    }

    /// Joins the classes of `a` and `b` (the smaller hangs below the larger,
    /// the leader of `a` winning ties) and returns the new leader; if they
    /// are already one class, that leader, with nothing changed.
    pub fn merge(&mut self, a: usize, b: usize) -> (r: usize)
        requires
            old(self).well_formed(),
            a < old(self).spec_len(),
            b < old(self).spec_len(),
        ensures
            final(self).well_formed(),
            final(self).spec_len() == old(self).spec_len(),
            r < final(self).spec_len(),
            old(self)@[a as int] == old(self)@[b as int] ==> r as int == old(self)@[a as int]
                && final(self)@ == old(self)@,
            old(self)@[a as int] != old(self)@[b as int] ==> {
                let ca = class_card(old(self)@, old(self)@[a as int]);
                let cb = class_card(old(self)@, old(self)@[b as int]);
                &&& r as int == (if ca < cb {
                    old(self)@[b as int]
                } else {
                    old(self)@[a as int]
                })
                &&& final(self)@ == Seq::new(
                    old(self)@.len(),
                    |i: int|
                        if old(self)@[i] == old(self)@[a as int] || old(self)@[i] == old(
                            self,
                        )@[b as int] {
                            r as int
                        } else {
                            old(self)@[i]
                        },
                )
            },
    {
        let ghost repr0 = self.repr@;
        let mut x = self.leader(a);
        let mut y = self.leader(b);
        if x == y {
            return x;
        }
        proof {
            Self::lemma_card_bound(self.repr@, x as int);
            Self::lemma_card_bound(self.repr@, y as int);
        }
        let sx = self.parent_or_size[x];
        let sy = self.parent_or_size[y];
        if -sx < -sy {
            let t = x;
            x = y;
            y = t;
        }
        proof {
            assert(class_set(self.repr@, x as int).disjoint(class_set(self.repr@, y as int)));
            lemma_set_disjoint_lens(
                class_set(self.repr@, x as int),
                class_set(self.repr@, y as int),
            );
            lemma_int_range(0, self.n as int);
            lemma_len_subset(
                class_set(self.repr@, x as int) + class_set(self.repr@, y as int),
                set_int_range(0, self.n as int),
            );
            assert(class_card(self.repr@, x as int) + class_card(self.repr@, y as int)
                <= self.n);
        }
        let sx2 = self.parent_or_size[x];
        let sy2 = self.parent_or_size[y];
        let ghost old_repr = self.repr@;
        let ghost old_dist = self.dist@;
        let ghost n = self.n as int;
        let ghost xi = x as int;
        let ghost yi = y as int;
        self.parent_or_size[x] = sx2 + sy2;
        self.parent_or_size[y] = x as isize;
        proof {
            self.repr@ = Seq::new(
                old_repr.len(),
                |i: int| if old_repr[i] == yi { xi } else { old_repr[i] },
            );
            let dx = old_dist[xi];
            let dy = old_dist[yi];
            let dnew: nat = if dx > dy {
                dx
            } else {
                dy + 1
            };
            self.dist@ = old_dist.update(xi, dnew);
            assert(class_set(self.repr@, xi) =~= class_set(old_repr, xi) + class_set(
                old_repr,
                yi,
            ));
            assert forall|rr: int| 0 <= rr < n && rr != xi && (#[trigger] self
                .parent_or_size@[rr]) < 0 implies self.parent_or_size@[rr] == -(class_card(
                self.repr@,
                rr,
            ) as int) by {
                assert(class_set(self.repr@, rr) =~= class_set(old_repr, rr));
            }
        }
        x
    }

    /// Whether `a` and `b` are in the same class.
    pub fn same(&mut self, a: usize, b: usize) -> (r: bool)
        requires
            old(self).well_formed(),
            a < old(self).spec_len(),
            b < old(self).spec_len(),
        ensures
            final(self).well_formed(),
            final(self)@ == old(self)@,
            final(self).spec_len() == old(self).spec_len(),
            r == (old(self)@[a as int] == old(self)@[b as int]),
    {
        let la = self.leader(a);
        let lb = self.leader(b);
        la == lb
    }

    /// The number of elements in `a`'s class.
    pub fn size(&mut self, a: usize) -> (r: usize)
        requires
            old(self).well_formed(),
            a < old(self).spec_len(),
        ensures
            final(self).well_formed(),
            final(self)@ == old(self)@,
            final(self).spec_len() == old(self).spec_len(),
            r == class_card(old(self)@, old(self)@[a as int]),
    {
        let x = self.leader(a);
        proof {
            Self::lemma_card_bound(self.repr@, x as int);
        }
        let s = self.parent_or_size[x];
        (-s) as usize
    }
}

} // verus!
