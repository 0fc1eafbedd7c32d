use vstd::prelude::*;

verus! {

/// An associative binary operation together with an identity element, carried
/// as a value so that a per-instance identity can travel with the structure
/// that uses it.
///
/// `in_carrier` names the values for which the algebraic laws are promised:
/// the laws need not hold of the whole type (a bounded-minimum instance, for
/// example, is only lawful below its bound), but the carrier must be closed
/// under the operation and contain the identity.
pub trait Monoid<T>: Sized {
    /// What the operation computes.
    spec fn op_spec(&self, a: T, b: T) -> T;

    /// The identity element.
    spec fn id_spec(&self) -> T;

    /// The values the laws below are promised for.
    spec fn in_carrier(&self, a: T) -> bool;

    /// The carrier is closed under the operation.
    proof fn lemma_op_closed(&self, a: T, b: T)
        requires
            self.in_carrier(a),
            self.in_carrier(b),
        ensures
            self.in_carrier(self.op_spec(a, b)),
    ;

    /// The identity lies in the carrier.
    proof fn lemma_id_in_carrier(&self)
        ensures
            self.in_carrier(self.id_spec()),
    ;

    /// The operation is associative on the carrier.
    proof fn lemma_assoc(&self, a: T, b: T, c: T)
        requires
            self.in_carrier(a),
            self.in_carrier(b),
            self.in_carrier(c),
        ensures
            self.op_spec(self.op_spec(a, b), c) == self.op_spec(a, self.op_spec(b, c)),
    ;

    /// The identity is neutral on both sides, on the carrier.
    proof fn lemma_identity(&self, a: T)
        requires
            self.in_carrier(a),
        ensures
            self.op_spec(self.id_spec(), a) == a,
            self.op_spec(a, self.id_spec()) == a,
    ;

    /// Executable operation, agreeing with `op_spec`.
    fn op(&self, a: T, b: T) -> (r: T)
        requires
            self.in_carrier(a),
            self.in_carrier(b),
        ensures
            r == self.op_spec(a, b),
    ;

    /// Executable identity, agreeing with `id_spec`.
    fn id(&self) -> (r: T)
        ensures
            r == self.id_spec(),
    ;
}

/// Every element of `s` lies in the carrier of `m`.
pub open spec fn all_in_carrier<T, M: Monoid<T>>(m: M, s: Seq<T>) -> bool {
    forall|k: int| 0 <= k < s.len() ==> m.in_carrier(s[k])
}

/// Left-to-right fold of `s` under the operation of `m`, seeded with the
/// identity: the combined value of a range, in order.
pub open spec fn range_op<T, M: Monoid<T>>(m: M, s: Seq<T>) -> T
    decreases s.len(),
{
    if s.len() == 0 {
        m.id_spec()
    } else {
        m.op_spec(range_op(m, s.drop_last()), s.last())
    }
}

/// A fold of carrier elements stays in the carrier.
pub proof fn lemma_range_op_in_carrier<T, M: Monoid<T>>(m: M, s: Seq<T>)
    requires
        all_in_carrier(m, s),
    ensures
        m.in_carrier(range_op(m, s)),
    decreases s.len(),
{
    if s.len() == 0 {
        m.lemma_id_in_carrier();
    } else {
        lemma_range_op_in_carrier(m, s.drop_last());
        m.lemma_op_closed(range_op(m, s.drop_last()), s.last());
    }
}

/// Folding a concatenation combines the folds of the parts, in order.
pub proof fn lemma_range_op_concat<T, M: Monoid<T>>(m: M, s: Seq<T>, t: Seq<T>)
    requires
        all_in_carrier(m, s),
        all_in_carrier(m, t),
    ensures
        range_op(m, s + t) == m.op_spec(range_op(m, s), range_op(m, t)),
    decreases t.len(),
{
    if t.len() == 0 {
        assert(s + t =~= s);
        lemma_range_op_in_carrier(m, s);
        m.lemma_identity(range_op(m, s));
    } else {
        assert((s + t).last() == t.last());
        assert((s + t).drop_last() =~= s + t.drop_last());
        lemma_range_op_concat(m, s, t.drop_last());
        lemma_range_op_in_carrier(m, s);
        lemma_range_op_in_carrier(m, t.drop_last());
        m.lemma_assoc(range_op(m, s), range_op(m, t.drop_last()), t.last());
    }
}

/// Folding a single element gives that element back.
pub proof fn lemma_range_op_singleton<T, M: Monoid<T>>(m: M, v: T)
    requires
        m.in_carrier(v),
    ensures
        range_op(m, seq![v]) == v,
{
    assert(seq![v].drop_last() =~= Seq::<T>::empty());
    assert(range_op(m, Seq::<T>::empty()) == m.id_spec());
    assert(seq![v].last() == v);
    m.lemma_identity(v);
}

/// Addition of `i64` values that wraps around on overflow, with identity `0`.
/// Wrapping makes the operation total, hence associative on all of `i64`.
pub struct WrappingAddMonoid;

impl Monoid<i64> for WrappingAddMonoid {
    open spec fn op_spec(&self, a: i64, b: i64) -> i64 {
        vstd::wrapping::i64_specs::wrapping_add(a, b)
    }

    open spec fn id_spec(&self) -> i64 {
        0i64
    }

    open spec fn in_carrier(&self, a: i64) -> bool {
        true
    }

    proof fn lemma_op_closed(&self, a: i64, b: i64) {
    }

    proof fn lemma_id_in_carrier(&self) {
    }

    proof fn lemma_assoc(&self, a: i64, b: i64, c: i64) {
    }

    proof fn lemma_identity(&self, a: i64) {
    }

    fn op(&self, a: i64, b: i64) -> (r: i64) {
        a.wrapping_add(b)
    }

    fn id(&self) -> (r: i64) {
        0
    }
}

/// Minimum of `i64` values bounded above by `top`, with identity `top`.
/// Lawful only on the carrier `{ a : a <= top }`: there `min(top, a) == a`.
pub struct MinMonoid {
    pub top: i64,
}

impl Monoid<i64> for MinMonoid {
    open spec fn op_spec(&self, a: i64, b: i64) -> i64 {
        if a <= b {
            a
        } else {
            b
        }
    }

    open spec fn id_spec(&self) -> i64 {
        self.top
    }

    open spec fn in_carrier(&self, a: i64) -> bool {
        a <= self.top
    }

    proof fn lemma_op_closed(&self, a: i64, b: i64) {
    }

    proof fn lemma_id_in_carrier(&self) {
    }

    proof fn lemma_assoc(&self, a: i64, b: i64, c: i64) {
    }

    proof fn lemma_identity(&self, a: i64) {
    }

    fn op(&self, a: i64, b: i64) -> (r: i64) {
        if a <= b {
            a
        } else {
            b
        }
    }

    fn id(&self) -> (r: i64) {
        self.top
    }
}

/// The first element of a range that differs from `blank`, with identity
/// `blank`. Associative but not commutative: it witnesses that folds are
/// combined strictly left before right.
pub struct FirstMonoid {
    pub blank: i64,
}

impl Monoid<i64> for FirstMonoid {
    open spec fn op_spec(&self, a: i64, b: i64) -> i64 {
        if a == self.blank {
            b
        } else {
            a
        }
    }

    open spec fn id_spec(&self) -> i64 {
        self.blank
    }

    open spec fn in_carrier(&self, a: i64) -> bool {
        true
    }

    proof fn lemma_op_closed(&self, a: i64, b: i64) {
    }

    proof fn lemma_id_in_carrier(&self) {
    }

    proof fn lemma_assoc(&self, a: i64, b: i64, c: i64) {
    }

    proof fn lemma_identity(&self, a: i64) {
    }

    fn op(&self, a: i64, b: i64) -> (r: i64) {
        if a == self.blank {
            b
        } else {
            a
        }
    }

    fn id(&self) -> (r: i64) {
        self.blank
    }
}

} // verus!
