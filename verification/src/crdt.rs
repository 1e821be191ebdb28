//! CRDTs: a grow-only set and a last-writer-wins register, each with its join
//! and a check of the join laws.

use vstd::prelude::*;
use vstd::pervasive::cloned;
use std::collections::BTreeSet;
use vstd::std_specs::iter::IteratorSpec;
use crate::exact::{clones_exactly, eq_gives, eq_is_equality, lawful_order};
use vstd::std_specs::cmp::PartialEqSpec;

verus! {

broadcast use vstd::std_specs::btree::group_btree_axioms;

/// Which of the join laws held on given values.
#[derive(Debug, Clone, Copy, PartialEq, Eq, Structural)]
pub struct CrdtLawVerification {
    pub idempotent: bool,
    pub commutative: bool,
    pub associative: bool,
    pub is_valid_crdt: bool,
}

/// A grow-only set; join is union.
#[derive(Debug, Clone, PartialEq)]
pub struct GSet<T: Ord + Clone> {
    pub elements: BTreeSet<T>,
}

/// The next item of `iter`: the first of the items it has still to give.
fn advance<I: Iterator>(iter: &mut I) -> (r: Option<I::Item>)
    ensures
        <I as IteratorSpec>::obeys_prophetic_iter_laws(&*final(iter)) == <I as IteratorSpec>::obeys_prophetic_iter_laws(&*old(iter)),
        <I as IteratorSpec>::obeys_prophetic_iter_laws(&*final(iter)) && <I as IteratorSpec>::remaining(&*old(iter)).len() > 0 ==> {
            &&& <I as IteratorSpec>::remaining(&*final(iter)) == <I as IteratorSpec>::remaining(&*old(iter)).drop_first()
            &&& r == Some(<I as IteratorSpec>::remaining(&*old(iter))[0])
        },
{
    iter.next()
}

/// Every element of `x` is in `y`.
fn subset_of<T: Ord + Clone>(x: &BTreeSet<T>, y: &BTreeSet<T>) -> (r: bool)
    ensures
        lawful_order::<T>() ==> r == x@.subset_of(y@),
{
    let n = x.len();
    let mut iter = x.iter();
    let ghost mut seen = Set::<T>::empty();
    let mut k: usize = 0;
    proof {
        if lawful_order::<T>() {
            assert(x.iter().remaining().skip(0) =~= x.iter().remaining());
            assert(x.iter().remaining().take(0).unref().to_set() =~= Set::<T>::empty());
        }
    }
    while k < n
        invariant
            k <= n,
            lawful_order::<T>() ==> {
                &&& x.iter().remaining().unref().to_set() == x@
                &&& x.iter().remaining().len() == n
                &&& iter.obeys_prophetic_iter_laws()
                &&& iter.remaining() == x.iter().remaining().skip(k as int)
                &&& seen == x.iter().remaining().take(k as int).unref().to_set()
                &&& seen.subset_of(y@)
            },
        decreases n - k,
    {
        let item = advance(&mut iter);
        match item {
            Some(e) => {
                proof {
                    if lawful_order::<T>() {
                        assert(x.iter().remaining().unref()[k as int] == *e);
                        assert(x.iter().remaining().unref().to_set().contains(*e));
                    }
                }
                if !y.contains(e) {
                    return false;
                }
                proof {
                    seen = seen.insert(*e);
                }
                proof {
                    if lawful_order::<T>() {
                        let s = x.iter().remaining();
                        assert(s.take(k + 1).unref() =~= s.take(k as int).unref().push(*e));
                        s.take(k as int).unref().lemma_push_to_set_commute(*e);
                        assert(iter.remaining() =~= s.skip(k + 1));
                    }
                }
            },
            None => {},
        }
        k = k + 1;
    }
    proof {
        if lawful_order::<T>() {
            assert(x.iter().remaining().take(n as int) =~= x.iter().remaining());
        }
    }
    true
}

impl<T: Ord + Clone> GSet<T> {
    /// The empty set.
    pub fn new() -> (r: Self)
        ensures
            r.elements@ == Set::<T>::empty(),
    {
        GSet { elements: BTreeSet::new() }
    }

    /// Add `val`.
    pub fn insert(&mut self, val: T)
        ensures
            lawful_order::<T>() ==> final(self).elements@ == old(self).elements@.insert(val),
    {
        self.elements.insert(val);
    }

    /// Whether `val` is an element.
    pub fn contains(&self, val: &T) -> (r: bool)
        ensures
            lawful_order::<T>() ==> r == self.elements@.contains(*val),
    {
        self.elements.contains(val)
    }

    /// The union of the two sets: every element of `other` is added to a copy
    /// of `self` (as a clone).
    pub fn join(&self, other: &Self) -> (r: Self)
        ensures
            lawful_order::<T>() ==> {
                &&& self.elements@.subset_of(r.elements@)
                &&& forall|x: T| #[trigger] r.elements@.contains(x) ==> self.elements@.contains(x)
                    || exists|y: T| other.elements@.contains(y) && cloned(y, x)
                &&& forall|y: T| #[trigger] other.elements@.contains(y) ==> exists|x: T| r.elements@.contains(x) && cloned(y, x)
            },
            lawful_order::<T>() && clones_exactly::<T>() ==> r.elements@ == self.elements@.union(other.elements@),
    {
        let mut elements = self.elements.clone();
        let n = other.elements.len();
        let mut iter = other.elements.iter();
        let ghost mut seen = Set::<T>::empty();
        let mut k: usize = 0;
        proof {
            if lawful_order::<T>() {
                assert(other.elements.iter().remaining().skip(0) =~= other.elements.iter().remaining());
                assert(other.elements.iter().remaining().take(0).unref().to_set() =~= Set::<T>::empty());
            }
        }
        while k < n
            invariant
                k <= n,
                lawful_order::<T>() ==> {
                    &&& other.elements.iter().remaining().unref().to_set() == other.elements@
                    &&& other.elements.iter().remaining().len() == n
                    &&& iter.obeys_prophetic_iter_laws()
                    &&& iter.remaining() == other.elements.iter().remaining().skip(k as int)
                    &&& seen == other.elements.iter().remaining().take(k as int).unref().to_set()
                    &&& self.elements@.subset_of(elements@)
                    &&& forall|x: T| #[trigger] elements@.contains(x) ==> self.elements@.contains(x)
                        || exists|y: T| seen.contains(y) && cloned(y, x)
                    &&& forall|y: T| #[trigger] seen.contains(y) ==> exists|x: T| elements@.contains(x) && cloned(y, x)
                },
            decreases n - k,
        {
            let item = advance(&mut iter);
            match item {
                Some(e) => {
                    let ghost old_elements = elements@;
                    let c = e.clone();
                    assert(cloned(*e, c));
                    elements.insert(c);
                    let ghost old_seen = seen;
                    proof {
                        seen = seen.insert(*e);
                    }
                    proof {
                        if lawful_order::<T>() {
                            let s = other.elements.iter().remaining();
                            assert(s.unref()[k as int] == *e);
                            assert(s.take(k + 1).unref() =~= s.take(k as int).unref().push(*e));
                            s.take(k as int).unref().lemma_push_to_set_commute(*e);
                            assert(iter.remaining() =~= s.skip(k + 1));
                            assert(elements@ == old_elements.insert(c));
                            assert forall|x: T| #[trigger] elements@.contains(x) implies self.elements@.contains(x)
                                || exists|y: T| seen.contains(y) && cloned(y, x) by {
                                if x == c {
                                    assert(seen.contains(*e) && cloned(*e, x));
                                } else {
                                    assert(old_elements.contains(x));
                                    if exists|y: T| old_seen.contains(y) && cloned(y, x) {
                                        let y = choose|y: T| old_seen.contains(y) && cloned(y, x);
                                        assert(seen.contains(y));
                                    }
                                }
                            }
                            assert forall|y: T| #[trigger] seen.contains(y) implies exists|x: T| elements@.contains(x) && cloned(y, x) by {
                                if y == *e {
                                    assert(elements@.contains(c) && cloned(y, c));
                                } else {
                                    assert(old_seen.contains(y));
                                    let x = choose|x: T| old_elements.contains(x) && cloned(y, x);
                                    assert(elements@.contains(x));
                                }
                            }
                        }
                    }
                },
                None => {},
            }
            k = k + 1;
        }
        proof {
            if lawful_order::<T>() {
                assert(other.elements.iter().remaining().take(n as int) =~= other.elements.iter().remaining());
                assert(seen == other.elements@);
                if clones_exactly::<T>() {
                    assert forall|x: T| #[trigger] elements@.contains(x) <==> self.elements@.union(other.elements@).contains(x) by {
                        if other.elements@.contains(x) {
                            let w = choose|w: T| elements@.contains(w) && cloned(x, w);
                            assert(w == x);
                        }
                        if elements@.contains(x) && !self.elements@.contains(x) {
                            let y = choose|y: T| seen.contains(y) && cloned(y, x);
                            assert(y == x);
                        }
                    }
                    assert(elements@ =~= self.elements@.union(other.elements@));
                }
            }
        }
        GSet { elements }
    }
}

/// The two sets have the same elements.
fn same_elements<T: Ord + Clone>(x: &BTreeSet<T>, y: &BTreeSet<T>) -> (r: bool)
    ensures
        lawful_order::<T>() ==> r == (x@ == y@),
{
    let r = subset_of(x, y) && subset_of(y, x);
    proof {
        if x@.subset_of(y@) && y@.subset_of(x@) {
            assert(x@ =~= y@);
        }
    }
    r
}

impl<T: Ord + Clone> GSet<T> {
    /// Check the join laws on `a`, `b`, `c`: a ⊔ a = a, a ⊔ b = b ⊔ a and
    /// a ⊔ (b ⊔ c) = (a ⊔ b) ⊔ c.
    pub fn verify_laws(a: &GSet<T>, b: &GSet<T>, c: &GSet<T>) -> (r: CrdtLawVerification)
        ensures
            r.is_valid_crdt == (r.idempotent && r.commutative && r.associative),
            lawful_order::<T>() && clones_exactly::<T>() ==> r.idempotent && r.commutative && r.associative,
    {
        let aa = a.join(a);
        let idempotent = same_elements(&aa.elements, &a.elements);
        let ab = a.join(b);
        let ba = b.join(a);
        let commutative = same_elements(&ab.elements, &ba.elements);
        let bc = b.join(c);
        let a_bc = a.join(&bc);
        let ab_c = ab.join(c);
        let associative = same_elements(&a_bc.elements, &ab_c.elements);
        proof {
            if lawful_order::<T>() && clones_exactly::<T>() {
                assert(aa.elements@ =~= a.elements@);
                assert(ab.elements@ =~= ba.elements@);
                assert(a_bc.elements@ =~= ab_c.elements@);
            }
        }
        CrdtLawVerification {
            idempotent,
            commutative,
            associative,
            is_valid_crdt: idempotent && commutative && associative,
        }
    }
}

/// A last-writer-wins register; join keeps the write with the later timestamp,
/// and the left operand on a tie.
#[derive(Debug, Clone, PartialEq)]
pub struct LwwRegister<T: Clone + PartialEq> {
    pub value: T,
    pub timestamp: u64,
}

/// The join of two registers as values.
pub open spec fn lww_join<T: Clone + PartialEq>(a: LwwRegister<T>, b: LwwRegister<T>) -> LwwRegister<T> {
    if a.timestamp >= b.timestamp {
        a
    } else {
        b
    }
}

/// `r` is `a` with its value replaced by a clone of it.
pub open spec fn lww_cloned<T: Clone + PartialEq>(a: LwwRegister<T>, r: LwwRegister<T>) -> bool {
    r.timestamp == a.timestamp && cloned(a.value, r.value)
}

impl<T: Clone + PartialEq> LwwRegister<T> {
    /// A register holding `value` written at `timestamp`.
    pub fn new(value: T, timestamp: u64) -> (r: Self)
        ensures
            r.value == value,
            r.timestamp == timestamp,
    {
        LwwRegister { value, timestamp }
    }

    /// The join: the write with the later timestamp, `self` on a tie.
    pub fn join(&self, other: &Self) -> (r: Self)
        ensures
            lww_cloned(lww_join(*self, *other), r),
            clones_exactly::<T>() ==> r == lww_join(*self, *other),
    {
        if self.timestamp >= other.timestamp {
            LwwRegister { value: self.value.clone(), timestamp: self.timestamp }
        } else {
            LwwRegister { value: other.value.clone(), timestamp: other.timestamp }
        }
    }

    /// The idempotent: the join of the register with itself, a copy of it.
    pub fn idempotent_apply(&self) -> (r: Self)
        ensures
            lww_cloned(*self, r),
            clones_exactly::<T>() ==> r == *self,
    {
        let v = self.value.clone();
        let r = LwwRegister { value: v, timestamp: self.timestamp };
        proof {
            if clones_exactly::<T>() {
                assert(cloned(self.value, v));
                assert(r.value == self.value);
            }
        }
        r
    }

    /// Check the laws on `a` and `b`: the idempotent leaves `a` as it is, and
    /// a ⊔ b = b ⊔ a, each compared by `==` on the values and on the timestamps.
    /// The second fails where the timestamps tie on different values.
    pub fn verify_laws(a: &LwwRegister<T>, b: &LwwRegister<T>) -> (r: bool)
        ensures
            exists|c: T, e1: bool, x: T, y: T, e2: bool|
                #![trigger eq_gives(c, a.value, e1), eq_gives(x, y, e2)]
                {
                    &&& cloned(a.value, c)
                    &&& eq_gives(c, a.value, e1)
                    &&& cloned(lww_join(*a, *b).value, x)
                    &&& cloned(lww_join(*b, *a).value, y)
                    &&& eq_gives(x, y, e2)
                    &&& r == (e1 && e2)
                },
            eq_is_equality::<T>() && clones_exactly::<T>() ==> r == (a.timestamp != b.timestamp
                || a.value == b.value),
    {
        let ia = a.idempotent_apply();
        let e1 = ia.value == a.value;
        let idempotent = e1 && ia.timestamp == a.timestamp;
        let ab = a.join(b);
        let ba = b.join(a);
        let e2 = ab.value == ba.value;
        let commutative = e2 && ab.timestamp == ba.timestamp;
        proof {
            assert(cloned(a.value, ia.value) && eq_gives(ia.value, a.value, e1) && cloned(lww_join(*a, *b).value, ab.value)
                && cloned(lww_join(*b, *a).value, ba.value) && eq_gives(ab.value, ba.value, e2)
                && (idempotent && commutative) == (e1 && e2));
            if eq_is_equality::<T>() && clones_exactly::<T>() {
                assert(ia.value == a.value);
            }
        }
        idempotent && commutative
    }
}

/// The grow-only set's join laws: union is idempotent, commutative and associative.
pub proof fn lemma_union_laws<T>(a: Set<T>, b: Set<T>, c: Set<T>)
    ensures
        a.union(a) == a,
        a.union(b) == b.union(a),
        a.union(b.union(c)) == a.union(b).union(c),
{
    assert(a.union(a) =~= a);
    assert(a.union(b) =~= b.union(a));
    assert(a.union(b.union(c)) =~= a.union(b).union(c));
}

/// The register's join laws: it keeps the write with the later timestamp, and
/// the left one on a tie; it is idempotent and associative, and commutative
/// except where two different values share a timestamp.
pub proof fn lemma_lww_join_laws<T: Clone + PartialEq>(a: LwwRegister<T>, b: LwwRegister<T>, c: LwwRegister<T>)
    ensures
        a.timestamp > b.timestamp ==> lww_join(a, b) == a && lww_join(b, a) == a,
        a.timestamp == b.timestamp ==> lww_join(a, b) == a,
        lww_join(a, a) == a,
        lww_join(a, lww_join(b, c)) == lww_join(lww_join(a, b), c),
        lww_join(a, b).timestamp == if a.timestamp >= b.timestamp { a.timestamp } else { b.timestamp },
        a.timestamp != b.timestamp || a == b ==> lww_join(a, b) == lww_join(b, a),
{
}

} // verus!
