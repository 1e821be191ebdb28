//! The grow-only counter: a count per node name, joined by taking the larger
//! count of each node.

use vstd::prelude::*;
use crate::crdt::CrdtLawVerification;
use crate::order::{
    compare_text, lemma_text_lt_asymmetric, lemma_text_lt_irreflexive, lemma_text_lt_transitive,
    lemma_text_total, text_lt, Order,
};

verus! {

/// A grow-only counter, kept as its entries sorted by node name with no name twice.
#[derive(Debug, PartialEq)]
pub struct GCounter {
    counts: Vec<(String, u64)>,
}

impl Clone for GCounter {
    /// A copy of the counter, entry by entry.
    fn clone(&self) -> (r: Self)
        ensures
            r@ == self@,
            r.total_count() == self.total_count(),
    {
        proof {
            use_type_invariant(self);
        }
        GCounter { counts: self.copy_entries() }
    }
}

/// The map from node names to counts that a list of entries stands for.
pub open spec fn entries_view(s: Seq<(String, u64)>) -> Map<Seq<char>, u64>
    decreases s.len(),
{
    if s.len() == 0 {
        Map::empty()
    } else {
        entries_view(s.drop_last()).insert(s.last().0@, s.last().1)
    }
}

/// The entries' names are strictly increasing.
pub open spec fn sorted_names(s: Seq<(String, u64)>) -> bool {
    forall|i: int, j: int| 0 <= i < j < s.len() ==> text_lt(#[trigger] s[i].0@, #[trigger] s[j].0@)
}

/// The count of `k` in `m`, zero where `m` has none.
pub open spec fn count_of(m: Map<Seq<char>, u64>, k: Seq<char>) -> u64 {
    if m.contains_key(k) {
        m[k]
    } else {
        0
    }
}

/// The larger of two counts.
pub open spec fn max_count(a: u64, b: u64) -> u64 {
    if a >= b {
        a
    } else {
        b
    }
}

/// The join of two counters as maps: every name of either, with the larger count.
pub open spec fn join_counts(m1: Map<Seq<char>, u64>, m2: Map<Seq<char>, u64>) -> Map<Seq<char>, u64> {
    Map::new(
        |k: Seq<char>| m1.contains_key(k) || m2.contains_key(k),
        |k: Seq<char>| max_count(count_of(m1, k), count_of(m2, k)),
    )
}

/// `m1` is absorbed by `m2`: every name of `m1` is in `m2` with at least its count.
pub open spec fn dominated(m1: Map<Seq<char>, u64>, m2: Map<Seq<char>, u64>) -> bool {
    forall|k: Seq<char>| #[trigger] m1.contains_key(k) ==> m2.contains_key(k) && m1[k] <= m2[k]
}

/// The sum of the entries' counts.
pub open spec fn entries_total(s: Seq<(String, u64)>) -> nat
    decreases s.len(),
{
    if s.len() == 0 {
        0
    } else {
        entries_total(s.drop_last()) + s.last().1 as nat
    }
}

/// The sum of the counts of a map with finitely many names.
pub open spec fn map_total(m: Map<Seq<char>, u64>) -> nat
    decreases m.dom().len(),
{
    if m.dom().finite() && m.dom().len() > 0 {
        let k = m.dom().choose();
        proof {
            assert(m.dom().contains(k));
            assert(m.remove(k).dom() =~= m.dom().remove(k));
        }
        m[k] as nat + map_total(m.remove(k))
    } else {
        0
    }
}

/// The empty map sums to zero.
pub proof fn lemma_map_total_empty()
    ensures
        map_total(Map::<Seq<char>, u64>::empty()) == 0,
{
    assert(Map::<Seq<char>, u64>::empty().dom() =~= Set::<Seq<char>>::empty());
}

/// The sum does not depend on which name is taken first: it is the count of any
/// name `k` plus the sum of the rest.
pub proof fn lemma_map_total_remove(m: Map<Seq<char>, u64>, k: Seq<char>)
    requires
        m.dom().finite(),
        m.contains_key(k),
    ensures
        map_total(m) == m[k] + map_total(m.remove(k)),
    decreases m.dom().len(),
{
    assert(m.dom().len() > 0);
    let c = m.dom().choose();
    assert(m.remove(c).dom() =~= m.dom().remove(c));
    assert(m.remove(k).dom() =~= m.dom().remove(k));
    if c != k {
        lemma_map_total_remove(m.remove(c), k);
        lemma_map_total_remove(m.remove(k), c);
        assert(m.remove(c).remove(k) =~= m.remove(k).remove(c));
    }
}

proof fn lemma_entries_total_is_map_total(s: Seq<(String, u64)>)
    requires
        sorted_names(s),
    ensures
        entries_view(s).dom().finite(),
        entries_total(s) == map_total(entries_view(s)),
    decreases s.len(),
{
    if s.len() == 0 {
        lemma_map_total_empty();
    } else {
        let d = s.drop_last();
        lemma_sorted_drop_last(s);
        lemma_entries_total_is_map_total(d);
        lemma_entries_fresh_last(s);
        let m = entries_view(s);
        let k = s.last().0@;
        assert(m.dom() =~= entries_view(d).dom().insert(k));
        lemma_map_total_remove(m, k);
        assert(m.remove(k) =~= entries_view(d));
    }
}

proof fn lemma_entries_dom(s: Seq<(String, u64)>, k: Seq<char>)
    ensures
        entries_view(s).contains_key(k) <==> exists|i: int| 0 <= i < s.len() && (#[trigger] s[i]).0@ == k,
    decreases s.len(),
{
    if s.len() > 0 {
        lemma_entries_dom(s.drop_last(), k);
        if entries_view(s.drop_last()).contains_key(k) {
            let i = choose|i: int| 0 <= i < s.drop_last().len() && (#[trigger] s.drop_last()[i]).0@ == k;
            assert(s[i] == s.drop_last()[i]);
        }
        if exists|i: int| 0 <= i < s.len() && (#[trigger] s[i]).0@ == k {
            let i = choose|i: int| 0 <= i < s.len() && (#[trigger] s[i]).0@ == k;
            if i < s.len() - 1 {
                assert(s.drop_last()[i] == s[i]);
            }
        }
    }
}

proof fn lemma_entries_value(s: Seq<(String, u64)>, i: int)
    requires
        sorted_names(s),
        0 <= i < s.len(),
    ensures
        entries_view(s).contains_key(s[i].0@),
        entries_view(s)[s[i].0@] == s[i].1,
    decreases s.len(),
{
    if i < s.len() - 1 {
        lemma_text_lt_asymmetric(s[i].0@, s[s.len() - 1].0@);
        assert(s.drop_last()[i] == s[i]);
        lemma_entries_value(s.drop_last(), i);
    }
}

proof fn lemma_sorted_drop_last(s: Seq<(String, u64)>)
    requires
        sorted_names(s),
        s.len() > 0,
    ensures
        sorted_names(s.drop_last()),
{
    assert forall|i: int, j: int| 0 <= i < j < s.drop_last().len() implies text_lt(
        #[trigger] s.drop_last()[i].0@,
        #[trigger] s.drop_last()[j].0@,
    ) by {
        assert(s.drop_last()[i] == s[i] && s.drop_last()[j] == s[j]);
    }
}

/// A sorted list of entries stands for `m` when it has exactly `m`'s names, with `m`'s counts.
proof fn lemma_entries_view_is(s: Seq<(String, u64)>, m: Map<Seq<char>, u64>)
    requires
        sorted_names(s),
        forall|k: Seq<char>| #[trigger] m.contains_key(k) <==> exists|i: int| 0 <= i < s.len() && (#[trigger] s[i]).0@ == k,
        forall|i: int| 0 <= i < s.len() ==> m[(#[trigger] s[i]).0@] == s[i].1,
    ensures
        entries_view(s) == m,
{
    assert forall|k: Seq<char>| #[trigger] entries_view(s).contains_key(k) <==> m.contains_key(k) by {
        lemma_entries_dom(s, k);
    }
    assert forall|k: Seq<char>| #[trigger] entries_view(s).contains_key(k) implies entries_view(s)[k] == m[k] by {
        lemma_entries_dom(s, k);
        let i = choose|i: int| 0 <= i < s.len() && (#[trigger] s[i]).0@ == k;
        lemma_entries_value(s, i);
    }
    assert(entries_view(s) =~= m);
}

/// Entries with the same names and counts, position by position, stand for the same map.
proof fn lemma_entries_view_pointwise(s: Seq<(String, u64)>, t: Seq<(String, u64)>)
    requires
        s.len() == t.len(),
        forall|i: int| 0 <= i < s.len() ==> (#[trigger] s[i]).0@ == t[i].0@ && s[i].1 == t[i].1,
    ensures
        entries_view(s) == entries_view(t),
    decreases s.len(),
{
    if s.len() > 0 {
        assert forall|i: int| 0 <= i < s.drop_last().len() implies (#[trigger] s.drop_last()[i]).0@ == t.drop_last()[i].0@
            && s.drop_last()[i].1 == t.drop_last()[i].1 by {
            assert(s.drop_last()[i] == s[i] && t.drop_last()[i] == t[i]);
        }
        lemma_entries_view_pointwise(s.drop_last(), t.drop_last());
    }
}

/// Two sorted lists of entries that stand for the same map agree position by position.
proof fn lemma_entries_canonical(s: Seq<(String, u64)>, t: Seq<(String, u64)>)
    requires
        sorted_names(s),
        sorted_names(t),
        entries_view(s) == entries_view(t),
    ensures
        s.len() == t.len(),
        forall|i: int| 0 <= i < s.len() ==> (#[trigger] s[i]).0@ == t[i].0@ && s[i].1 == t[i].1,
    decreases s.len(),
{
    if s.len() == 0 {
        if t.len() > 0 {
            lemma_entries_value(t, t.len() - 1);
        }
    } else if t.len() == 0 {
        lemma_entries_value(s, s.len() - 1);
    } else {
        let ls = s.len() - 1;
        let lt = t.len() - 1;
        let ks = s[ls].0@;
        let kt = t[lt].0@;
        lemma_entries_value(s, ls);
        lemma_entries_value(t, lt);
        lemma_entries_dom(t, ks);
        lemma_entries_dom(s, kt);
        let b = choose|b: int| 0 <= b < t.len() && (#[trigger] t[b]).0@ == ks;
        let a = choose|a: int| 0 <= a < s.len() && (#[trigger] s[a]).0@ == kt;
        if b < lt {
            assert(text_lt(ks, kt));
            if a < ls {
                assert(text_lt(kt, ks));
                lemma_text_lt_asymmetric(ks, kt);
            } else {
                lemma_text_lt_irreflexive(ks);
            }
        }
        assert(ks == kt);
        lemma_sorted_drop_last(s);
        lemma_sorted_drop_last(t);
        lemma_entries_fresh_last(s);
        lemma_entries_fresh_last(t);
        assert(entries_view(s.drop_last()) =~= entries_view(s).remove(ks));
        assert(entries_view(t.drop_last()) =~= entries_view(t).remove(kt));
        lemma_entries_canonical(s.drop_last(), t.drop_last());
        assert forall|i: int| 0 <= i < s.len() implies (#[trigger] s[i]).0@ == t[i].0@ && s[i].1 == t[i].1 by {
            if i < ls {
                assert(s.drop_last()[i] == s[i] && t.drop_last()[i] == t[i]);
            }
        }
    }
}

/// The last name of a sorted list is not among the earlier ones.
proof fn lemma_entries_fresh_last(s: Seq<(String, u64)>)
    requires
        sorted_names(s),
        s.len() > 0,
    ensures
        !entries_view(s.drop_last()).contains_key(s.last().0@),
{
    lemma_entries_dom(s.drop_last(), s.last().0@);
    if exists|i: int| 0 <= i < s.drop_last().len() && (#[trigger] s.drop_last()[i]).0@ == s.last().0@ {
        let i = choose|i: int| 0 <= i < s.drop_last().len() && (#[trigger] s.drop_last()[i]).0@ == s.last().0@;
        assert(s[i] == s.drop_last()[i]);
        assert(text_lt(s[i].0@, s[s.len() - 1].0@));
        lemma_text_lt_irreflexive(s.last().0@);
    }
}

proof fn lemma_total_update(s: Seq<(String, u64)>, i: int, e: (String, u64))
    requires
        0 <= i < s.len(),
    ensures
        entries_total(s.update(i, e)) + s[i].1 == entries_total(s) + e.1,
    decreases s.len(),
{
    if i < s.len() - 1 {
        assert(s.update(i, e).drop_last() =~= s.drop_last().update(i, e));
        lemma_total_update(s.drop_last(), i, e);
    } else {
        assert(s.update(i, e).drop_last() =~= s.drop_last());
    }
}

proof fn lemma_total_insert(s: Seq<(String, u64)>, i: int, e: (String, u64))
    requires
        0 <= i <= s.len(),
    ensures
        entries_total(s.insert(i, e)) == entries_total(s) + e.1,
    decreases s.len(),
{
    if i < s.len() {
        assert(s.insert(i, e).drop_last() =~= s.drop_last().insert(i, e));
        lemma_total_insert(s.drop_last(), i, e);
    } else {
        assert(s.insert(i, e).drop_last() =~= s);
    }
}

proof fn lemma_join_insert_left(m1: Map<Seq<char>, u64>, m2: Map<Seq<char>, u64>, k: Seq<char>, v: u64)
    requires
        !m2.contains_key(k),
    ensures
        join_counts(m1.insert(k, v), m2) == join_counts(m1, m2).insert(k, v),
{
    assert(join_counts(m1.insert(k, v), m2) =~= join_counts(m1, m2).insert(k, v));
}

proof fn lemma_join_insert_right(m1: Map<Seq<char>, u64>, m2: Map<Seq<char>, u64>, k: Seq<char>, v: u64)
    requires
        !m1.contains_key(k),
    ensures
        join_counts(m1, m2.insert(k, v)) == join_counts(m1, m2).insert(k, v),
{
    assert(join_counts(m1, m2.insert(k, v)) =~= join_counts(m1, m2).insert(k, v));
}

proof fn lemma_join_insert_both(m1: Map<Seq<char>, u64>, m2: Map<Seq<char>, u64>, k: Seq<char>, v1: u64, v2: u64)
    ensures
        join_counts(m1.insert(k, v1), m2.insert(k, v2)) == join_counts(m1, m2).insert(k, max_count(v1, v2)),
{
    assert(join_counts(m1.insert(k, v1), m2.insert(k, v2)) =~= join_counts(m1, m2).insert(k, max_count(v1, v2)));
}

/// Every name of the first `i` entries is below `k`, so `k` is not among them.
proof fn lemma_absent_below(s: Seq<(String, u64)>, i: int, k: Seq<char>)
    requires
        0 <= i <= s.len(),
        forall|a: int| 0 <= a < i ==> text_lt((#[trigger] s[a]).0@, k),
    ensures
        !entries_view(s.take(i)).contains_key(k),
{
    lemma_entries_dom(s.take(i), k);
    if exists|a: int| 0 <= a < s.take(i).len() && (#[trigger] s.take(i)[a]).0@ == k {
        let a = choose|a: int| 0 <= a < s.take(i).len() && (#[trigger] s.take(i)[a]).0@ == k;
        assert(s.take(i)[a] == s[a]);
        lemma_text_lt_irreflexive(k);
    }
}

proof fn lemma_view_take_step(s: Seq<(String, u64)>, i: int)
    requires
        0 <= i < s.len(),
    ensures
        entries_view(s.take(i + 1)) == entries_view(s.take(i)).insert(s[i].0@, s[i].1),
{
    assert(s.take(i + 1).drop_last() =~= s.take(i));
}

proof fn lemma_view_push(s: Seq<(String, u64)>, e: (String, u64))
    ensures
        entries_view(s.push(e)) == entries_view(s).insert(e.0@, e.1),
{
    assert(s.push(e).drop_last() =~= s);
}

impl View for GCounter {
    type V = Map<Seq<char>, u64>;

    closed spec fn view(&self) -> Map<Seq<char>, u64> {
        entries_view(self.counts@)
    }
}

impl GCounter {
    /// The counter's entries are sorted by name with no name twice.
    #[verifier::type_invariant]
    pub closed spec fn wf(&self) -> bool {
        sorted_names(self.counts@)
    }

    /// The sum of the counts.
    pub closed spec fn total_count(&self) -> nat {
        entries_total(self.counts@)
    }

    /// Under well-formedness the total is the sum of the view's counts.
    pub proof fn lemma_total_count_is_sum(&self)
        requires
            self.wf(),
        ensures
            self@.dom().finite(),
            self.total_count() == map_total(self@),
    {
        lemma_entries_total_is_map_total(self.counts@);
    }

    /// The counter with no counts.
    pub fn new() -> (r: Self)
        ensures
            r.wf(),
            r@ == Map::<Seq<char>, u64>::empty(),
            r.total_count() == 0,
    {
        GCounter { counts: Vec::new() }
    }

    /// Add `amount` to the count of `node`.
    pub fn increment(&mut self, node: &str, amount: u64)
        requires
            count_of(old(self)@, node@) + amount <= u64::MAX,
        ensures
            final(self).wf(),
            final(self)@ == old(self)@.insert(node@, (count_of(old(self)@, node@) + amount) as u64),
            final(self).total_count() == old(self).total_count() + amount,
    {
        proof {
            use_type_invariant(&*self);
        }
        let mut counts: Vec<(String, u64)> = Vec::new();
        std::mem::swap(&mut counts, &mut self.counts);
        let ghost s = counts@;
        let n = counts.len();
        let mut i: usize = 0;
        while i < n && compare_text(counts[i].0.as_str(), node) == Order::Less
            invariant
                n == s.len(),
                counts@ == s,
                i <= n,
                forall|a: int| 0 <= a < i ==> text_lt((#[trigger] s[a]).0@, node@),
            decreases n - i,
        {
            i = i + 1;
        }
        let found = i < n && compare_text(counts[i].0.as_str(), node) == Order::Equal;
        if found {
            proof {
                lemma_entries_value(s, i as int);
            }
            let new_count = counts[i].1 + amount;
            counts[i].1 = new_count;
            proof {
                let t = counts@;
                let m = entries_view(s).insert(node@, new_count);
                assert(t =~= s.update(i as int, (s[i as int].0, new_count)));
                assert forall|a: int, b: int| 0 <= a < b < t.len() implies text_lt(#[trigger] t[a].0@, #[trigger] t[b].0@) by {
                    assert(t[a].0 == s[a].0 && t[b].0 == s[b].0);
                }
                assert forall|k: Seq<char>| #[trigger] m.contains_key(k) <==> exists|a: int| 0 <= a < t.len() && (#[trigger] t[a]).0@ == k by {
                    lemma_entries_dom(s, k);
                    if exists|a: int| 0 <= a < s.len() && (#[trigger] s[a]).0@ == k {
                        let a = choose|a: int| 0 <= a < s.len() && (#[trigger] s[a]).0@ == k;
                        assert(t[a].0@ == k);
                    }
                    if exists|a: int| 0 <= a < t.len() && (#[trigger] t[a]).0@ == k {
                        let a = choose|a: int| 0 <= a < t.len() && (#[trigger] t[a]).0@ == k;
                        assert(s[a].0@ == k);
                    }
                }
                assert forall|a: int| 0 <= a < t.len() implies m[(#[trigger] t[a]).0@] == t[a].1 by {
                    if a != i {
                        lemma_entries_value(s, a);
                        lemma_text_total(s[a].0@, node@);
                        if text_lt(s[a].0@, node@) {
                            lemma_text_lt_asymmetric(s[a].0@, node@);
                        } else if text_lt(node@, s[a].0@) {
                            lemma_text_lt_asymmetric(node@, s[a].0@);
                        }
                        if a < i {
                            lemma_text_lt_irreflexive(node@);
                        } else {
                            lemma_text_lt_irreflexive(s[a].0@);
                        }
                    }
                }
                lemma_entries_view_is(t, m);
                lemma_total_update(s, i as int, (s[i as int].0, new_count));
            }
        } else {
            let entry = (node.to_owned(), amount);
            counts.insert(i, entry);
            proof {
                let t = counts@;
                let m = entries_view(s).insert(node@, amount);
                lemma_entries_dom(s, node@);
                if i < n {
                    lemma_text_total(s[i as int].0@, node@);
                }
                assert forall|a: int| i < a < n implies text_lt(node@, (#[trigger] s[a]).0@) by {
                    lemma_text_lt_transitive(node@, s[i as int].0@, s[a].0@);
                }
                assert forall|a: int, b: int| 0 <= a < b < t.len() implies text_lt(#[trigger] t[a].0@, #[trigger] t[b].0@) by {
                    if a < i && b > i {
                        lemma_text_lt_transitive(s[a].0@, node@, s[b - 1].0@);
                    }
                    if a > i {
                        assert(t[a] == s[a - 1] && t[b] == s[b - 1]);
                    }
                }
                assert(!entries_view(s).contains_key(node@)) by {
                    if exists|a: int| 0 <= a < s.len() && (#[trigger] s[a]).0@ == node@ {
                        let a = choose|a: int| 0 <= a < s.len() && (#[trigger] s[a]).0@ == node@;
                        lemma_text_lt_irreflexive(node@);
                    }
                }
                assert forall|k: Seq<char>| #[trigger] m.contains_key(k) <==> exists|a: int| 0 <= a < t.len() && (#[trigger] t[a]).0@ == k by {
                    lemma_entries_dom(s, k);
                    if exists|a: int| 0 <= a < s.len() && (#[trigger] s[a]).0@ == k {
                        let a = choose|a: int| 0 <= a < s.len() && (#[trigger] s[a]).0@ == k;
                        if a < i {
                            assert(t[a].0@ == k);
                        } else {
                            assert(t[a + 1].0@ == k);
                        }
                    }
                    if k == node@ {
                        assert(t[i as int].0@ == k);
                    }
                    if exists|a: int| 0 <= a < t.len() && (#[trigger] t[a]).0@ == k {
                        let a = choose|a: int| 0 <= a < t.len() && (#[trigger] t[a]).0@ == k;
                        if a < i {
                            assert(s[a].0@ == k);
                        } else if a > i {
                            assert(s[a - 1].0@ == k);
                        }
                    }
                }
                assert forall|a: int| 0 <= a < t.len() implies m[(#[trigger] t[a]).0@] == t[a].1 by {
                    if a < i {
                        lemma_entries_value(s, a);
                        lemma_text_lt_asymmetric(s[a].0@, node@);
                    } else if a > i {
                        lemma_entries_value(s, a - 1);
                        lemma_text_lt_asymmetric(node@, s[a - 1].0@);
                    }
                }
                lemma_entries_view_is(t, m);
                lemma_total_insert(s, i as int, entry);
            }
        }
        self.counts = counts;
    }
}

impl GCounter {
    /// The join: every node of either counter, with the larger of its two counts.
    pub fn join(&self, other: &Self) -> (r: Self)
        ensures
            r.wf(),
            r@ == join_counts(self@, other@),
            r.total_count() == map_total(join_counts(self@, other@)),
            r.total_count() <= self.total_count() + other.total_count(),
    {
        proof {
            use_type_invariant(self);
            use_type_invariant(other);
        }
        let ghost s1 = self.counts@;
        let ghost s2 = other.counts@;
        let n1 = self.counts.len();
        let n2 = other.counts.len();
        let mut out: Vec<(String, u64)> = Vec::new();
        let mut i: usize = 0;
        let mut j: usize = 0;
        proof {
            assert(s1.take(0) =~= Seq::<(String, u64)>::empty());
            assert(s2.take(0) =~= Seq::<(String, u64)>::empty());
            assert(join_counts(Map::empty(), Map::empty()) =~= Map::<Seq<char>, u64>::empty());
        }
        while i < n1 || j < n2
            invariant
                n1 == s1.len(),
                n2 == s2.len(),
                self.counts@ == s1,
                other.counts@ == s2,
                sorted_names(s1),
                sorted_names(s2),
                i <= n1,
                j <= n2,
                sorted_names(out@),
                entries_view(out@) == join_counts(entries_view(s1.take(i as int)), entries_view(s2.take(j as int))),
                entries_total(out@) <= entries_total(s1.take(i as int)) + entries_total(s2.take(j as int)),
                i < n1 ==> forall|a: int| 0 <= a < out@.len() ==> text_lt((#[trigger] out@[a]).0@, s1[i as int].0@),
                j < n2 ==> forall|a: int| 0 <= a < out@.len() ==> text_lt((#[trigger] out@[a]).0@, s2[j as int].0@),
                j < n2 ==> forall|a: int| 0 <= a < i ==> text_lt((#[trigger] s1[a]).0@, s2[j as int].0@),
                i < n1 ==> forall|b: int| 0 <= b < j ==> text_lt((#[trigger] s2[b]).0@, s1[i as int].0@),
            decreases n1 - i + n2 - j,
        {
            let ghost o = out@;
            let ghost i0 = i as int;
            let ghost j0 = j as int;
            let take_left;
            let take_right;
            if i < n1 && j < n2 {
                let c = compare_text(self.counts[i].0.as_str(), other.counts[j].0.as_str());
                take_left = c != Order::Greater;
                take_right = c != Order::Less;
            } else {
                take_left = i < n1;
                take_right = j < n2;
            }
            if take_left && take_right {
                let count = if self.counts[i].1 >= other.counts[j].1 {
                    self.counts[i].1
                } else {
                    other.counts[j].1
                };
                out.push((self.counts[i].0.clone(), count));
                i = i + 1;
                j = j + 1;
            } else if take_left {
                out.push((self.counts[i].0.clone(), self.counts[i].1));
                i = i + 1;
            } else {
                out.push((other.counts[j].0.clone(), other.counts[j].1));
                j = j + 1;
            }
            proof {
                let k = out@.last().0@;
                assert(out@.drop_last() =~= o);
                if take_left {
                    assert(s1.take(i as int).drop_last() =~= s1.take(i0));
                }
                if take_right {
                    assert(s2.take(j as int).drop_last() =~= s2.take(j0));
                }
                lemma_view_push(o, out@.last());
                if take_left {
                    lemma_view_take_step(s1, i0);
                }
                if take_right {
                    lemma_view_take_step(s2, j0);
                }
                if take_left && take_right {
                    lemma_join_insert_both(entries_view(s1.take(i0)), entries_view(s2.take(j0)), k, s1[i0].1, s2[j0].1);
                } else if take_left {
                    if j0 < n2 {
                        lemma_text_total(s1[i0].0@, s2[j0].0@);
                    }
                    lemma_absent_below(s2, j0, k);
                    lemma_join_insert_left(entries_view(s1.take(i0)), entries_view(s2.take(j0)), k, s1[i0].1);
                } else {
                    if i0 < n1 {
                        lemma_text_total(s1[i0].0@, s2[j0].0@);
                    }
                    lemma_absent_below(s1, i0, k);
                    lemma_join_insert_right(entries_view(s1.take(i0)), entries_view(s2.take(j0)), k, s2[j0].1);
                }
                // The new last name is above every earlier one.
                assert forall|a: int, b: int| 0 <= a < b < out@.len() implies text_lt(#[trigger] out@[a].0@, #[trigger] out@[b].0@) by {
                    if b < o.len() {
                        assert(out@[a] == o[a] && out@[b] == o[b]);
                    } else {
                        assert(out@[a] == o[a]);
                    }
                }
                // Every name so far is below the next names of both inputs.
                if i < n1 {
                    assert forall|a: int| 0 <= a < out@.len() implies text_lt((#[trigger] out@[a]).0@, s1[i as int].0@) by {
                        if take_left {
                            if a < o.len() {
                                assert(out@[a] == o[a]);
                                lemma_text_lt_transitive(o[a].0@, s1[i0].0@, s1[i as int].0@);
                            }
                        } else {
                            if a < o.len() {
                                assert(out@[a] == o[a]);
                            }
                        }
                    }
                    assert forall|b: int| 0 <= b < j implies text_lt((#[trigger] s2[b]).0@, s1[i as int].0@) by {
                        if take_left {
                            if b < j0 {
                                lemma_text_lt_transitive(s2[b].0@, s1[i0].0@, s1[i as int].0@);
                            } else {
                                assert(s2[b].0@ == s1[i0].0@);
                                assert(text_lt(s1[i0].0@, s1[i as int].0@));
                            }
                        }
                    }
                }
                if j < n2 {
                    assert forall|a: int| 0 <= a < out@.len() implies text_lt((#[trigger] out@[a]).0@, s2[j as int].0@) by {
                        if take_right {
                            if a < o.len() {
                                assert(out@[a] == o[a]);
                                lemma_text_lt_transitive(o[a].0@, s2[j0].0@, s2[j as int].0@);
                            }
                        } else {
                            if a < o.len() {
                                assert(out@[a] == o[a]);
                            }
                        }
                    }
                    assert forall|a: int| 0 <= a < i implies text_lt((#[trigger] s1[a]).0@, s2[j as int].0@) by {
                        if take_right {
                            if a < i0 {
                                lemma_text_lt_transitive(s1[a].0@, s2[j0].0@, s2[j as int].0@);
                            } else {
                                assert(s1[a].0@ == s2[j0].0@);
                                assert(text_lt(s2[j0].0@, s2[j as int].0@));
                            }
                        }
                    }
                }
            }
        }
        proof {
            assert(s1.take(n1 as int) =~= s1);
            assert(s2.take(n2 as int) =~= s2);
        }
        let r = GCounter { counts: out };
        proof {
            r.lemma_total_count_is_sum();
        }
        r
    }
}

proof fn lemma_total_prefix(s: Seq<(String, u64)>, i: int)
    requires
        0 <= i <= s.len(),
    ensures
        entries_total(s.take(i)) <= entries_total(s),
    decreases s.len(),
{
    if i == s.len() {
        assert(s.take(i) =~= s);
    } else {
        assert(s.take(i) =~= s.drop_last().take(i));
        lemma_total_prefix(s.drop_last(), i);
    }
}

impl GCounter {
    /// Whether the two counters hold the same counts.
    fn same_counts(&self, other: &Self) -> (r: bool)
        requires
            self.wf(),
            other.wf(),
        ensures
            r == (self@ == other@),
    {
        let ghost s = self.counts@;
        let ghost t = other.counts@;
        let n = self.counts.len();
        if n != other.counts.len() {
            proof {
                if entries_view(s) == entries_view(t) {
                    lemma_entries_canonical(s, t);
                }
            }
            return false;
        }
        let mut i: usize = 0;
        while i < n
            invariant
                n == s.len(),
                n == t.len(),
                self.counts@ == s,
                other.counts@ == t,
                sorted_names(s),
                sorted_names(t),
                i <= n,
                forall|a: int| 0 <= a < i ==> (#[trigger] s[a]).0@ == t[a].0@ && s[a].1 == t[a].1,
            decreases n - i,
        {
            let same = self.counts[i].0 == other.counts[i].0 && self.counts[i].1 == other.counts[i].1;
            if !same {
                proof {
                    if entries_view(s) == entries_view(t) {
                        lemma_entries_canonical(s, t);
                    }
                }
                return false;
            }
            i = i + 1;
        }
        proof {
            lemma_entries_view_pointwise(s, t);
        }
        true
    }

    /// The idempotent e(x) = x ⊔ x: a copy of the counter.
    pub fn idempotent_apply(&self) -> (r: Self)
        ensures
            r.wf(),
            r@ == self@,
            r.total_count() == self.total_count(),
    {
        proof {
            use_type_invariant(self);
        }
        GCounter { counts: self.copy_entries() }
    }

    /// The entries, node names in increasing order with their counts.
    pub fn counts(&self) -> (r: Vec<(String, u64)>)
        ensures
            entries_view(r@) == self@,
            sorted_names(r@),
    {
        proof {
            use_type_invariant(self);
        }
        self.copy_entries()
    }

    fn copy_entries(&self) -> (r: Vec<(String, u64)>)
        ensures
            r@ == self.counts@,
    {
        let ghost s = self.counts@;
        let n = self.counts.len();
        let mut out: Vec<(String, u64)> = Vec::new();
        let mut i: usize = 0;
        while i < n
            invariant
                n == s.len(),
                self.counts@ == s,
                i <= n,
                out@.len() == i,
                forall|a: int| 0 <= a < i ==> (#[trigger] out@[a]) == s[a],
            decreases n - i,
        {
            out.push((self.counts[i].0.clone(), self.counts[i].1));
            i = i + 1;
        }
        assert(out@ =~= s);
        out
    }

    /// The sum of the counts.
    pub fn total(&self) -> (r: u64)
        requires
            self.total_count() <= u64::MAX,
        ensures
            r == self.total_count(),
            r == map_total(self@),
    {
        proof {
            use_type_invariant(self);
            self.lemma_total_count_is_sum();
        }
        let ghost s = self.counts@;
        let n = self.counts.len();
        let mut sum: u64 = 0;
        let mut i: usize = 0;
        assert(s.take(0) =~= Seq::<(String, u64)>::empty());
        while i < n
            invariant
                n == s.len(),
                self.counts@ == s,
                entries_total(s) <= u64::MAX,
                i <= n,
                sum == entries_total(s.take(i as int)),
            decreases n - i,
        {
            proof {
                assert(s.take(i + 1).drop_last() =~= s.take(i as int));
                lemma_total_prefix(s, i + 1);
            }
            sum = sum + self.counts[i].1;
            i = i + 1;
        }
        assert(s.take(n as int) =~= s);
        sum
    }
}

/// Whether `state` has already converged: merging `all_known` into it changes
/// nothing, that is, `state` already holds every count of `all_known`.
pub fn zero_cost_check(state: &GCounter, all_known: &GCounter) -> (r: bool)
    ensures
        r == (join_counts(state@, all_known@) == state@),
        r == dominated(all_known@, state@),
{
    proof {
        use_type_invariant(state);
    }
    let merged = state.join(all_known);
    let r = merged.same_counts(state);
    proof {
        lemma_join_commutative(state@, all_known@);
        lemma_absorbed_iff_dominated(all_known@, state@);
    }
    r
}

/// Check the join laws on `a`, `b`, `c`: a ⊔ a = a, a ⊔ b = b ⊔ a and
/// a ⊔ (b ⊔ c) = (a ⊔ b) ⊔ c. All three hold on every input.
pub fn verify_crdt_laws(a: &GCounter, b: &GCounter, c: &GCounter) -> (r: CrdtLawVerification)
    ensures
        r.idempotent,
        r.commutative,
        r.associative,
        r.is_valid_crdt,
{
    proof {
        use_type_invariant(a);
        use_type_invariant(b);
        use_type_invariant(c);
    }
    let aa = a.join(a);
    let idempotent = aa.same_counts(a);
    let ab = a.join(b);
    let ba = b.join(a);
    let commutative = ab.same_counts(&ba);
    let bc = b.join(c);
    let a_bc = a.join(&bc);
    let ab_c = ab.join(c);
    let associative = a_bc.same_counts(&ab_c);
    proof {
        lemma_join_idempotent(a@);
        lemma_join_commutative(a@, b@);
        lemma_join_associative(a@, b@, c@);
    }
    CrdtLawVerification { idempotent, commutative, associative, is_valid_crdt: idempotent && commutative && associative }
}

/// Joining a counter with itself gives the counter back.
pub proof fn lemma_join_idempotent(m: Map<Seq<char>, u64>)
    ensures
        join_counts(m, m) == m,
{
    assert(join_counts(m, m) =~= m);
}

/// The join does not depend on the order of its operands.
pub proof fn lemma_join_commutative(m1: Map<Seq<char>, u64>, m2: Map<Seq<char>, u64>)
    ensures
        join_counts(m1, m2) == join_counts(m2, m1),
{
    assert(join_counts(m1, m2) =~= join_counts(m2, m1));
}

/// The join does not depend on how joins are grouped.
pub proof fn lemma_join_associative(m1: Map<Seq<char>, u64>, m2: Map<Seq<char>, u64>, m3: Map<Seq<char>, u64>)
    ensures
        join_counts(m1, join_counts(m2, m3)) == join_counts(join_counts(m1, m2), m3),
{
    assert(join_counts(m1, join_counts(m2, m3)) =~= join_counts(join_counts(m1, m2), m3));
}

/// The join is the least upper bound: it absorbs both operands, and anything
/// that absorbs both absorbs the join.
pub proof fn lemma_join_least_upper_bound(m1: Map<Seq<char>, u64>, m2: Map<Seq<char>, u64>, m3: Map<Seq<char>, u64>)
    ensures
        dominated(m1, join_counts(m1, m2)),
        dominated(m2, join_counts(m1, m2)),
        dominated(m1, m3) && dominated(m2, m3) ==> dominated(join_counts(m1, m2), m3),
{
}

/// A counter is absorbed by another exactly when joining it in leaves the other unchanged.
pub proof fn lemma_absorbed_iff_dominated(m1: Map<Seq<char>, u64>, m2: Map<Seq<char>, u64>)
    ensures
        (join_counts(m1, m2) == m2) == dominated(m1, m2),
{
    if dominated(m1, m2) {
        assert(join_counts(m1, m2) =~= m2);
    }
    if join_counts(m1, m2) == m2 {
        assert forall|k: Seq<char>| #[trigger] m1.contains_key(k) implies m2.contains_key(k) && m1[k] <= m2[k] by {
            assert(join_counts(m1, m2).contains_key(k));
        }
    }
}

/// An increment only grows a counter: the old counts are absorbed by the new ones.
pub proof fn lemma_increment_grows(m: Map<Seq<char>, u64>, k: Seq<char>, amount: u64)
    requires
        count_of(m, k) + amount <= u64::MAX,
    ensures
        dominated(m, m.insert(k, (count_of(m, k) + amount) as u64)),
{
}

} // verus!
