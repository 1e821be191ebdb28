//! The integer core of the complexity estimates: the size of a run-length
//! encoding, the byte values two strings share, and the complexity assigned to
//! named structures.

use vstd::prelude::*;
use vstd::arithmetic::power2::{lemma2_to64, lemma_pow2_unfold, pow2};
use crate::order::{compare_text, Order};

verus! {

/// ⌈log₂ n⌉, and 0 for n ≤ 1.
pub open spec fn ceil_log2(n: nat) -> nat
    decreases n,
{
    if n <= 1 {
        0
    } else {
        1 + ceil_log2(((n + 1) / 2) as nat)
    }
}

/// The length of the run of equal bytes that starts at `i`.
pub open spec fn run_length(s: Seq<u8>, i: int) -> nat
    decreases s.len() - i,
{
    if 0 <= i && i + 1 < s.len() && s[i + 1] == s[i] {
        1 + run_length(s, i + 1)
    } else {
        1
    }
}

/// The encoded size, in bits, of the runs from `i` on: a value and ⌈log₂ length⌉
/// bits of length for each maximal run.
pub open spec fn run_bits_from(s: Seq<u8>, i: int) -> nat
    decreases s.len() - i,
{
    if i < 0 || i >= s.len() {
        0
    } else {
        proof {
            lemma_run_length_bounds(s, i);
        }
        1 + ceil_log2(run_length(s, i)) + run_bits_from(s, i + run_length(s, i))
    }
}

/// The encoded size, in bits, of the whole byte string.
pub open spec fn run_bits(s: Seq<u8>) -> nat {
    run_bits_from(s, 0)
}

/// ⌈log₂ n⌉ is the least k with n ≤ 2ᵏ: 2ᵏ reaches n, and 2ᵏ⁻¹ does not.
pub proof fn lemma_ceil_log2_is_least_power(n: nat)
    requires
        n >= 1,
    ensures
        n <= pow2(ceil_log2(n)),
        ceil_log2(n) > 0 ==> pow2((ceil_log2(n) - 1) as nat) < n,
    decreases n,
{
    lemma2_to64();
    if n > 1 {
        let m = ((n + 1) / 2) as nat;
        let k = ceil_log2(m);
        lemma_ceil_log2_is_least_power(m);
        lemma_pow2_unfold(k + 1);
        if k > 0 {
            lemma_pow2_unfold(k);
            assert(pow2(k) == 2 * pow2((k - 1) as nat));
        }
    }
}

proof fn lemma_ceil_log2_small(n: nat)
    requires
        n >= 1,
    ensures
        1 + ceil_log2(n) <= n,
    decreases n,
{
    if n == 2 {
        assert(ceil_log2(1) == 0);
    } else if n > 2 {
        let m = ((n + 1) / 2) as nat;
        assert(m + 1 <= n);
        lemma_ceil_log2_small(m);
    }
}

/// A run is at least one byte long and ends within the string.
pub proof fn lemma_run_length_bounds(s: Seq<u8>, i: int)
    requires
        0 <= i < s.len(),
    ensures
        1 <= run_length(s, i) <= s.len() - i,
    decreases s.len() - i,
{
    if i + 1 < s.len() && s[i + 1] == s[i] {
        lemma_run_length_bounds(s, i + 1);
    }
}

proof fn lemma_run_bits_from_bound(s: Seq<u8>, i: int)
    requires
        0 <= i <= s.len(),
    ensures
        run_bits_from(s, i) <= s.len() - i,
    decreases s.len() - i,
{
    if i < s.len() {
        lemma_run_length_bounds(s, i);
        lemma_ceil_log2_small(run_length(s, i));
        lemma_run_bits_from_bound(s, i + run_length(s, i));
    }
}

/// The run-length size never exceeds one bit per byte.
pub proof fn lemma_run_bits_at_most_length(s: Seq<u8>)
    ensures
        run_bits(s) <= s.len(),
{
    lemma_run_bits_from_bound(s, 0);
}

/// ⌈log₂ n⌉.
fn ceil_log2_exec(n: usize) -> (r: u64)
    ensures
        r == ceil_log2(n as nat),
{
    let mut m = n;
    let mut k: u64 = 0;
    proof {
        if n >= 1 {
            lemma_ceil_log2_small(n as nat);
        }
    }
    while m > 1
        invariant
            k + ceil_log2(m as nat) == ceil_log2(n as nat),
            m <= n,
            n >= 1 ==> ceil_log2(n as nat) < n,
            n == 0 ==> m == 0,
        decreases m,
    {
        m = m / 2 + m % 2;
        k = k + 1;
    }
    k
}

/// The size in bits of the run-length encoding of `data`: for each maximal run
/// of equal bytes, one for the value and ⌈log₂ length⌉ for the length.
pub fn run_length_bits(data: &[u8]) -> (r: u64)
    ensures
        r == run_bits(data@),
        r <= data@.len(),
{
    let ghost s = data@;
    let n = data.len();
    let mut total: u64 = 0;
    let mut i: usize = 0;
    while i < n
        invariant
            n == s.len(),
            data@ == s,
            i <= n,
            total + run_bits_from(s, i as int) == run_bits(s),
            total <= i,
        decreases n - i,
    {
        let mut run: usize = 1;
        while i + run < n && data[i + run] == data[i]
            invariant
                n == s.len(),
                data@ == s,
                i < n,
                1 <= run,
                i + run <= n,
                s[i + run - 1] == s[i as int],
                run_length(s, i as int) == (run - 1) + run_length(s, i + run - 1),
            decreases n - i - run,
        {
            run = run + 1;
        }
        proof {
            lemma_run_length_bounds(s, i as int);
            lemma_ceil_log2_small(run_length(s, i as int));
            lemma_run_bits_from_bound(s, i + run);
        }
        let bits = ceil_log2_exec(run);
        total = total + 1 + bits;
        i = i + run;
    }
    proof {
        lemma_run_bits_from_bound(s, 0);
    }
    total
}

/// How many byte values below `n` occur in both `a` and `b`.
pub open spec fn shared_values(a: Seq<u8>, b: Seq<u8>, n: int) -> nat
    decreases n,
{
    if n <= 0 {
        0
    } else {
        shared_values(a, b, n - 1) + if has_byte(a, (n - 1) as u8) && has_byte(b, (n - 1) as u8) {
            1nat
        } else {
            0nat
        }
    }
}

/// How many byte values below `n` occur in `a` or in `b`.
pub open spec fn union_values(a: Seq<u8>, b: Seq<u8>, n: int) -> nat
    decreases n,
{
    if n <= 0 {
        0
    } else {
        union_values(a, b, n - 1) + if has_byte(a, (n - 1) as u8) || has_byte(b, (n - 1) as u8) {
            1nat
        } else {
            0nat
        }
    }
}

/// Byte value `v` occurs in `s`.
pub open spec fn has_byte(s: Seq<u8>, v: u8) -> bool {
    s.contains(v)
}

/// Which byte values occur in `data`, indexed by value.
fn byte_presence(data: &[u8]) -> (r: Vec<bool>)
    ensures
        r@.len() == 256,
        forall|v: int| 0 <= v < 256 ==> #[trigger] r@[v] == has_byte(data@, v as u8),
{
    let mut present: Vec<bool> = Vec::new();
    let mut v: usize = 0;
    while v < 256
        invariant
            v <= 256,
            present@.len() == v,
            forall|w: int| 0 <= w < v ==> !(#[trigger] present@[w]),
        decreases 256 - v,
    {
        present.push(false);
        v = v + 1;
    }
    let n = data.len();
    let mut i: usize = 0;
    while i < n
        invariant
            n == data@.len(),
            i <= n,
            present@.len() == 256,
            forall|w: int| 0 <= w < 256 ==> #[trigger] present@[w] == data@.take(i as int).contains(w as u8),
        decreases n - i,
    {
        let b = data[i];
        present.set(b as usize, true);
        proof {
            assert forall|w: int| 0 <= w < 256 implies #[trigger] present@[w] == data@.take(i + 1).contains(w as u8) by {
                if data@.take(i + 1).contains(w as u8) {
                    let k = choose|k: int| 0 <= k < i + 1 && #[trigger] data@.take(i + 1)[k] == w as u8;
                    if k < i {
                        assert(data@.take(i as int)[k] == w as u8);
                    }
                }
                if data@.take(i as int).contains(w as u8) {
                    let k = choose|k: int| 0 <= k < i && #[trigger] data@.take(i as int)[k] == w as u8;
                    assert(data@.take(i + 1)[k] == w as u8);
                }
                if w == b as int {
                    assert(data@.take(i + 1)[i as int] == b);
                }
            }
        }
        i = i + 1;
    }
    assert(data@.take(n as int) =~= data@);
    present
}

/// The byte values that occur in both strings, and in either: the sizes of the
/// intersection and of the union of their sets of byte values.
pub fn byte_overlap(a: &[u8], b: &[u8]) -> (r: (u64, u64))
    ensures
        r.0 == shared_values(a@, b@, 256),
        r.1 == union_values(a@, b@, 256),
        r.0 == a@.to_set().intersect(b@.to_set()).len(),
        r.1 == a@.to_set().union(b@.to_set()).len(),
{
    proof {
        lemma_overlap_counts_byte_sets(a@, b@);
    }
    let in_a = byte_presence(a);
    let in_b = byte_presence(b);
    let mut shared: u64 = 0;
    let mut union: u64 = 0;
    let mut v: usize = 0;
    while v < 256
        invariant
            v <= 256,
            in_a@.len() == 256,
            in_b@.len() == 256,
            forall|w: int| 0 <= w < 256 ==> #[trigger] in_a@[w] == has_byte(a@, w as u8),
            forall|w: int| 0 <= w < 256 ==> #[trigger] in_b@[w] == has_byte(b@, w as u8),
            shared == shared_values(a@, b@, v as int),
            union == union_values(a@, b@, v as int),
            shared <= v,
            union <= v,
        decreases 256 - v,
    {
        assert(((v + 1 - 1) as int) as u8 == v as u8);
        if in_a[v] && in_b[v] {
            shared = shared + 1;
        }
        if in_a[v] || in_b[v] {
            union = union + 1;
        }
        v = v + 1;
    }
    (shared, union)
}

/// The complexity, in bits, assigned to a kind of structure by name.
pub open spec fn structure_bits(name: Seq<char>) -> u64 {
    if name == "identity"@ || name == "constant"@ {
        1
    } else if name == "linear"@ {
        10
    } else if name == "polynomial"@ {
        50
    } else if name == "exponential"@ {
        30
    } else if name == "tree"@ {
        100
    } else if name == "graph"@ {
        200
    } else if name == "arbitrary"@ {
        1000
    } else {
        50
    }
}

/// The complexity, in bits, of a common kind of structure; 50 for a name it does not know.
pub fn structure_complexity(structure_type: &str) -> (r: u64)
    ensures
        r == structure_bits(structure_type@),
{
    if compare_text(structure_type, "identity") == Order::Equal
        || compare_text(structure_type, "constant") == Order::Equal {
        1
    } else if compare_text(structure_type, "linear") == Order::Equal {
        10
    } else if compare_text(structure_type, "polynomial") == Order::Equal {
        50
    } else if compare_text(structure_type, "exponential") == Order::Equal {
        30
    } else if compare_text(structure_type, "tree") == Order::Equal {
        100
    } else if compare_text(structure_type, "graph") == Order::Equal {
        200
    } else if compare_text(structure_type, "arbitrary") == Order::Equal {
        1000
    } else {
        50
    }
}

/// Shared byte values are counted the same either way round, as are the byte
/// values of either string, and there are never more shared ones than in either.
pub proof fn lemma_overlap_laws(a: Seq<u8>, b: Seq<u8>, n: int)
    ensures
        shared_values(a, b, n) == shared_values(b, a, n),
        union_values(a, b, n) == union_values(b, a, n),
        shared_values(a, b, n) <= union_values(a, b, n),
    decreases n,
{
    if n > 0 {
        lemma_overlap_laws(a, b, n - 1);
    }
}

/// The values of `s` below `n`.
spec fn values_below(s: Set<u8>, n: int) -> Set<u8> {
    s.filter(|x: u8| (x as int) < n)
}

proof fn lemma_values_below_step(s: Set<u8>, n: int)
    requires
        0 < n <= 256,
    ensures
        s.contains((n - 1) as u8) ==> values_below(s, n) == values_below(s, n - 1).insert((n - 1) as u8),
        !s.contains((n - 1) as u8) ==> values_below(s, n) == values_below(s, n - 1),
        !values_below(s, n - 1).contains((n - 1) as u8),
{
    assert(((n - 1) as u8) as int == n - 1);
    if s.contains((n - 1) as u8) {
        assert(values_below(s, n) =~= values_below(s, n - 1).insert((n - 1) as u8));
    } else {
        assert(values_below(s, n) =~= values_below(s, n - 1));
    }
}

proof fn lemma_count_values_below(a: Seq<u8>, b: Seq<u8>, n: int)
    requires
        0 <= n <= 256,
    ensures
        values_below(a.to_set().intersect(b.to_set()), n).finite(),
        values_below(a.to_set().union(b.to_set()), n).finite(),
        shared_values(a, b, n) == values_below(a.to_set().intersect(b.to_set()), n).len(),
        union_values(a, b, n) == values_below(a.to_set().union(b.to_set()), n).len(),
    decreases n,
{
    let i = a.to_set().intersect(b.to_set());
    let u = a.to_set().union(b.to_set());
    if n == 0 {
        assert(values_below(i, 0) =~= Set::<u8>::empty());
        assert(values_below(u, 0) =~= Set::<u8>::empty());
    } else {
        lemma_count_values_below(a, b, n - 1);
        lemma_values_below_step(i, n);
        lemma_values_below_step(u, n);
        let v = (n - 1) as u8;
        assert(i.contains(v) == (has_byte(a, v) && has_byte(b, v)));
        assert(u.contains(v) == (has_byte(a, v) || has_byte(b, v)));
    }
}

/// The two counts are the sizes of the intersection and of the union of the
/// sets of byte values occurring in `a` and in `b`, over all 256 byte values.
pub proof fn lemma_overlap_counts_byte_sets(a: Seq<u8>, b: Seq<u8>)
    ensures
        a.to_set().intersect(b.to_set()).finite(),
        a.to_set().union(b.to_set()).finite(),
        shared_values(a, b, 256) == a.to_set().intersect(b.to_set()).len(),
        union_values(a, b, 256) == a.to_set().union(b.to_set()).len(),
{
    lemma_count_values_below(a, b, 256);
    assert(values_below(a.to_set().intersect(b.to_set()), 256) =~= a.to_set().intersect(b.to_set()));
    assert(values_below(a.to_set().union(b.to_set()), 256) =~= a.to_set().union(b.to_set()));
}

proof fn lemma_run_length_repeat(x: u8, n: nat, i: int)
    requires
        0 <= i < n,
    ensures
        run_length(Seq::new(n, |k: int| x), i) == n - i,
    decreases n - i,
{
    if i + 1 < n {
        lemma_run_length_repeat(x, n, i + 1);
    }
}

/// A single run: `n` copies of one byte are encoded as one run, in
/// 1 + ⌈log₂ n⌉ bits, however long the run is.
pub proof fn lemma_run_bits_of_repeat(x: u8, n: nat)
    requires
        n >= 1,
    ensures
        run_bits(Seq::new(n, |k: int| x)) == 1 + ceil_log2(n),
{
    let s = Seq::new(n, |k: int| x);
    lemma_run_length_repeat(x, n, 0);
    assert(run_bits_from(s, n as int) == 0);
}

proof fn lemma_run_length_right(s: Seq<u8>, t: Seq<u8>, k: int)
    requires
        s.len() <= k < s.len() + t.len(),
    ensures
        run_length(s + t, k) == run_length(t, k - s.len()),
    decreases s.len() + t.len() - k,
{
    let u = s + t;
    if k + 1 < u.len() {
        lemma_run_length_right(s, t, k + 1);
        assert(u[k + 1] == t[k + 1 - s.len()] && u[k] == t[k - s.len()]);
    }
}

proof fn lemma_run_bits_right(s: Seq<u8>, t: Seq<u8>, k: int)
    requires
        s.len() <= k <= s.len() + t.len(),
    ensures
        run_bits_from(s + t, k) == run_bits_from(t, k - s.len()),
    decreases s.len() + t.len() - k,
{
    if k < s.len() + t.len() {
        lemma_run_length_right(s, t, k);
        lemma_run_length_bounds(t, k - s.len());
        lemma_run_bits_right(s, t, k + run_length(t, k - s.len()));
    }
}

proof fn lemma_run_length_left(s: Seq<u8>, t: Seq<u8>, i: int)
    requires
        0 <= i < s.len(),
        t.len() == 0 || s.last() != t[0],
    ensures
        run_length(s + t, i) == run_length(s, i),
    decreases s.len() - i,
{
    let u = s + t;
    if i + 1 < s.len() {
        lemma_run_length_left(s, t, i + 1);
        assert(u[i + 1] == s[i + 1] && u[i] == s[i]);
    } else if t.len() > 0 {
        assert(u[i + 1] == t[0] && u[i] == s.last());
    }
}

proof fn lemma_run_bits_left(s: Seq<u8>, t: Seq<u8>, i: int)
    requires
        0 <= i <= s.len(),
        t.len() == 0 || s.last() != t[0],
    ensures
        run_bits_from(s + t, i) == run_bits_from(s, i) + run_bits_from(s + t, s.len() as int),
    decreases s.len() - i,
{
    if i < s.len() {
        lemma_run_length_left(s, t, i);
        lemma_run_length_bounds(s, i);
        lemma_run_bits_left(s, t, i + run_length(s, i));
    }
}

/// Runs end exactly where the byte changes: where the last byte of `s`
/// differs from the first byte of `t`, the encoding of `s` followed by `t` is
/// the encoding of `s` followed by that of `t`. With the single-run law above
/// this fixes the size of every byte string, since each one is a sequence of
/// single runs, each byte differing from the next run's.
pub proof fn lemma_run_bits_concat(s: Seq<u8>, t: Seq<u8>)
    requires
        s.len() == 0 || t.len() == 0 || s.last() != t[0],
    ensures
        run_bits(s + t) == run_bits(s) + run_bits(t),
{
    if s.len() == 0 {
        assert(s + t =~= t);
    } else {
        lemma_run_bits_left(s, t, 0);
        lemma_run_bits_right(s, t, s.len() as int);
    }
}

} // verus!
