//! Graph Laplacians of the path, the cycle and the complete graph, as integer
//! matrices (rows of entries), with their symmetry and zero row sums.

use vstd::prelude::*;
use vstd::arithmetic::div_mod::{lemma_mod_add_multiples_vanish, lemma_mod_self_0, lemma_small_mod};

verus! {

/// Entry (i, j) of the Laplacian of the path on `n` vertices: the degree on the
/// diagonal, -1 between neighbours, 0 elsewhere.
pub open spec fn path_entry(n: int, i: int, j: int) -> int {
    if i == j {
        (if i > 0 { 1int } else { 0int }) + (if i < n - 1 { 1int } else { 0int })
    } else if j == i - 1 || j == i + 1 {
        -1
    } else {
        0
    }
}

/// The vertex after `i` on the cycle of `n` vertices.
pub open spec fn cycle_next(n: int, i: int) -> int {
    if i + 1 == n {
        0
    } else {
        i + 1
    }
}

/// The vertex before `i` on the cycle of `n` vertices.
pub open spec fn cycle_prev(n: int, i: int) -> int {
    if i == 0 {
        n - 1
    } else {
        i - 1
    }
}

/// Entry (i, j) of the Laplacian of the cycle on `n` vertices: 2 on the
/// diagonal, less one for the next vertex and one for the previous one.
pub open spec fn cycle_entry(n: int, i: int, j: int) -> int {
    (if i == j { 2int } else { 0int }) - (if j == cycle_next(n, i) { 1int } else { 0int }) - (if j
        == cycle_prev(n, i) {
        1int
    } else {
        0int
    })
}

/// Entry (i, j) of the Laplacian of the complete graph on `n` vertices.
pub open spec fn complete_entry(n: int, i: int, j: int) -> int {
    if i == j {
        n - 1
    } else {
        -1
    }
}

/// The sum of `f(j)` for `0 <= j < m`.
pub open spec fn sum_to(f: spec_fn(int) -> int, m: int) -> int
    decreases m,
{
    if m <= 0 {
        0
    } else {
        sum_to(f, m - 1) + f(m - 1)
    }
}

/// `l` is an `n` by `n` matrix whose entry (i, j) is `entry(i, j)`.
pub open spec fn is_matrix_of(l: Seq<Vec<i64>>, n: int, entry: spec_fn(int, int) -> int) -> bool {
    &&& l.len() == n
    &&& forall|i: int| 0 <= i < n ==> (#[trigger] l[i])@.len() == n
    &&& forall|i: int, j: int| 0 <= i < n && 0 <= j < n ==> (#[trigger] l[i]@[j]) == entry(i, j)
}

/// The Laplacian of the path on `n` vertices.
pub fn path_laplacian(n: usize) -> (l: Vec<Vec<i64>>)
    ensures
        is_matrix_of(l@, n as int, |i: int, j: int| path_entry(n as int, i, j)),
{
    let mut l: Vec<Vec<i64>> = Vec::new();
    for i in 0..n
        invariant
            l@.len() == i,
            forall|a: int| 0 <= a < i ==> (#[trigger] l@[a])@.len() == n,
            forall|a: int, j: int| 0 <= a < i && 0 <= j < n ==> (#[trigger] l@[a]@[j]) == path_entry(n as int, a, j),
    {
        let mut row: Vec<i64> = Vec::new();
        for j in 0..n
            invariant
                i < n,
                row@.len() == j,
                forall|b: int| 0 <= b < j ==> (#[trigger] row@[b]) == path_entry(n as int, i as int, b),
        {
            let v: i64 = if i == j {
                (if i > 0 { 1 } else { 0 }) + (if i + 1 < n { 1 } else { 0 })
            } else if j + 1 == i || j == i + 1 {
                -1
            } else {
                0
            };
            row.push(v);
        }
        l.push(row);
    }
    l
}

/// The Laplacian of the cycle on `n` vertices.
pub fn cycle_laplacian(n: usize) -> (l: Vec<Vec<i64>>)
    ensures
        is_matrix_of(l@, n as int, |i: int, j: int| cycle_entry(n as int, i, j)),
        forall|i: int, j: int|
            0 <= i < n && 0 <= j < n ==> (#[trigger] l@[i]@[j]) == (if j == i { 2int } else { 0int }) - (if j == (i
                + 1) % (n as int) {
                1int
            } else {
                0int
            }) - (if j == (i + n - 1) % (n as int) {
                1int
            } else {
                0int
            }),
{
    let mut l: Vec<Vec<i64>> = Vec::new();
    for i in 0..n
        invariant
            l@.len() == i,
            forall|a: int| 0 <= a < i ==> (#[trigger] l@[a])@.len() == n,
            forall|a: int, j: int| 0 <= a < i && 0 <= j < n ==> (#[trigger] l@[a]@[j]) == cycle_entry(n as int, a, j),
    {
        let next = if i + 1 == n { 0 } else { i + 1 };
        let prev = if i == 0 { n - 1 } else { i - 1 };
        let mut row: Vec<i64> = Vec::new();
        for j in 0..n
            invariant
                i < n,
                next == cycle_next(n as int, i as int),
                prev == cycle_prev(n as int, i as int),
                row@.len() == j,
                forall|b: int| 0 <= b < j ==> (#[trigger] row@[b]) == cycle_entry(n as int, i as int, b),
        {
            let v: i64 = (if i == j { 2 } else { 0 }) - (if j == next { 1 } else { 0 }) - (if j == prev { 1 } else { 0 });
            row.push(v);
        }
        l.push(row);
    }
    proof {
        assert forall|i: int, j: int| 0 <= i < n && 0 <= j < n implies (#[trigger] l@[i]@[j]) == (if j == i {
            2int
        } else {
            0int
        }) - (if j == (i + 1) % (n as int) {
            1int
        } else {
            0int
        }) - (if j == (i + n - 1) % (n as int) {
            1int
        } else {
            0int
        }) by {
            lemma_cycle_entries(n as int, i, j);
        }
    }
    l
}

/// The cycle's Laplacian joins each vertex to the vertices one step either way
/// round the cycle: entry (i, j) is 2 on the diagonal, less one where
/// j ≡ i + 1 (mod n) and less one where j ≡ i − 1 (mod n), and 0 for every
/// other pair. On three or more vertices the two neighbours differ and are not
/// the vertex itself, so each row holds exactly one 2 and two −1s.
pub proof fn lemma_cycle_entries(n: int, i: int, j: int)
    requires
        0 <= i < n,
        0 <= j < n,
    ensures
        cycle_entry(n, i, j) == (if j == i { 2int } else { 0int }) - (if j == (i + 1) % n {
            1int
        } else {
            0int
        }) - (if j == (i + n - 1) % n {
            1int
        } else {
            0int
        }),
        n >= 3 ==> (i + 1) % n != i && (i + n - 1) % n != i && (i + 1) % n != (i + n - 1) % n,
{
    if i + 1 < n {
        lemma_small_mod((i + 1) as nat, n as nat);
    } else {
        lemma_mod_self_0(n);
    }
    if i >= 1 {
        lemma_small_mod((i - 1) as nat, n as nat);
        lemma_mod_add_multiples_vanish(i - 1, n);
        assert(n + (i - 1) == i + n - 1);
    } else {
        lemma_small_mod((n - 1) as nat, n as nat);
    }
}

/// The Laplacian of the complete graph on `n` vertices.
pub fn complete_laplacian(n: usize) -> (l: Vec<Vec<i64>>)
    requires
        n <= i64::MAX,
    ensures
        is_matrix_of(l@, n as int, |i: int, j: int| complete_entry(n as int, i, j)),
{
    let mut l: Vec<Vec<i64>> = Vec::new();
    for i in 0..n
        invariant
            n <= i64::MAX,
            l@.len() == i,
            forall|a: int| 0 <= a < i ==> (#[trigger] l@[a])@.len() == n,
            forall|a: int, j: int| 0 <= a < i && 0 <= j < n ==> (#[trigger] l@[a]@[j]) == complete_entry(n as int, a, j),
    {
        let mut row: Vec<i64> = Vec::new();
        for j in 0..n
            invariant
                n <= i64::MAX,
                i < n,
                row@.len() == j,
                forall|b: int| 0 <= b < j ==> (#[trigger] row@[b]) == complete_entry(n as int, i as int, b),
        {
            let v: i64 = if i == j { (n - 1) as i64 } else { -1 };
            row.push(v);
        }
        l.push(row);
    }
    l
}

proof fn lemma_path_partial(n: int, i: int, m: int)
    requires
        0 <= i < n,
        0 <= m <= n,
    ensures
        sum_to(|j: int| path_entry(n, i, j), m) == (if i > 0 && m > i - 1 { -1int } else { 0int }) + (if m > i {
            path_entry(n, i, i)
        } else {
            0int
        }) + (if i + 1 < n && m > i + 1 { -1int } else { 0int }),
    decreases m,
{
    if m > 0 {
        lemma_path_partial(n, i, m - 1);
    }
}

proof fn lemma_cycle_partial(n: int, i: int, m: int)
    requires
        0 <= i < n,
        0 <= m <= n,
    ensures
        sum_to(|j: int| cycle_entry(n, i, j), m) == (if m > i { 2int } else { 0int }) - (if m > cycle_next(n, i) {
            1int
        } else {
            0int
        }) - (if m > cycle_prev(n, i) { 1int } else { 0int }),
    decreases m,
{
    if m > 0 {
        lemma_cycle_partial(n, i, m - 1);
    }
}

proof fn lemma_complete_partial(n: int, i: int, m: int)
    requires
        0 <= i < n,
        0 <= m <= n,
    ensures
        sum_to(|j: int| complete_entry(n, i, j), m) == -m + (if m > i { n } else { 0int }),
    decreases m,
{
    if m > 0 {
        lemma_complete_partial(n, i, m - 1);
    }
}

/// Each of the three Laplacians is symmetric and its rows sum to zero, so the
/// constant vectors lie in its kernel: they are harmonic.
pub proof fn lemma_laplacians_symmetric_with_zero_row_sums(n: int, i: int, j: int)
    requires
        0 <= i < n,
        0 <= j < n,
    ensures
        path_entry(n, i, j) == path_entry(n, j, i),
        cycle_entry(n, i, j) == cycle_entry(n, j, i),
        complete_entry(n, i, j) == complete_entry(n, j, i),
        sum_to(|k: int| path_entry(n, i, k), n) == 0,
        sum_to(|k: int| cycle_entry(n, i, k), n) == 0,
        sum_to(|k: int| complete_entry(n, i, k), n) == 0,
{
    lemma_path_partial(n, i, n);
    lemma_cycle_partial(n, i, n);
    lemma_complete_partial(n, i, n);
}

/// The path joins each vertex to the vertices just before and after it, and
/// to no other: off the diagonal an entry is −1 exactly when the two vertices
/// are one apart, and 0 otherwise; on the diagonal it is the number of
/// neighbours inside the path. The complete graph joins every two vertices.
pub proof fn lemma_path_and_complete_entries(n: int, i: int, j: int)
    requires
        0 <= i < n,
        0 <= j < n,
    ensures
        i != j ==> (path_entry(n, i, j) == -1 <==> (j - i == 1 || i - j == 1)),
        i != j && !(j - i == 1 || i - j == 1) ==> path_entry(n, i, j) == 0,
        path_entry(n, i, i) == (if i >= 1 { 1int } else { 0int }) + (if i + 1 < n { 1int } else { 0int }),
        i != j ==> complete_entry(n, i, j) == -1,
        complete_entry(n, i, i) == n - 1,
{
}

} // verus!
