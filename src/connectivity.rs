//! The undirected edge relation over a sequence of endpoint pairs, as the
//! graph records its edges in order of insertion.
use vstd::prelude::*;

verus! {

/// The edge `e` has `i` as one of its endpoints.
pub open spec fn touches(e: (int, int), i: int) -> bool {
    e.0 == i || e.1 == i
}

/// The endpoint of `e` that is not `i` (for an edge that touches `i`).
pub open spec fn other(e: (int, int), i: int) -> int {
    if e.0 == i {
        e.1
    } else {
        e.0
    }
}

/// The edge `e` joins `i` and `j`, in either direction.
pub open spec fn joins(e: (int, int), i: int, j: int) -> bool {
    (e.0 == i && e.1 == j) || (e.0 == j && e.1 == i)
}

/// Some edge of `ends` joins `i` and `j`.
pub open spec fn linked(ends: Seq<(int, int)>, i: int, j: int) -> bool {
    exists|k: int| 0 <= k < ends.len() && #[trigger] joins(ends[k], i, j)
}

/// The positions in `ends` of the edges that touch `i`, in increasing order.
pub open spec fn incident(ends: Seq<(int, int)>, i: int) -> Seq<int>
    decreases ends.len(),
{
    if ends.len() == 0 {
        Seq::empty()
    } else {
        let rest = incident(ends.drop_last(), i);
        if touches(ends.last(), i) {
            rest.push(ends.len() - 1)
        } else {
            rest
        }
    }
}

/// The vertices adjacent to `i`, one for each incident edge, in the order in
/// which the edges were recorded.
pub open spec fn neighbors(ends: Seq<(int, int)>, i: int) -> Seq<int> {
    incident(ends, i).map_values(|k: int| other(ends[k], i))
}

/// Every edge joins two distinct vertices below `n`, and no two edges join
/// the same pair.
pub open spec fn edges_ok(ends: Seq<(int, int)>, n: int) -> bool {
    &&& forall|k: int|
        0 <= k < ends.len() ==> {
            &&& 0 <= (#[trigger] ends[k]).0 < n
            &&& 0 <= ends[k].1 < n
            &&& ends[k].0 != ends[k].1
        }
    &&& forall|k1: int, k2: int|
        0 <= k1 < k2 < ends.len() ==> !joins(#[trigger] ends[k1], (#[trigger] ends[k2]).0, ends[k2].1)
}

pub proof fn lemma_incident_contains(ends: Seq<(int, int)>, i: int, k: int)
    ensures
        incident(ends, i).contains(k) <==> (0 <= k < ends.len() && touches(ends[k], i)),
    decreases ends.len(),
{
    if ends.len() > 0 {
        let rest = ends.drop_last();
        lemma_incident_contains(rest, i, k);
        let p = incident(rest, i);
        if touches(ends.last(), i) {
            let last = ends.len() - 1;
            assert(p.push(last).contains(k) <==> (p.contains(k) || k == last)) by {
                if p.push(last).contains(k) && k != last {
                    let m = choose|m: int| 0 <= m < p.push(last).len() && p.push(last)[m] == k;
                    assert(p[m] == k);
                }
                if p.contains(k) {
                    let m = choose|m: int| 0 <= m < p.len() && p[m] == k;
                    assert(p.push(last)[m] == k);
                }
                assert(p.push(last)[p.len() as int] == last);
            }
        }
        if 0 <= k < rest.len() {
            assert(rest[k] == ends[k]);
        }
    }
}

pub proof fn lemma_incident_bounds(ends: Seq<(int, int)>, i: int)
    ensures
        forall|m: int|
            0 <= m < incident(ends, i).len() ==> {
                &&& 0 <= #[trigger] incident(ends, i)[m] < ends.len()
                &&& touches(ends[incident(ends, i)[m]], i)
            },
{
    let p = incident(ends, i);
    assert forall|m: int| 0 <= m < p.len() implies {
        &&& 0 <= #[trigger] p[m] < ends.len()
        &&& touches(ends[p[m]], i)
    } by {
        assert(p.contains(p[m]));
        lemma_incident_contains(ends, i, p[m]);
    }
}

pub proof fn lemma_incident_push(ends: Seq<(int, int)>, e: (int, int), i: int)
    ensures
        incident(ends.push(e), i) == if touches(e, i) {
            incident(ends, i).push(ends.len() as int)
        } else {
            incident(ends, i)
        },
{
    assert(ends.push(e).drop_last() == ends);
}

pub proof fn lemma_linked_push(ends: Seq<(int, int)>, e: (int, int), i: int, j: int)
    ensures
        linked(ends.push(e), i, j) <==> (linked(ends, i, j) || joins(e, i, j)),
{
    let s = ends.push(e);
    if linked(s, i, j) && !joins(e, i, j) {
        let k = choose|k: int| 0 <= k < s.len() && #[trigger] joins(s[k], i, j);
        assert(joins(ends[k], i, j));
    }
    if linked(ends, i, j) {
        let k = choose|k: int| 0 <= k < ends.len() && #[trigger] joins(ends[k], i, j);
        assert(joins(s[k], i, j));
    }
    if joins(e, i, j) {
        assert(joins(s[ends.len() as int], i, j));
    }
}

/// How many of `0, 1, ..., n - 1` satisfy `f`.
pub open spec fn count_true(f: spec_fn(int) -> bool, n: int) -> int
    decreases n,
{
    if n <= 0 {
        0
    } else {
        count_true(f, n - 1) + if f(n - 1) {
            1int
        } else {
            0int
        }
    }
}

/// The sum of `f(0), f(1), ..., f(n - 1)`.
pub open spec fn sum_of(f: spec_fn(int) -> int, n: int) -> int
    decreases n,
{
    if n <= 0 {
        0
    } else {
        sum_of(f, n - 1) + f(n - 1)
    }
}

pub proof fn lemma_count_none(f: spec_fn(int) -> bool, n: int)
    requires
        forall|j: int| 0 <= j < n ==> !#[trigger] f(j),
    ensures
        count_true(f, n) == 0,
    decreases n,
{
    if n > 0 {
        lemma_count_none(f, n - 1);
    }
}

pub proof fn lemma_count_flip(f: spec_fn(int) -> bool, g: spec_fn(int) -> bool, o: int, n: int)
    requires
        forall|j: int| j != o ==> #[trigger] f(j) == g(j),
        !f(o),
        g(o),
        0 <= o < n,
    ensures
        count_true(g, n) == count_true(f, n) + 1,
    decreases n,
{
    if n - 1 > o {
        lemma_count_flip(f, g, o, n - 1);
    } else {
        assert(o == n - 1);
        assert forall|j: int| 0 <= j < n - 1 implies #[trigger] f(j) == g(j) by {}
        lemma_count_agree(f, g, n - 1);
    }
}

pub proof fn lemma_count_agree(f: spec_fn(int) -> bool, g: spec_fn(int) -> bool, n: int)
    requires
        forall|j: int| 0 <= j < n ==> #[trigger] f(j) == g(j),
    ensures
        count_true(g, n) == count_true(f, n),
    decreases n,
{
    if n > 0 {
        lemma_count_agree(f, g, n - 1);
    }
}

pub proof fn lemma_edges_ok_prefix(ends: Seq<(int, int)>, n: int)
    requires
        ends.len() > 0,
        edges_ok(ends, n),
    ensures
        edges_ok(ends.drop_last(), n),
{
    let rest = ends.drop_last();
    assert forall|k1: int, k2: int| 0 <= k1 < k2 < rest.len() implies !joins(
        #[trigger] rest[k1],
        (#[trigger] rest[k2]).0,
        rest[k2].1,
    ) by {
        assert(rest[k1] == ends[k1] && rest[k2] == ends[k2]);
    }
    assert forall|k: int| 0 <= k < rest.len() implies {
        &&& 0 <= (#[trigger] rest[k]).0 < n
        &&& 0 <= rest[k].1 < n
        &&& rest[k].0 != rest[k].1
    } by {
        assert(rest[k] == ends[k]);
    }
}

/// In a graph without self-loops or parallel edges, the number of vertices
/// adjacent to `i` is the number of edges that touch `i`.
pub proof fn lemma_count_degree(ends: Seq<(int, int)>, i: int, n: int)
    requires
        edges_ok(ends, n),
        0 <= i < n,
    ensures
        count_true(|j: int| linked(ends, i, j), n) == incident(ends, i).len(),
    decreases ends.len(),
{
    let f = |j: int| linked(ends, i, j);
    if ends.len() == 0 {
        lemma_count_none(f, n);
    } else {
        let rest = ends.drop_last();
        let e = ends.last();
        assert(ends == rest.push(e));
        lemma_edges_ok_prefix(ends, n);
        lemma_count_degree(rest, i, n);
        let g = |j: int| linked(rest, i, j);
        assert forall|j: int| #[trigger] f(j) == (g(j) || joins(e, i, j)) by {
            lemma_linked_push(rest, e, i, j);
        }
        if touches(e, i) {
            let o = other(e, i);
            assert(0 <= o < n);
            assert(!g(o)) by {
                if g(o) {
                    let k = choose|k: int| 0 <= k < rest.len() && #[trigger] joins(rest[k], i, o);
                    assert(rest[k] == ends[k]);
                    assert(!joins(ends[k], ends[ends.len() - 1].0, ends[ends.len() - 1].1));
                }
            }
            lemma_count_flip(g, f, o, n);
        } else {
            lemma_count_agree(g, f, n);
        }
    }
}

/// Reachability over the first `k` edges of `ends`, built one edge at a
/// time: each new edge `(a, b)` joins whatever already reached `a` to
/// whatever already reached `b`.  It agrees with `reachable` over all edges.
pub open spec fn conn(ends: Seq<(int, int)>, k: int, x: int, y: int) -> bool
    decreases k,
{
    if k <= 0 {
        x == y
    } else {
        let e = ends[k - 1];
        conn(ends, k - 1, x, y) || (conn(ends, k - 1, x, e.0) && conn(ends, k - 1, e.1, y)) || (conn(
            ends,
            k - 1,
            x,
            e.1,
        ) && conn(ends, k - 1, e.0, y))
    }
}

/// `p` is a walk from `x` to `y`: each step crosses an edge of `ends`.
pub open spec fn is_walk(ends: Seq<(int, int)>, p: Seq<int>, x: int, y: int) -> bool {
    &&& p.len() >= 1
    &&& p[0] == x
    &&& p.last() == y
    &&& forall|t: int| 0 <= t < p.len() - 1 ==> linked(ends, #[trigger] p[t], p[t + 1])
}

/// Some walk over the edges of `ends` leads from `x` to `y`.
pub open spec fn reachable(ends: Seq<(int, int)>, x: int, y: int) -> bool {
    exists|p: Seq<int>| #[trigger] is_walk(ends, p, x, y)
}

/// `v` is the smallest vertex of its connected component.
pub open spec fn is_rep(ends: Seq<(int, int)>, n: int, v: int) -> bool {
    0 <= v < n && forall|y: int| 0 <= y < v ==> !#[trigger] reachable(ends, v, y)
}

/// The number of connected components among the vertices `0 .. n`.
pub open spec fn components(ends: Seq<(int, int)>, n: int) -> int {
    count_true(|v: int| is_rep(ends, n, v), n)
}

/// Being joined by a path is an equivalence relation.
pub proof fn lemma_conn_equiv(ends: Seq<(int, int)>, k: int)
    ensures
        forall|x: int| #[trigger] conn(ends, k, x, x),
        forall|x: int, y: int| #[trigger] conn(ends, k, x, y) ==> conn(ends, k, y, x),
        forall|x: int, y: int, z: int|
            #[trigger] conn(ends, k, x, y) && #[trigger] conn(ends, k, y, z) ==> conn(ends, k, x, z),
    decreases k,
{
    if k > 0 {
        lemma_conn_equiv(ends, k - 1);
        let e = ends[k - 1];
        assert forall|x: int| #[trigger] conn(ends, k, x, x) by {
            assert(conn(ends, k - 1, x, x));
        }
        assert forall|x: int, y: int| #[trigger] conn(ends, k, x, y) implies conn(ends, k, y, x) by {
            if conn(ends, k - 1, x, y) {
                assert(conn(ends, k - 1, y, x));
            } else if conn(ends, k - 1, x, e.0) && conn(ends, k - 1, e.1, y) {
                assert(conn(ends, k - 1, y, e.1) && conn(ends, k - 1, e.0, x));
            } else {
                assert(conn(ends, k - 1, x, e.1) && conn(ends, k - 1, e.0, y));
                assert(conn(ends, k - 1, y, e.0) && conn(ends, k - 1, e.1, x));
            }
        }
        assert forall|x: int, y: int, z: int|
            #[trigger] conn(ends, k, x, y) && #[trigger] conn(ends, k, y, z) implies conn(ends, k, x, z) by {
            let a = e.0;
            let b = e.1;
            let q = k - 1;
            let bx = conn(ends, q, x, a) && conn(ends, q, b, y);
            let cx = conn(ends, q, x, b) && conn(ends, q, a, y);
            let by_ = conn(ends, q, y, a) && conn(ends, q, b, z);
            let cy = conn(ends, q, y, b) && conn(ends, q, a, z);
            if conn(ends, q, x, y) {
                if conn(ends, q, y, z) {
                    assert(conn(ends, q, x, z));
                } else if by_ {
                    assert(conn(ends, q, x, a));
                } else {
                    assert(cy);
                    assert(conn(ends, q, x, b));
                }
            } else if bx {
                if conn(ends, q, y, z) {
                    assert(conn(ends, q, b, z));
                } else if by_ {
                } else {
                    assert(cy);
                    assert(conn(ends, q, x, z));
                }
            } else {
                assert(cx);
                if conn(ends, q, y, z) {
                    assert(conn(ends, q, a, z));
                } else if by_ {
                    assert(conn(ends, q, x, z));
                } else {
                    assert(cy);
                }
            }
        }
    }
}

/// Entry `(i, j)` of the Laplacian: the degree of `i` on the diagonal, `-1`
/// where an edge joins `i` and `j`, `0` elsewhere.
pub open spec fn laplacian_at(ends: Seq<(int, int)>, i: int, j: int) -> int {
    if i == j {
        neighbors(ends, i).len() as int
    } else if linked(ends, i, j) {
        -1
    } else {
        0
    }
}

pub proof fn lemma_incident_len(ends: Seq<(int, int)>, i: int)
    ensures
        incident(ends, i).len() <= ends.len(),
    decreases ends.len(),
{
    if ends.len() > 0 {
        lemma_incident_len(ends.drop_last(), i);
    }
}

proof fn lemma_row_prefix(ends: Seq<(int, int)>, n: int, i: int, m: int)
    requires
        edges_ok(ends, n),
        0 <= i < n,
        0 <= m,
    ensures
        sum_of(|j: int| laplacian_at(ends, i, j), m) == (if i < m {
            incident(ends, i).len() as int
        } else {
            0
        }) - count_true(|j: int| linked(ends, i, j), m),
    decreases m,
{
    if m > 0 {
        lemma_row_prefix(ends, n, i, m - 1);
        if linked(ends, i, i) {
            let k = choose|k: int| 0 <= k < ends.len() && #[trigger] joins(ends[k], i, i);
            assert(ends[k].0 != ends[k].1);
        }
    }
}

/// Each row of the Laplacian sums to zero.
pub proof fn lemma_laplacian_row_sum(ends: Seq<(int, int)>, n: int, i: int)
    requires
        edges_ok(ends, n),
        0 <= i < n,
    ensures
        sum_of(|j: int| laplacian_at(ends, i, j), n) == 0,
{
    lemma_row_prefix(ends, n, i, n);
    lemma_count_degree(ends, i, n);
}

/// `labels` gives each vertex below `n` the smallest vertex that the first
/// `k` edges connect it to.
pub open spec fn labels_ok(ends: Seq<(int, int)>, k: int, n: int, labels: Seq<usize>) -> bool {
    &&& labels.len() == n
    &&& forall|x: int|
        0 <= x < n ==> {
            &&& #[trigger] labels[x] < n
            &&& conn(ends, k, x, labels[x] as int)
            &&& forall|y: int| 0 <= y < labels[x] ==> !#[trigger] conn(ends, k, x, y)
        }
}

pub proof fn lemma_labels_start(ends: Seq<(int, int)>, n: int, labels: Seq<usize>)
    requires
        labels.len() == n,
        forall|x: int| 0 <= x < n ==> #[trigger] labels[x] == x,
    ensures
        labels_ok(ends, 0, n, labels),
{
}

/// Under good labels, two vertices share a label exactly when connected.
pub proof fn lemma_labels_same(ends: Seq<(int, int)>, k: int, n: int, labels: Seq<usize>, x: int, y: int)
    requires
        labels_ok(ends, k, n, labels),
        0 <= x < n,
        0 <= y < n,
    ensures
        labels[x] == labels[y] <==> conn(ends, k, x, y),
{
    lemma_conn_equiv(ends, k);
    let lx = labels[x] as int;
    let ly = labels[y] as int;
    if conn(ends, k, x, y) {
        assert(conn(ends, k, y, lx));
        assert(conn(ends, k, x, ly));
        if lx < ly {
            assert(!conn(ends, k, y, lx));
        }
        if ly < lx {
            assert(!conn(ends, k, x, ly));
        }
    }
    if lx == ly {
        assert(conn(ends, k, ly, y));
    }
}

/// An edge between two vertices that already share a label changes nothing.
pub proof fn lemma_labels_keep(ends: Seq<(int, int)>, k: int, n: int, labels: Seq<usize>)
    requires
        labels_ok(ends, k, n, labels),
        0 <= k < ends.len(),
        0 <= ends[k].0 < n,
        0 <= ends[k].1 < n,
        labels[ends[k].0] == labels[ends[k].1],
    ensures
        labels_ok(ends, k + 1, n, labels),
{
    let a = ends[k].0;
    let b = ends[k].1;
    lemma_conn_equiv(ends, k);
    lemma_labels_same(ends, k, n, labels, a, b);
    assert forall|x: int, y: int| #[trigger] conn(ends, k + 1, x, y) == conn(ends, k, x, y) by {
        if conn(ends, k, x, a) && conn(ends, k, b, y) {
            assert(conn(ends, k, x, b));
        }
        if conn(ends, k, x, b) && conn(ends, k, a, y) {
            assert(conn(ends, k, b, a));
            assert(conn(ends, k, x, a));
        }
    }
}

/// An edge between two differently labelled vertices merges their classes
/// under the smaller label.
pub proof fn lemma_labels_merge(
    ends: Seq<(int, int)>,
    k: int,
    n: int,
    labels: Seq<usize>,
    merged: Seq<usize>,
    lo: usize,
    hi: usize,
)
    requires
        labels_ok(ends, k, n, labels),
        0 <= k < ends.len(),
        0 <= ends[k].0 < n,
        0 <= ends[k].1 < n,
        labels[ends[k].0] != labels[ends[k].1],
        lo == if labels[ends[k].0] < labels[ends[k].1] {
            labels[ends[k].0]
        } else {
            labels[ends[k].1]
        },
        hi == if labels[ends[k].0] < labels[ends[k].1] {
            labels[ends[k].1]
        } else {
            labels[ends[k].0]
        },
        merged.len() == n,
        forall|x: int|
            0 <= x < n ==> #[trigger] merged[x] == if labels[x] == hi {
                lo
            } else {
                labels[x]
            },
    ensures
        labels_ok(ends, k + 1, n, merged),
{
    let a = ends[k].0;
    let b = ends[k].1;
    let la = labels[a];
    let lb = labels[b];
    lemma_conn_equiv(ends, k);
    assert forall|x: int| 0 <= x < n implies {
        &&& #[trigger] merged[x] < n
        &&& conn(ends, k + 1, x, merged[x] as int)
        &&& forall|y: int| 0 <= y < merged[x] ==> !#[trigger] conn(ends, k + 1, x, y)
    } by {
        lemma_labels_same(ends, k, n, labels, x, a);
        lemma_labels_same(ends, k, n, labels, x, b);
        if labels[x] == hi {
            if hi == la {
                assert(conn(ends, k, x, a) && conn(ends, k, b, lb as int));
            } else {
                assert(conn(ends, k, x, b) && conn(ends, k, a, la as int));
            }
        } else {
            assert(conn(ends, k, x, labels[x] as int));
        }
        assert forall|y: int| 0 <= y < merged[x] implies !#[trigger] conn(ends, k + 1, x, y) by {
            assert(!conn(ends, k, x, y));
            if conn(ends, k, x, a) && conn(ends, k, b, y) {
                if y < lb {
                    assert(!conn(ends, k, b, y));
                }
            }
            if conn(ends, k, x, b) && conn(ends, k, a, y) {
                if y < la {
                    assert(!conn(ends, k, a, y));
                }
            }
        }
    }
}

/// Once every edge is taken in, a vertex is its own label exactly when it is
/// the smallest vertex of its component.
pub proof fn lemma_labels_rep(ends: Seq<(int, int)>, n: int, labels: Seq<usize>, x: int)
    requires
        labels_ok(ends, ends.len() as int, n, labels),
        0 <= x < n,
    ensures
        labels[x] == x <==> is_rep(ends, n, x),
{
    let k = ends.len() as int;
    lemma_conn_equiv(ends, k);
    assert forall|y: int| #[trigger] reachable(ends, x, y) == conn(ends, k, x, y) by {
        lemma_conn_reachable(ends, x, y);
    }
    if is_rep(ends, n, x) {
        assert(conn(ends, k, x, x));
        if labels[x] < x {
            assert(!reachable(ends, x, labels[x] as int));
        }
    }
}

proof fn lemma_linked_prefix(ends: Seq<(int, int)>, k: int, u: int, v: int)
    requires
        0 <= k < ends.len(),
        linked(ends.take(k), u, v),
    ensures
        linked(ends.take(k + 1), u, v),
{
    let e = choose|e: int| 0 <= e < ends.take(k).len() && #[trigger] joins(ends.take(k)[e], u, v);
    assert(ends.take(k + 1)[e] == ends.take(k)[e]);
}

proof fn lemma_conn_grows(ends: Seq<(int, int)>, j: int, k: int, x: int, y: int)
    requires
        j <= k,
        conn(ends, j, x, y),
    ensures
        conn(ends, k, x, y),
    decreases k - j,
{
    if j < k {
        lemma_conn_grows(ends, j, k - 1, x, y);
    }
}

/// A walk over the first `k` edges stays within `conn` at `k`.
proof fn lemma_walk_conn(ends: Seq<(int, int)>, k: int, p: Seq<int>, x: int, y: int)
    requires
        0 <= k <= ends.len(),
        is_walk(ends.take(k), p, x, y),
    ensures
        conn(ends, k, x, y),
    decreases p.len(),
{
    lemma_conn_equiv(ends, k);
    if p.len() > 1 {
        let q = p.drop_last();
        let m = q.last();
        assert(q[0] == x);
        assert forall|t: int| 0 <= t < q.len() - 1 implies linked(ends.take(k), #[trigger] q[t], q[t + 1]) by {
            assert(q[t] == p[t] && q[t + 1] == p[t + 1]);
        }
        lemma_walk_conn(ends, k, q, x, m);
        let t = p.len() - 2;
        assert(linked(ends.take(k), p[t], p[t + 1]));
        let e = choose|e: int| 0 <= e < ends.take(k).len() && #[trigger] joins(ends.take(k)[e], m, y);
        assert(ends.take(k)[e] == ends[e]);
        lemma_conn_equiv(ends, e);
        assert(conn(ends, e, m, m) && conn(ends, e, y, y));
        assert(joins(ends[e], m, y));
        assert(conn(ends, e + 1, m, y));
        lemma_conn_grows(ends, e + 1, k, m, y);
    }
}

/// What `conn` relates at `k` is joined by a walk over the first `k` edges.
proof fn lemma_conn_walk(ends: Seq<(int, int)>, k: int, x: int, y: int)
    requires
        0 <= k <= ends.len(),
        conn(ends, k, x, y),
    ensures
        reachable(ends.take(k), x, y),
    decreases k,
{
    if k == 0 {
        assert(is_walk(ends.take(k), seq![x], x, y));
    } else {
        let pre = ends.take(k - 1);
        let cur = ends.take(k);
        let e = ends[k - 1];
        assert(cur[k - 1] == e);
        if conn(ends, k - 1, x, y) {
            lemma_conn_walk(ends, k - 1, x, y);
            let p = choose|p: Seq<int>| #[trigger] is_walk(pre, p, x, y);
            assert forall|t: int| 0 <= t < p.len() - 1 implies linked(cur, #[trigger] p[t], p[t + 1]) by {
                lemma_linked_prefix(ends, k - 1, p[t], p[t + 1]);
            }
            assert(is_walk(cur, p, x, y));
        } else {
            let (a, b) = if conn(ends, k - 1, x, e.0) && conn(ends, k - 1, e.1, y) {
                (e.0, e.1)
            } else {
                (e.1, e.0)
            };
            lemma_conn_walk(ends, k - 1, x, a);
            lemma_conn_walk(ends, k - 1, b, y);
            let p1 = choose|p: Seq<int>| #[trigger] is_walk(pre, p, x, a);
            let p2 = choose|p: Seq<int>| #[trigger] is_walk(pre, p, b, y);
            let p = p1 + p2;
            assert(joins(cur[k - 1], a, b));
            assert forall|t: int| 0 <= t < p.len() - 1 implies linked(cur, #[trigger] p[t], p[t + 1]) by {
                if t < p1.len() - 1 {
                    assert(p[t] == p1[t] && p[t + 1] == p1[t + 1]);
                    lemma_linked_prefix(ends, k - 1, p1[t], p1[t + 1]);
                } else if t == p1.len() - 1 {
                    assert(p[t] == a && p[t + 1] == b);
                } else {
                    let s = t - p1.len();
                    assert(p[t] == p2[s] && p[t + 1] == p2[s + 1]);
                    lemma_linked_prefix(ends, k - 1, p2[s], p2[s + 1]);
                }
            }
            assert(p[0] == x);
            assert(p.last() == p2.last());
            assert(is_walk(cur, p, x, y));
        }
    }
}

/// Over all the edges, `conn` is reachability by a walk.
pub proof fn lemma_conn_reachable(ends: Seq<(int, int)>, x: int, y: int)
    ensures
        conn(ends, ends.len() as int, x, y) <==> reachable(ends, x, y),
{
    let k = ends.len() as int;
    assert(ends.take(k) =~= ends);
    if conn(ends, k, x, y) {
        lemma_conn_walk(ends, k, x, y);
    }
    if reachable(ends, x, y) {
        let p = choose|p: Seq<int>| #[trigger] is_walk(ends, p, x, y);
        lemma_walk_conn(ends, k, p, x, y);
    }
}

} // verus!
