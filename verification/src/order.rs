//! A stable sort that hands out the order as a permutation of indices.

use vstd::prelude::*;

verus! {

/// `lt` orders `0..n`, with ties: it is asymmetric, and what is before `k` is
/// before every `j` or has that `j` before `k`.
pub open spec fn weak_order(lt: spec_fn(int, int) -> bool, n: int) -> bool {
    &&& forall|i: int, j: int|
        0 <= i < n && 0 <= j < n && #[trigger] lt(i, j) ==> !lt(j, i)
    &&& forall|i: int, j: int, k: int|
        #![trigger lt(i, k), lt(i, j)]
        #![trigger lt(i, k), lt(j, k)]
        0 <= i < n && 0 <= j < n && 0 <= k < n && lt(i, k) ==> lt(i, j) || lt(j, k)
}

/// `i` comes before `j` in the stable order: it is less, or it ties and has the
/// smaller index.
pub open spec fn before(lt: spec_fn(int, int) -> bool, i: int, j: int) -> bool {
    lt(i, j) || (!lt(j, i) && i < j)
}

/// `p` lists `lo..hi`, each index once, in the stable order of `lt`.
pub open spec fn sorted_range(
    p: Seq<usize>,
    lo: int,
    hi: int,
    lt: spec_fn(int, int) -> bool,
) -> bool {
    &&& p.len() == hi - lo
    &&& forall|x: int| 0 <= x < p.len() ==> lo <= #[trigger] p[x] < hi
    &&& forall|x: int, y: int|
        0 <= x < y < p.len() ==> before(lt, #[trigger] p[x] as int, #[trigger] p[y] as int)
    &&& forall|v: usize| lo <= v < hi ==> #[trigger] p.contains(v)
}

proof fn lemma_before_trans(lt: spec_fn(int, int) -> bool, n: int, i: int, j: int, k: int)
    requires
        weak_order(lt, n),
        0 <= i < n,
        0 <= j < n,
        0 <= k < n,
        before(lt, i, j),
        before(lt, j, k),
    ensures
        before(lt, i, k),
{
    assert(!lt(j, i));
    assert(!lt(k, j));
    assert(!lt(k, i)) by {
        if lt(k, i) {
            assert(lt(k, j) || lt(j, i));
        }
    }
    if !lt(i, k) {
        if lt(i, j) {
            assert(lt(i, k) || lt(k, j));
        }
        if lt(j, k) {
            assert(lt(j, i) || lt(i, k));
        }
    }
}

fn sort_range<F: Fn(usize, usize) -> bool>(
    lo: usize,
    hi: usize,
    n: usize,
    less: &F,
    Ghost(lt): Ghost<spec_fn(int, int) -> bool>,
) -> (p: Vec<usize>)
    requires
        lo <= hi <= n,
        weak_order(lt, n as int),
        forall|i: usize, j: usize| i < n && j < n ==> #[trigger] less.requires((i, j)),
        forall|i: usize, j: usize, r: bool|
            i < n && j < n && #[trigger] less.ensures((i, j), r) ==> r == lt(i as int, j as int),
    ensures
        sorted_range(p@, lo as int, hi as int, lt),
    decreases hi - lo,
{
    let mut p: Vec<usize> = Vec::new();
    if hi - lo == 0 {
        return p;
    }
    if hi - lo == 1 {
        p.push(lo);
        assert(p@[0] == lo);
        return p;
    }
    let mid: usize = lo + (hi - lo) / 2;
    let a = sort_range(lo, mid, n, less, Ghost(lt));
    let b = sort_range(mid, hi, n, less, Ghost(lt));
    let mut i: usize = 0;
    let mut j: usize = 0;
    while i < a.len() || j < b.len()
        invariant
            lo < mid < hi <= n,
            weak_order(lt, n as int),
            forall|i: usize, j: usize| i < n && j < n ==> #[trigger] less.requires((i, j)),
            forall|i: usize, j: usize, r: bool|
                i < n && j < n && #[trigger] less.ensures((i, j), r) ==> r == lt(
                    i as int,
                    j as int,
                ),
            sorted_range(a@, lo as int, mid as int, lt),
            sorted_range(b@, mid as int, hi as int, lt),
            i <= a.len(),
            j <= b.len(),
            p@.len() == i + j,
            forall|x: int| 0 <= x < p@.len() ==> lo <= #[trigger] p@[x] < hi,
            forall|x: int, y: int|
                0 <= x < y < p@.len() ==> before(
                    lt,
                    #[trigger] p@[x] as int,
                    #[trigger] p@[y] as int,
                ),
            forall|x: int, y: int|
                0 <= x < p@.len() && i <= y < a@.len() ==> before(
                    lt,
                    #[trigger] p@[x] as int,
                    #[trigger] a@[y] as int,
                ),
            forall|x: int, y: int|
                0 <= x < p@.len() && j <= y < b@.len() ==> before(
                    lt,
                    #[trigger] p@[x] as int,
                    #[trigger] b@[y] as int,
                ),
            forall|x: int| 0 <= x < i ==> p@.contains(#[trigger] a@[x]),
            forall|x: int| 0 <= x < j ==> p@.contains(#[trigger] b@[x]),
        decreases a.len() - i + b.len() - j,
    {
        let take_b: bool = if i >= a.len() {
            true
        } else if j >= b.len() {
            false
        } else {
            less(b[j], a[i])
        };
        let ghost old_p = p@;
        if take_b {
            let v: usize = b[j];
            proof {
                assert forall|y: int| i <= y < a@.len() implies before(
                    lt,
                    v as int,
                    #[trigger] a@[y] as int,
                ) by {
                    if y > i {
                        lemma_before_trans(
                            lt,
                            n as int,
                            v as int,
                            a@[i as int] as int,
                            a@[y] as int,
                        );
                    }
                }
            }
            p.push(v);
            j = j + 1;
            assert(p@.last() == v);
        } else {
            let v: usize = a[i];
            proof {
                assert forall|y: int| j <= y < b@.len() implies before(
                    lt,
                    v as int,
                    #[trigger] b@[y] as int,
                ) by {
                    assert(v < mid <= b@[j as int]);
                    assert(before(lt, v as int, b@[j as int] as int));
                    if y > j {
                        lemma_before_trans(
                            lt,
                            n as int,
                            v as int,
                            b@[j as int] as int,
                            b@[y] as int,
                        );
                    }
                }
            }
            p.push(v);
            i = i + 1;
            assert(p@.last() == v);
        }
        proof {
            assert(forall|x: int| 0 <= x < old_p.len() ==> p@[x] == old_p[x]);
            assert forall|w: usize| old_p.contains(w) implies p@.contains(w) by {
                let k = choose|k: int| 0 <= k < old_p.len() && old_p[k] == w;
                assert(p@[k] == w);
            }
            assert(p@.contains(p@.last()));
        }
    }
    proof {
        assert forall|v: usize| lo <= v < hi implies #[trigger] p@.contains(v) by {
            if v < mid {
                assert(a@.contains(v));
                let k = choose|k: int| 0 <= k < a@.len() && a@[k] == v;
                assert(p@.contains(a@[k]));
            } else {
                assert(b@.contains(v));
                let k = choose|k: int| 0 <= k < b@.len() && b@[k] == v;
                assert(p@.contains(b@[k]));
            }
        }
    }
    p
}

/// The indices `0..n` in the stable order that `less` decides.
pub(crate) fn sort_indices<F: Fn(usize, usize) -> bool>(
    n: usize,
    less: &F,
    Ghost(lt): Ghost<spec_fn(int, int) -> bool>,
) -> (p: Vec<usize>)
    requires
        weak_order(lt, n as int),
        forall|i: usize, j: usize| i < n && j < n ==> #[trigger] less.requires((i, j)),
        forall|i: usize, j: usize, r: bool|
            i < n && j < n && #[trigger] less.ensures((i, j), r) ==> r == lt(i as int, j as int),
    ensures
        sorted_range(p@, 0, n as int, lt),
{
    sort_range(0, n, n, less, Ghost(lt))
}

/// A permutation of `0..n` that is sorted in the stable order lists no index
/// twice.
pub proof fn lemma_sorted_distinct(p: Seq<usize>, n: int, lt: spec_fn(int, int) -> bool)
    requires
        weak_order(lt, n),
        sorted_range(p, 0, n, lt),
    ensures
        p.no_duplicates(),
{
    assert forall|x: int, y: int| 0 <= x < p.len() && 0 <= y < p.len() && x != y implies p[x]
        != p[y] by {
        if x < y {
            assert(before(lt, p[x] as int, p[y] as int));
        } else {
            assert(before(lt, p[y] as int, p[x] as int));
        }
    }
}

/// There is only one stable order.
pub proof fn law_sorted_unique(
    p: Seq<usize>,
    q: Seq<usize>,
    n: int,
    lt: spec_fn(int, int) -> bool,
)
    requires
        weak_order(lt, n),
        sorted_range(p, 0, n, lt),
        sorted_range(q, 0, n, lt),
    ensures
        p == q,
{
    lemma_same_prefix(p, q, n, lt, n);
    assert(p =~= q);
}

proof fn lemma_same_prefix(
    p: Seq<usize>,
    q: Seq<usize>,
    n: int,
    lt: spec_fn(int, int) -> bool,
    m: int,
)
    requires
        weak_order(lt, n),
        sorted_range(p, 0, n, lt),
        sorted_range(q, 0, n, lt),
        0 <= m <= n,
    ensures
        forall|x: int| 0 <= x < m ==> p[x] == q[x],
    decreases m,
{
    if m > 0 {
        lemma_same_prefix(p, q, n, lt, m - 1);
        lemma_sorted_distinct(p, n, lt);
        lemma_sorted_distinct(q, n, lt);
        let u = p[m - 1];
        let v = q[m - 1];
        if u != v {
            assert(q.contains(u));
            let x = choose|x: int| 0 <= x < q.len() && q[x] == u;
            assert(p.contains(v));
            let y = choose|y: int| 0 <= y < p.len() && p[y] == v;
            if x < m - 1 {
                assert(p[x] == q[x]);
                assert(false);
            }
            if y < m - 1 {
                assert(p[y] == q[y]);
                assert(false);
            }
            assert(before(lt, q[m - 1] as int, q[x] as int));
            assert(before(lt, p[m - 1] as int, p[y] as int));
        }
    }
}

} // verus!
