//! Sums over the subtrees of a directory tree.

use crate::path_tree::DirRowDraft;
use vstd::prelude::*;

verus! {

/// The sum of a list.
pub open spec fn sum64(s: Seq<i64>) -> int
    decreases s.len(),
{
    if s.len() == 0 {
        0
    } else {
        sum64(s.drop_last()) + s.last()
    }
}

/// Every directory but the first has a parent, which stands before it.
pub open spec fn parents_first(dirs: Seq<DirRowDraft>) -> bool {
    &&& dirs.len() >= 1
    &&& dirs[0].parent_id is None
    &&& forall|i: int|
        1 <= i < dirs.len() ==> ((#[trigger] dirs[i]).parent_id matches Some(j) && j < i)
}

/// What a directory and all below it hold, where `direct` is what each holds
/// itself.
pub open spec fn subtree_sum(dirs: Seq<DirRowDraft>, direct: Seq<i64>, i: int) -> int
    decreases dirs.len() - i, dirs.len() + 1,
{
    if i < 0 || i >= dirs.len() {
        0
    } else {
        direct[i] + kids_sum(dirs, direct, i, i + 1)
    }
}

/// What those from `c` on hold that have `i` for their parent, each with all
/// below it.
pub open spec fn kids_sum(dirs: Seq<DirRowDraft>, direct: Seq<i64>, i: int, c: int) -> int
    decreases dirs.len() - i, dirs.len() - c,
{
    if c <= i || c >= dirs.len() {
        0
    } else {
        (if dirs[c].parent_id == Some(i as usize) {
            subtree_sum(dirs, direct, c)
        } else {
            0
        }) + kids_sum(dirs, direct, i, c + 1)
    }
}

/// The number of directories that have `i` for their parent, among the first `n`.
pub open spec fn kid_count(dirs: Seq<DirRowDraft>, i: int, n: int) -> int
    decreases n,
{
    if n <= 0 {
        0
    } else {
        kid_count(dirs, i, n - 1) + (if dirs[n - 1].parent_id == Some(i as usize) {
            1int
        } else {
            0
        })
    }
}

pub proof fn lemma_sum_update(s: Seq<i64>, k: int, x: i64)
    requires
        0 <= k < s.len(),
    ensures
        sum64(s.update(k, x)) == sum64(s) - s[k] + x,
    decreases s.len(),
{
    let t = s.update(k, x);
    if k == s.len() - 1 {
        assert(t.drop_last() =~= s.drop_last());
    } else {
        lemma_sum_update(s.drop_last(), k, x);
        assert(t.drop_last() =~= s.drop_last().update(k, x));
        assert(t.last() == s.last());
    }
}

pub proof fn lemma_sum_nonneg(s: Seq<i64>)
    requires
        forall|i: int| 0 <= i < s.len() ==> #[trigger] s[i] >= 0,
    ensures
        sum64(s) >= 0,
    decreases s.len(),
{
    if s.len() > 0 {
        assert forall|i: int| 0 <= i < s.drop_last().len() implies #[trigger] s.drop_last()[i]
            >= 0 by {
            assert(s.drop_last()[i] == s[i]);
        }
        lemma_sum_nonneg(s.drop_last());
        assert(s[s.len() - 1] >= 0);
    }
}

pub proof fn lemma_sum_bound(s: Seq<i64>, k: int)
    requires
        forall|i: int| 0 <= i < s.len() ==> #[trigger] s[i] >= 0,
        0 <= k < s.len(),
    ensures
        0 <= s[k] <= sum64(s),
    decreases s.len(),
{
    let t = s.drop_last();
    assert forall|i: int| 0 <= i < t.len() implies #[trigger] t[i] >= 0 by {
        assert(t[i] == s[i]);
    }
    lemma_sum_nonneg(t);
    assert(s[s.len() - 1] >= 0);
    if k < t.len() {
        lemma_sum_bound(t, k);
        assert(t[k] == s[k]);
    }
}

/// What each directory holds with all below it. The root holds the sum of what
/// all hold.
pub fn subtree_totals(dirs: &Vec<DirRowDraft>, direct: &Vec<i64>) -> (r: Vec<i64>)
    requires
        parents_first(dirs@),
        direct@.len() == dirs@.len(),
        forall|i: int| 0 <= i < direct@.len() ==> #[trigger] direct@[i] >= 0,
        sum64(direct@) <= i64::MAX,
    ensures
        r@.len() == dirs@.len(),
        forall|i: int|
            0 <= i < r@.len() ==> #[trigger] r@[i] == subtree_sum(dirs@, direct@, i),
        forall|i: int| 0 <= i < r@.len() ==> 0 <= #[trigger] r@[i] <= sum64(direct@),
        r@[0] == sum64(direct@),
{
    let n: usize = dirs.len();
    let mut acc: Vec<i64> = Vec::new();
    let mut c: usize = 0;
    while c < n
        invariant
            c <= n,
            n == direct@.len(),
            acc@ == direct@.take(c as int),
        decreases n - c,
    {
        acc.push(direct[c]);
        proof {
            assert(direct@.take(c + 1) =~= direct@.take(c as int).push(direct@[c as int]));
        }
        c = c + 1;
    }
    proof {
        assert(direct@.take(n as int) =~= direct@);
        assert(acc@.take(n as int) =~= acc@);
        assert forall|i: int| 0 <= i < n implies #[trigger] acc@[i] <= sum64(direct@) by {
            lemma_sum_bound(direct@, i);
        }
        assert forall|i: int| 0 <= i < n implies #[trigger] acc@[i] == direct@[i] + kids_sum(
            dirs@,
            direct@,
            i,
            n as int,
        ) by {}
    }
    let mut k: usize = n;
    while k > 1
        invariant
            1 <= k <= n,
            n == dirs@.len(),
            parents_first(dirs@),
            direct@.len() == n,
            acc@.len() == n,
            sum64(direct@) <= i64::MAX,
            forall|i: int| 0 <= i < n ==> #[trigger] acc@[i] >= 0,
            forall|i: int| 0 <= i < n ==> #[trigger] acc@[i] <= sum64(direct@),
            sum64(acc@.take(k as int)) == sum64(direct@),
            forall|i: int|
                0 <= i < k ==> #[trigger] acc@[i] == direct@[i] + kids_sum(
                    dirs@,
                    direct@,
                    i,
                    k as int,
                ),
            forall|i: int|
                k <= i < n ==> #[trigger] acc@[i] == subtree_sum(dirs@, direct@, i),
        decreases k,
    {
        k = k - 1;
        let ghost before = acc@;
        let ghost t = before.take(k + 1);
        proof {
            assert(before[k as int] == subtree_sum(dirs@, direct@, k as int));
            assert(t.drop_last() =~= before.take(k as int));
            assert(t.last() == before[k as int]);
            assert forall|i: int| 0 <= i < t.len() implies #[trigger] t[i] >= 0 by {
                assert(t[i] == before[i]);
            }
        }
        match dirs[k].parent_id {
            Some(j) => {
                proof {
                    assert(dirs@[k as int].parent_id == Some(j));
                    let u = before.take(k as int);
                    assert forall|i: int| 0 <= i < u.len() implies #[trigger] u[i] >= 0 by {
                        assert(u[i] == before[i]);
                    }
                    lemma_sum_bound(u, j as int);
                    assert(u[j as int] == before[j as int]);
                    assert(before[j as int] + before[k as int] <= sum64(direct@));
                    lemma_sum_update(
                        u,
                        j as int,
                        (before[j as int] + before[k as int]) as i64,
                    );
                }
                let v: i64 = acc[j] + acc[k];
                acc.set(j, v);
                proof {
                    assert(acc@.take(k as int) =~= before.take(k as int).update(j as int, v));
                    assert forall|i: int| 0 <= i < k implies #[trigger] acc@[i] == direct@[i]
                        + kids_sum(dirs@, direct@, i, k as int) by {
                        assert(before[i] == direct@[i] + kids_sum(dirs@, direct@, i, k + 1));
                        assert(kids_sum(dirs@, direct@, i, k as int) == (if dirs@[k as int].parent_id
                            == Some(i as usize) {
                            subtree_sum(dirs@, direct@, k as int)
                        } else {
                            0
                        }) + kids_sum(dirs@, direct@, i, k + 1));
                    }
                }
            },
            None => {
                proof {
                    assert(false);
                }
            },
        }
    }
    proof {
        assert(acc@.take(1) =~= seq![acc@[0]]);
        assert(seq![acc@[0]].drop_last() =~= Seq::<i64>::empty());
        assert(sum64(Seq::<i64>::empty()) == 0);
    }
    acc
}

/// How many directories each holds directly.
pub fn direct_dir_counts(dirs: &Vec<DirRowDraft>) -> (r: Vec<usize>)
    requires
        parents_first(dirs@),
    ensures
        r@.len() == dirs@.len(),
        forall|i: int|
            0 <= i < r@.len() ==> #[trigger] r@[i] == kid_count(dirs@, i, dirs@.len() as int),
{
    let n: usize = dirs.len();
    let mut acc: Vec<usize> = Vec::new();
    let mut c: usize = 0;
    while c < n
        invariant
            c <= n,
            acc@.len() == c,
            forall|i: int| 0 <= i < c ==> #[trigger] acc@[i] == 0,
        decreases n - c,
    {
        acc.push(0);
        c = c + 1;
    }
    let mut k: usize = 0;
    while k < n
        invariant
            k <= n,
            n == dirs@.len(),
            parents_first(dirs@),
            acc@.len() == n,
            forall|i: int| 0 <= i < n ==> #[trigger] acc@[i] == kid_count(dirs@, i, k as int),
            forall|i: int| 0 <= i < n ==> #[trigger] acc@[i] <= k,
        decreases n - k,
    {
        match dirs[k].parent_id {
            Some(j) => {
                let ghost before = acc@;
                let v: usize = acc[j] + 1;
                acc.set(j, v);
                proof {
                    assert forall|i: int| 0 <= i < n implies #[trigger] acc@[i] == kid_count(
                        dirs@,
                        i,
                        k + 1,
                    ) by {
                        assert(before[i] == kid_count(dirs@, i, k as int));
                    }
                }
            },
            None => {
                proof {
                    assert forall|i: int| 0 <= i < n implies #[trigger] acc@[i] == kid_count(
                        dirs@,
                        i,
                        k + 1,
                    ) by {}
                }
            },
        }
        k = k + 1;
    }
    acc
}

/// The directories below the first `m`, among the first `n`.
pub open spec fn kid_counts(dirs: Seq<DirRowDraft>, m: int, n: int) -> int
    decreases m,
{
    if m <= 0 {
        0
    } else {
        kid_counts(dirs, m - 1, n) + kid_count(dirs, m - 1, n)
    }
}

proof fn lemma_kid_counts(dirs: Seq<DirRowDraft>, m: int, n: int)
    requires
        parents_first(dirs),
        dirs.len() <= usize::MAX,
        0 <= m <= dirs.len(),
        1 <= n <= dirs.len(),
    ensures
        n == 1 ==> kid_counts(dirs, m, n) == 0,
        n > 1 ==> kid_counts(dirs, m, n) == kid_counts(dirs, m, n - 1) + (if dirs[n
            - 1].parent_id->0 < m {
            1int
        } else {
            0
        }),
    decreases m,
{
    assert(n > 1 ==> dirs[n - 1].parent_id is Some);
    if m > 0 {
        lemma_kid_counts(dirs, m - 1, n);
        reveal_with_fuel(kid_count, 2);
    }
}

proof fn lemma_all_kids(dirs: Seq<DirRowDraft>, n: int)
    requires
        parents_first(dirs),
        dirs.len() <= usize::MAX,
        1 <= n <= dirs.len(),
    ensures
        kid_counts(dirs, dirs.len() as int, n) == n - 1,
    decreases n,
{
    lemma_kid_counts(dirs, dirs.len() as int, n);
    if n > 1 {
        lemma_all_kids(dirs, n - 1);
        assert(dirs[n - 1].parent_id is Some);
    }
}

/// Every directory but the root stands directly below exactly one directory: over all of
/// a tree the numbers of directories directly below add up to one less than there are.
pub proof fn law_every_directory_has_one_parent(dirs: Seq<DirRowDraft>)
    requires
        parents_first(dirs),
        dirs.len() <= usize::MAX,
    ensures
        kid_counts(dirs, dirs.len() as int, dirs.len() as int) == dirs.len() - 1,
{
    lemma_all_kids(dirs, dirs.len() as int);
}

/// A directory counts one below it exactly where it is some directory's parent.
pub proof fn law_parents_have_children(dirs: Seq<DirRowDraft>, i: int, n: int)
    requires
        0 <= i <= usize::MAX,
        0 <= n <= dirs.len(),
    ensures
        kid_count(dirs, i, n) >= 0,
        kid_count(dirs, i, n) > 0 <==> exists|c: int|
            0 <= c < n && (#[trigger] dirs[c]).parent_id == Some(i as usize),
    decreases n,
{
    if n > 0 {
        law_parents_have_children(dirs, i, n - 1);
        assert(dirs[n - 1].parent_id == Some(i as usize) ==> kid_count(dirs, i, n) > 0);
    }
}

} // verus!
