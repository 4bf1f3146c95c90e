//! What the event files of a scan add up to: the rows of each user, and what
//! each user takes in each directory.

use crate::events::DirAggEvent;
use crate::events::DirAggModel;
use crate::events::ScanEvent;
use crate::events::ScanModel;
use crate::events;
use crate::interner::Interner;
use crate::paths;
use crate::scope;
use crate::spill::RowModel;
use crate::spill::SpillRow;
use crate::spill;
use crate::text;
use std::collections::HashMap;
use vstd::prelude::*;
use vstd::string::*;

verus! {

/// The number of rows at which the rows in memory are spilled.
pub const ROW_SPILL_THRESHOLD: usize = 200_000;

/// The number of bytes at which the rows in memory are spilled: 16 MiB.
pub const ROW_SPILL_BYTES: usize = 16_777_216;

// ---------------------------------------------------------------------------
// Sizes per directory and user
// ---------------------------------------------------------------------------

/// What a list of sizes holds for `uid`.
pub open spec fn size_in(s: Seq<(u32, i64)>, uid: u32) -> int
    decreases s.len(),
{
    if s.len() == 0 {
        0
    } else {
        size_in(s.drop_last(), uid) + (if s.last().0 == uid {
            s.last().1 as int
        } else {
            0
        })
    }
}

/// The sum of a list of sizes.
pub open spec fn list_sum(s: Seq<(u32, i64)>) -> int
    decreases s.len(),
{
    if s.len() == 0 {
        0
    } else {
        list_sum(s.drop_last()) + s.last().1
    }
}

/// The sum of all lists.
pub open spec fn lists_sum(v: Seq<Vec<(u32, i64)>>) -> int
    decreases v.len(),
{
    if v.len() == 0 {
        0
    } else {
        lists_sum(v.drop_last()) + list_sum(v.last()@)
    }
}

/// No uid occurs twice, and no size is negative.
pub open spec fn list_ok(s: Seq<(u32, i64)>) -> bool {
    &&& forall|i: int, j: int|
        0 <= i < j < s.len() ==> (#[trigger] s[i]).0 != (#[trigger] s[j]).0
    &&& forall|i: int| 0 <= i < s.len() ==> (#[trigger] s[i]).1 >= 0
}

proof fn lemma_list_push(s: Seq<(u32, i64)>, uid: u32, size: i64)
    ensures
        list_sum(s.push((uid, size))) == list_sum(s) + size,
        forall|u: u32| #[trigger]
            size_in(s.push((uid, size)), u) == size_in(s, u) + (if u == uid {
                size as int
            } else {
                0
            }),
{
    let t = s.push((uid, size));
    assert(t.drop_last() =~= s);
}

proof fn lemma_list_update(s: Seq<(u32, i64)>, k: int, size: i64)
    requires
        0 <= k < s.len(),
    ensures
        list_sum(s.update(k, (s[k].0, size))) == list_sum(s) - s[k].1 + size,
        forall|u: u32| #[trigger]
            size_in(s.update(k, (s[k].0, size)), u) == size_in(s, u) + (if u == s[k].0 {
                size - s[k].1
            } else {
                0
            }),
    decreases s.len(),
{
    let t = s.update(k, (s[k].0, size));
    if k == s.len() - 1 {
        assert(t.drop_last() =~= s.drop_last());
    } else {
        let head = s.drop_last();
        lemma_list_update(head, k, size);
        assert(t.drop_last() =~= head.update(k, (head[k].0, size)));
        assert(t.last() == s.last());
        assert forall|u: u32| #[trigger] size_in(t, u) == size_in(s, u) + (if u == s[k].0 {
            size - s[k].1
        } else {
            0
        }) by {
            assert(size_in(head.update(k, (head[k].0, size)), u) == size_in(t.drop_last(), u));
        }
    }
}

proof fn lemma_size_absent(s: Seq<(u32, i64)>, uid: u32)
    requires
        forall|i: int| 0 <= i < s.len() ==> (#[trigger] s[i]).0 != uid,
    ensures
        size_in(s, uid) == 0,
    decreases s.len(),
{
    if s.len() > 0 {
        lemma_size_absent(s.drop_last(), uid);
        assert(s[s.len() - 1].0 != uid);
    }
}

/// An element of a list is no larger than the list's sum.
pub proof fn lemma_list_bound(s: Seq<(u32, i64)>, k: int)
    requires
        list_ok(s),
        0 <= k < s.len(),
    ensures
        0 <= s[k].1 <= list_sum(s),
        list_sum(s) >= 0,
    decreases s.len(),
{
    let t = s.drop_last();
    assert(list_ok(t));
    lemma_list_nonneg(t);
    if k < t.len() {
        lemma_list_bound(t, k);
        assert(t[k] == s[k]);
    }
}

pub proof fn lemma_list_nonneg(s: Seq<(u32, i64)>)
    requires
        list_ok(s),
    ensures
        list_sum(s) >= 0,
    decreases s.len(),
{
    if s.len() > 0 {
        assert(list_ok(s.drop_last()));
        lemma_list_nonneg(s.drop_last());
        assert(s[s.len() - 1].1 >= 0);
    }
}

proof fn lemma_lists_push(v: Seq<Vec<(u32, i64)>>, x: Vec<(u32, i64)>)
    ensures
        lists_sum(v.push(x)) == lists_sum(v) + list_sum(x@),
{
    assert(v.push(x).drop_last() =~= v);
}

proof fn lemma_lists_update(v: Seq<Vec<(u32, i64)>>, k: int, x: Vec<(u32, i64)>)
    requires
        0 <= k < v.len(),
    ensures
        lists_sum(v.update(k, x)) == lists_sum(v) - list_sum(v[k]@) + list_sum(x@),
    decreases v.len(),
{
    let t = v.update(k, x);
    if k == v.len() - 1 {
        assert(t.drop_last() =~= v.drop_last());
    } else {
        lemma_lists_update(v.drop_last(), k, x);
        assert(t.drop_last() =~= v.drop_last().update(k, x));
        assert(t.last() == v.last());
    }
}

/// A list's sum is no larger than the sum of all lists.
pub proof fn lemma_lists_bound(v: Seq<Vec<(u32, i64)>>, k: int)
    requires
        forall|i: int| 0 <= i < v.len() ==> list_ok((#[trigger] v[i])@),
        0 <= k < v.len(),
    ensures
        0 <= list_sum(v[k]@) <= lists_sum(v),
    decreases v.len(),
{
    let t = v.drop_last();
    lemma_list_nonneg(v[v.len() - 1]@);
    lemma_list_nonneg(v[k]@);
    lemma_lists_nonneg(t);
    if k < t.len() {
        assert forall|i: int| 0 <= i < t.len() implies list_ok((#[trigger] t[i])@) by {
            assert(t[i] == v[i]);
        }
        lemma_lists_bound(t, k);
        assert(t[k] == v[k]);
    }
}

pub proof fn lemma_lists_nonneg(v: Seq<Vec<(u32, i64)>>)
    requires
        forall|i: int| 0 <= i < v.len() ==> list_ok((#[trigger] v[i])@),
    ensures
        lists_sum(v) >= 0,
    decreases v.len(),
{
    if v.len() > 0 {
        let t = v.drop_last();
        assert forall|i: int| 0 <= i < t.len() implies list_ok((#[trigger] t[i])@) by {
            assert(t[i] == v[i]);
        }
        lemma_lists_nonneg(t);
        lemma_list_nonneg(v[v.len() - 1]@);
    }
}

/// What each user takes in each directory.
pub struct DirSizes {
    dirs: Interner,
    sizes: Vec<Vec<(u32, i64)>>,
    total: i64,
}

impl DirSizes {
    /// Each directory has one list, and the lists add up to the total.
    pub closed spec fn wf(&self) -> bool {
        &&& self.dirs.wf()
        &&& self.sizes@.len() == self.dirs@.len()
        &&& forall|i: int|
            0 <= i < self.sizes@.len() ==> list_ok((#[trigger] self.sizes@[i])@)
                && self.sizes@[i]@.len() >= 1
        &&& self.total == lists_sum(self.sizes@)
    }

    /// The directories, in the order in which they first appeared.
    pub closed spec fn dir_names(&self) -> Seq<Seq<char>> {
        self.dirs@
    }

    /// The sizes of each directory, in the same order.
    pub closed spec fn lists(&self) -> Seq<Vec<(u32, i64)>> {
        self.sizes@
    }

    /// What `uid` takes in `dir`.
    pub open spec fn size_at(&self, dir: Seq<char>, uid: u32) -> int {
        if self.dir_names().contains(dir) {
            size_in(self.lists()[self.dir_names().index_of(dir)]@, uid)
        } else {
            0
        }
    }

    /// What all users take in all directories.
    pub closed spec fn sum(&self) -> int {
        self.total as int
    }

    pub proof fn lemma_wf(&self)
        requires
            self.wf(),
        ensures
            self.lists().len() == self.dir_names().len(),
            self.dir_names().no_duplicates(),
            self.dir_names().len() <= usize::MAX,
            forall|i: int|
                0 <= i < self.lists().len() ==> list_ok((#[trigger] self.lists()[i])@)
                    && self.lists()[i]@.len() >= 1,
            self.sum() == lists_sum(self.lists()),
            0 <= self.sum() <= i64::MAX,
    {
        self.dirs.lemma_wf();
        lemma_lists_nonneg(self.sizes@);
    }

    pub fn new() -> (r: Self)
        ensures
            r.wf(),
            r.dir_names() == Seq::<Seq<char>>::empty(),
            r.sum() == 0,
    {
        DirSizes { dirs: Interner::new(), sizes: Vec::new(), total: 0 }
    }

    /// What all users take in all directories.
    pub fn total(&self) -> (r: i64)
        ensures
            r == self.sum(),
    {
        self.total
    }

    /// The number of directories.
    pub fn len(&self) -> (r: usize)
        ensures
            r == self.dir_names().len(),
    {
        self.dirs.len()
    }

    /// The directory at a place.
    pub fn dir(&self, i: usize) -> (r: &String)
        requires
            i < self.dir_names().len(),
        ensures
            r@ == self.dir_names()[i as int],
    {
        self.dirs.get(i)
    }

    /// The sizes of the directory at a place.
    pub fn list(&self, i: usize) -> (r: &Vec<(u32, i64)>)
        requires
            i < self.lists().len(),
        ensures
            *r == self.lists()[i as int],
    {
        &self.sizes[i]
    }

    /// The directories, in the order in which they first appeared.
    pub fn dir_list(&self) -> (r: Vec<String>)
        ensures
            text::strs(r@) == self.dir_names(),
    {
        let mut out: Vec<String> = Vec::new();
        let mut i: usize = 0;
        while i < self.dirs.len()
            invariant
                i <= self.dir_names().len(),
                text::strs(out@) == self.dir_names().take(i as int),
            decreases self.dir_names().len() - i,
        {
            let ghost before = text::strs(out@);
            let s = self.dirs.get(i).clone();
            out.push(s);
            proof {
                assert(text::strs(out@) =~= before.push(s@));
                assert(self.dir_names().take(i + 1) =~= self.dir_names().take(i as int).push(s@));
            }
            i = i + 1;
        }
        proof {
            assert(self.dir_names().take(i as int) =~= self.dir_names());
        }
        out
    }

    /// Adds `size` to what `uid` takes in `dir`.
    pub fn add(&mut self, dir: &str, uid: u32, size: i64)
        requires
            old(self).wf(),
            size >= 0,
            old(self).sum() + size <= i64::MAX,
        ensures
            final(self).wf(),
            final(self).sum() == old(self).sum() + size,
            final(self).dir_names() == spill::with_name(old(self).dir_names(), dir@),
            forall|d: Seq<char>, u: u32| #[trigger]
                final(self).size_at(d, u) == old(self).size_at(d, u) + (if d == dir@ && u == uid {
                    size as int
                } else {
                    0
                }),
    {
        let n: usize = self.dirs.len();
        let ghost names0 = self.dirs@;
        let ghost sizes0 = self.sizes@;
        let k: usize = self.dirs.intern(dir);
        proof {
            self.dirs.lemma_wf();
        }
        if k >= n {
            let empty: Vec<(u32, i64)> = Vec::new();
            proof {
                lemma_lists_push(self.sizes@, empty);
            }
            self.sizes.push(empty);
        }
        let ghost sizes1 = self.sizes@;
        proof {
            assert(self.sizes@.len() == self.dirs@.len());
            assert forall|i: int| 0 <= i < sizes1.len() implies list_ok((#[trigger] sizes1[i])@)
                && (i == k || sizes1[i]@.len() >= 1) by {
                if i < n {
                    assert(sizes1[i] == sizes0[i]);
                }
            }
            assert(lists_sum(sizes1) == lists_sum(sizes0));
        }
        let mut list: Vec<(u32, i64)> = Vec::new();
        std::mem::swap(&mut list, &mut self.sizes[k]);
        let ghost list0 = list@;
        proof {
            assert(list0 == sizes1[k as int]@);
            assert(list_ok(list0));
            lemma_lists_bound(sizes1, k as int);
        }
        let mut j: usize = 0;
        while j < list.len() && list[j].0 != uid
            invariant
                j <= list@.len(),
                list@ == list0,
                forall|i: int| 0 <= i < j ==> (#[trigger] list0[i]).0 != uid,
            decreases list@.len() - j,
        {
            j = j + 1;
        }
        if j < list.len() {
            proof {
                lemma_list_bound(list0, j as int);
                lemma_list_update(list0, j as int, (list0[j as int].1 + size) as i64);
            }
            let old_size: i64 = list[j].1;
            list.set(j, (uid, old_size + size));
            proof {
                assert(list@ == list0.update(j as int, (list0[j as int].0, (old_size + size) as i64)));
            }
        } else {
            proof {
                lemma_list_push(list0, uid, size);
            }
            list.push((uid, size));
        }
        let ghost list1 = list;
        proof {
            assert(list_ok(list@));
            assert(list_sum(list@) == list_sum(list0) + size);
            assert forall|u: u32| #[trigger] size_in(list@, u) == size_in(list0, u) + (if u == uid {
                size as int
            } else {
                0
            }) by {}
        }
        std::mem::swap(&mut list, &mut self.sizes[k]);
        self.total = self.total + size;
        proof {
            assert(self.sizes@ =~= sizes1.update(k as int, list1));
            lemma_lists_update(sizes1, k as int, list1);
            let names1 = self.dirs@;
            assert(names1[k as int] == dir@);
            assert(names1.contains(dir@));
            assert forall|d: Seq<char>, u: u32| #[trigger] self.size_at(d, u) == old(self).size_at(
                d,
                u,
            ) + (if d == dir@ && u == uid {
                size as int
            } else {
                0
            }) by {
                if names1.contains(d) {
                    let p = names1.index_of(d);
                    assert(names1[p] == d);
                    if names0.contains(d) {
                        let q = names0.index_of(d);
                        assert(names0[q] == d);
                        assert(names1[q] == d);
                        assert(p == q);
                        assert(sizes1[q] == sizes0[q]);
                    } else {
                        assert(d == dir@);
                        assert(p == k);
                        assert(list0.len() == 0);
                    }
                    if d == dir@ {
                        assert(p == k);
                    } else {
                        assert(p != k);
                    }
                } else if names0.contains(d) {
                    let q = names0.index_of(d);
                    assert(names1[q] == d);
                }
            }
        }
    }

    /// Adds what a record of a directory's size says; one that is not positive
    /// adds nothing.
    pub fn add_dir_agg(&mut self, e: &DirAggEvent)
        requires
            old(self).wf(),
            e.size > 0 ==> old(self).sum() + e.size <= i64::MAX,
        ensures
            final(self).wf(),
            e.size <= 0 ==> *final(self) == *old(self),
            e.size > 0 ==> final(self).sum() == old(self).sum() + e.size,
            e.size > 0 ==> final(self).dir_names() == spill::with_name(old(self).dir_names(), e.path@),
            e.size > 0 ==> forall|d: Seq<char>, u: u32| #[trigger]
                final(self).size_at(d, u) == old(self).size_at(d, u) + (if d == e.path@ && u
                    == e.uid {
                    e.size as int
                } else {
                    0
                }),
    {
        if e.size > 0 {
            self.add(e.path.as_str(), e.uid, e.size);
        }
    }

    /// Adds those directory sizes of a file that are below the prefix, where there is
    /// one; false, and nothing is added, where they could then not be held.
    pub fn add_file(&mut self, file: &[u8], prefix: &Option<String>) -> (r: bool)
        requires
            old(self).wf(),
        ensures
            final(self).wf(),
            r == (old(self).sum() + agg_total(scope::taken_dir_aggs(file@, text::opt(*prefix))) <= i64::MAX),
            !r ==> *final(self) == *old(self),
            r ==> final(self).sum() == old(self).sum() + agg_total(scope::taken_dir_aggs(file@, text::opt(*prefix))),
            r ==> forall|d: Seq<char>| #[trigger]
                final(self).dir_names().contains(d) <==> old(self).dir_names().contains(d) || sized(
                    scope::taken_dir_aggs(file@, text::opt(*prefix)),
                    d,
                ),
            r ==> forall|d: Seq<char>, u: u32| #[trigger]
                final(self).size_at(d, u) == old(self).size_at(d, u) + agg_bytes(
                    scope::taken_dir_aggs(file@, text::opt(*prefix)),
                    d,
                    u,
                ),
    {
        let (found, _clean) = events::for_each_dir_agg_in_file(file);
        let evs = scope::keep_dir_aggs(found, prefix);
        let ghost all = events::dir_agg_views(evs@);
        proof {
            self.lemma_wf();
        }
        if !aggs_fit_in(&evs, i64::MAX - self.total()) {
            return false;
        }
        let mut i: usize = 0;
        assert(all.take(0) =~= Seq::<DirAggModel>::empty());
        while i < evs.len()
            invariant
                self.wf(),
                i <= evs@.len(),
                all == events::dir_agg_views(evs@),
                old(self).sum() + agg_total(all) <= i64::MAX,
                self.sum() == old(self).sum() + agg_total(all.take(i as int)),
                forall|d: Seq<char>| #[trigger]
                    self.dir_names().contains(d) <==> old(self).dir_names().contains(d) || sized(
                        all.take(i as int),
                        d,
                    ),
                forall|d: Seq<char>, u: u32| #[trigger]
                    self.size_at(d, u) == old(self).size_at(d, u) + agg_bytes(
                        all.take(i as int),
                        d,
                        u,
                    ),
            decreases evs@.len() - i,
        {
            let ghost before = *self;
            proof {
                assert(all.take(i + 1).drop_last() =~= all.take(i as int));
                assert(all.take(i + 1).last() == evs@[i as int]@);
                lemma_agg_total_grows(all, i + 1);
            }
            self.add_dir_agg(&evs[i]);
            proof {
                assert forall|d: Seq<char>| #[trigger] self.dir_names().contains(d) <==> old(
                    self,
                ).dir_names().contains(d) || sized(all.take(i + 1), d) by {
                    lemma_sized_step(all, i as int, d);
                    lemma_with_name(before.dir_names(), evs@[i as int].path@, d);
                    assert(before.dir_names().contains(d) <==> old(self).dir_names().contains(d)
                        || sized(all.take(i as int), d));
                }
                assert forall|d: Seq<char>, u: u32| #[trigger] self.size_at(d, u) == old(
                    self,
                ).size_at(d, u) + agg_bytes(all.take(i + 1), d, u) by {
                    assert(before.size_at(d, u) == old(self).size_at(d, u) + agg_bytes(
                        all.take(i as int),
                        d,
                        u,
                    ));
                }
            }
            i = i + 1;
        }
        assert(all.take(i as int) =~= all);
        true
    }
}

/// The bytes of a user in a directory, by directory sizes; those that are not
/// positive do not count.
pub open spec fn agg_bytes(evs: Seq<DirAggModel>, dir: Seq<char>, uid: u32) -> int
    decreases evs.len(),
{
    if evs.len() == 0 {
        0
    } else {
        let e = evs.last();
        agg_bytes(evs.drop_last(), dir, uid) + (if e.size > 0 && e.path == dir && e.uid == uid {
            e.size as int
        } else {
            0
        })
    }
}

/// Whether a directory size that counts is one of `dir`.
pub open spec fn sized(evs: Seq<DirAggModel>, dir: Seq<char>) -> bool {
    exists|i: int| 0 <= i < evs.len() && (#[trigger] evs[i]).size > 0 && evs[i].path == dir
}

proof fn lemma_sized_step(evs: Seq<DirAggModel>, i: int, dir: Seq<char>)
    requires
        0 <= i < evs.len(),
    ensures
        sized(evs.take(i + 1), dir) <==> sized(evs.take(i), dir) || (evs[i].size > 0 && evs[i].path
            == dir),
{
    let a = evs.take(i);
    let b = evs.take(i + 1);
    if sized(a, dir) {
        let k = choose|k: int| 0 <= k < a.len() && (#[trigger] a[k]).size > 0 && a[k].path == dir;
        assert(b[k] == a[k]);
    }
    assert(b[i] == evs[i]);
    if sized(b, dir) {
        let k = choose|k: int| 0 <= k < b.len() && (#[trigger] b[k]).size > 0 && b[k].path == dir;
        if k < i {
            assert(a[k] == b[k]);
        }
    }
}

/// The bytes of all directory sizes.
pub open spec fn agg_total(evs: Seq<DirAggModel>) -> int
    decreases evs.len(),
{
    if evs.len() == 0 {
        0
    } else {
        agg_total(evs.drop_last()) + (if evs.last().size > 0 {
            evs.last().size as int
        } else {
            0
        })
    }
}

proof fn lemma_agg_total_grows(evs: Seq<DirAggModel>, i: int)
    requires
        0 <= i <= evs.len(),
    ensures
        0 <= agg_total(evs.take(i)) <= agg_total(evs),
    decreases evs.len(),
{
    if i < evs.len() {
        lemma_agg_total_grows(evs.drop_last(), i);
        assert(evs.drop_last().take(i) =~= evs.take(i));
    } else {
        assert(evs.take(i) =~= evs);
        if evs.len() > 0 {
            lemma_agg_total_grows(evs.drop_last(), evs.len() - 1);
        }
    }
}

/// Whether all directory sizes together stay within `left` bytes.
fn aggs_fit_in(evs: &Vec<DirAggEvent>, left: i64) -> (r: bool)
    requires
        left >= 0,
    ensures
        r == (agg_total(events::dir_agg_views(evs@)) <= left),
{
    let ghost all = events::dir_agg_views(evs@);
    let mut free: i64 = left;
    let mut i: usize = 0;
    while i < evs.len()
        invariant
            i <= evs@.len(),
            all == events::dir_agg_views(evs@),
            free >= 0,
            free == left - agg_total(all.take(i as int)),
        decreases evs@.len() - i,
    {
        proof {
            assert(all.take(i + 1).drop_last() =~= all.take(i as int));
            assert(all.take(i + 1).last() == evs@[i as int]@);
            lemma_agg_total_grows(all, i + 1);
        }
        if evs[i].size > 0 {
            if evs[i].size > free {
                return false;
            }
            free = free - evs[i].size;
        }
        i = i + 1;
    }
    assert(all.take(i as int) =~= all);
    true
}

pub proof fn lemma_list_prefix_sum(s: Seq<(u32, i64)>, j: int)
    requires
        list_ok(s),
        0 <= j <= s.len(),
    ensures
        0 <= list_sum(s.take(j)) <= list_sum(s),
    decreases s.len() - j,
{
    lemma_list_nonneg(s);
    assert(list_ok(s.take(j)));
    lemma_list_nonneg(s.take(j));
    if j < s.len() {
        lemma_list_prefix_sum(s, j + 1);
        assert(s.take(j + 1).drop_last() =~= s.take(j));
        assert(s[j].1 >= 0);
    } else {
        assert(s.take(j) =~= s);
    }
}

pub proof fn lemma_lists_prefix_sum(v: Seq<Vec<(u32, i64)>>, j: int)
    requires
        forall|i: int| 0 <= i < v.len() ==> list_ok((#[trigger] v[i])@),
        0 <= j <= v.len(),
    ensures
        0 <= lists_sum(v.take(j)) <= lists_sum(v),
    decreases v.len() - j,
{
    let t = v.take(j);
    assert forall|i: int| 0 <= i < t.len() implies list_ok((#[trigger] t[i])@) by {
        assert(t[i] == v[i]);
    }
    lemma_lists_nonneg(t);
    if j < v.len() {
        lemma_lists_prefix_sum(v, j + 1);
        assert(v.take(j + 1).drop_last() =~= t);
        lemma_list_nonneg(v[j]@);
    } else {
        assert(t =~= v);
    }
}

pub proof fn lemma_push_contains(s: Seq<Seq<char>>, x: Seq<char>, d: Seq<char>)
    ensures
        s.push(x).contains(d) <==> s.contains(d) || d == x,
{
    let t = s.push(x);
    assert(t[s.len() as int] == x);
    if s.contains(d) {
        let k = choose|k: int| 0 <= k < s.len() && s[k] == d;
        assert(t[k] == d);
    }
    if t.contains(d) && d != x {
        let k = choose|k: int| 0 <= k < t.len() && t[k] == d;
        assert(s[k] == d);
    }
}

/// What is named once one name more was noted.
pub proof fn lemma_with_name(s: Seq<Seq<char>>, x: Seq<char>, d: Seq<char>)
    ensures
        spill::with_name(s, x).contains(d) <==> s.contains(d) || d == x,
{
    lemma_push_contains(s, x, d);
}

impl DirSizes {
    /// Adds what `other` holds.
    pub fn merge(&mut self, other: &DirSizes)
        requires
            old(self).wf(),
            other.wf(),
            old(self).sum() + other.sum() <= i64::MAX,
        ensures
            final(self).wf(),
            final(self).sum() == old(self).sum() + other.sum(),
            forall|d: Seq<char>| #[trigger]
                final(self).dir_names().contains(d) <==> old(self).dir_names().contains(d)
                    || other.dir_names().contains(d),
            forall|d: Seq<char>, u: u32| #[trigger]
                final(self).size_at(d, u) == old(self).size_at(d, u) + other.size_at(d, u),
    {
        let mut i: usize = 0;
        let ghost names = other.dir_names();
        let ghost lists = other.lists();
        proof {
            other.lemma_wf();
            assert(lists.take(0) =~= Seq::<Vec<(u32, i64)>>::empty());
        }
        while i < other.len()
            invariant
                i <= names.len(),
                names == other.dir_names(),
                lists == other.lists(),
                lists.len() == names.len(),
                names.no_duplicates(),
                other.wf(),
                other.sum() == lists_sum(lists),
                old(self).sum() + other.sum() <= i64::MAX,
                forall|k: int|
                    0 <= k < lists.len() ==> list_ok((#[trigger] lists[k])@) && lists[k]@.len()
                        >= 1,
                self.wf(),
                self.sum() == old(self).sum() + lists_sum(lists.take(i as int)),
                forall|d: Seq<char>| #[trigger]
                    self.dir_names().contains(d) <==> old(self).dir_names().contains(d)
                        || names.take(i as int).contains(d),
                forall|d: Seq<char>, u: u32| #[trigger]
                    self.size_at(d, u) == old(self).size_at(d, u) + (if names.take(
                        i as int,
                    ).contains(d) {
                        other.size_at(d, u)
                    } else {
                        0
                    }),
            decreases names.len() - i,
        {
            let dir = other.dir(i);
            let list = other.list(i);
            let ghost mid = *self;
            let ghost l = list@;
            proof {
                assert(lists[i as int]@ == l);
                assert(lists.take(i + 1).drop_last() =~= lists.take(i as int));
                lemma_lists_prefix_sum(lists, i + 1);
                assert(l.take(0) =~= Seq::<(u32, i64)>::empty());
                assert(names[i as int] == dir@);
                assert(names.contains(dir@));
            }
            let mut j: usize = 0;
            while j < list.len()
                invariant
                    j <= l.len(),
                    i < names.len(),
                    l == list@,
                    list_ok(l),
                    mid.sum() + list_sum(l) <= i64::MAX,
                    self.wf(),
                    self.sum() == mid.sum() + list_sum(l.take(j as int)),
                    forall|d: Seq<char>| #[trigger]
                        self.dir_names().contains(d) <==> mid.dir_names().contains(d) || (j > 0
                            && d == dir@),
                    forall|d: Seq<char>, u: u32| #[trigger]
                        self.size_at(d, u) == mid.size_at(d, u) + (if d == dir@ {
                            size_in(l.take(j as int), u)
                        } else {
                            0
                        }),
                decreases l.len() - j,
            {
                let ghost before = *self;
                proof {
                    lemma_list_prefix_sum(l, j + 1);
                    assert(l.take(j + 1).drop_last() =~= l.take(j as int));
                    assert(l[j as int].1 >= 0);
                }
                self.add(dir.as_str(), list[j].0, list[j].1);
                proof {
                    assert forall|d: Seq<char>| #[trigger]
                        self.dir_names().contains(d) <==> mid.dir_names().contains(d) || d
                            == dir@ by {
                        lemma_with_name(before.dir_names(), dir@, d);
                    }
                }
                j = j + 1;
            }
            proof {
                assert(l.take(l.len() as int) =~= l);
                assert forall|d: Seq<char>| #[trigger]
                    self.dir_names().contains(d) <==> old(self).dir_names().contains(d)
                        || names.take(i + 1).contains(d) by {
                    assert(names.take(i + 1) =~= names.take(i as int).push(dir@));
                    lemma_push_contains(names.take(i as int), dir@, d);
                    assert(mid.dir_names().contains(d) <==> old(self).dir_names().contains(d)
                        || names.take(i as int).contains(d));
                }
                assert forall|d: Seq<char>, u: u32| #[trigger] self.size_at(d, u) == old(
                    self,
                ).size_at(d, u) + (if names.take(i + 1).contains(d) {
                    other.size_at(d, u)
                } else {
                    0
                }) by {
                    assert(mid.size_at(d, u) == old(self).size_at(d, u) + (if names.take(
                        i as int,
                    ).contains(d) {
                        other.size_at(d, u)
                    } else {
                        0
                    }));
                    if d == dir@ {
                        assert(names.take(i + 1)[i as int] == d);
                        let p = names.index_of(d);
                        assert(names[p] == d);
                        assert(p == i);
                        assert(!names.take(i as int).contains(d)) by {
                            if names.take(i as int).contains(d) {
                                let q = choose|q: int|
                                    0 <= q < i && names.take(i as int)[q] == d;
                                assert(names[q] == d);
                            }
                        }
                    } else {
                        let t1 = names.take(i + 1);
                        if t1.contains(d) {
                            let q = choose|q: int| 0 <= q < t1.len() && t1[q] == d;
                            assert(names.take(i as int)[q] == d);
                        }
                        if names.take(i as int).contains(d) {
                            let q = choose|q: int| 0 <= q < i && names.take(i as int)[q] == d;
                            assert(names.take(i + 1)[q] == d);
                        }
                    }
                }
            }
            i = i + 1;
        }
        proof {
            assert(names.take(i as int) =~= names);
            assert(lists.take(i as int) =~= lists);
        }
    }
}

// ---------------------------------------------------------------------------
// Rows per user
// ---------------------------------------------------------------------------

/// The row of a scan event.
pub open spec fn row_of(e: ScanModel) -> RowModel {
    let path = paths::clean_path(e.path);
    RowModel { size: e.size, path, ext: paths::lowercase(paths::path_extension(path)) }
}

/// The directory that a scan event's size counts for, if its path names one.
pub open spec fn dir_of(e: ScanModel) -> Option<Seq<char>> {
    paths::named_parent(paths::clean_path(e.path))
}

/// The sum, or the greatest number where it does not fit.
pub open spec fn sat_add(a: int, b: int) -> int {
    if a + b <= usize::MAX {
        a + b
    } else {
        usize::MAX as int
    }
}

/// The bytes that a row is counted with while it is in memory: its size field,
/// its two strings and what they take besides.
pub open spec fn row_cost(r: RowModel) -> int {
    (8 + vstd::utf8::encode_utf8(r.path).len() + vstd::utf8::encode_utf8(r.ext).len() + 56) as int
}

/// The rows of a user among scan events, in their order.
pub open spec fn rows_by(
    evs: Seq<ScanModel>,
    names: Map<u32, Seq<char>>,
    user: Seq<char>,
) -> Seq<RowModel>
    decreases evs.len(),
{
    if evs.len() == 0 {
        Seq::empty()
    } else {
        let r = rows_by(evs.drop_last(), names, user);
        if events::user_name(evs.last().uid, names) == user {
            r.push(row_of(evs.last()))
        } else {
            r
        }
    }
}

/// The bytes of a user in a directory, by scan events.
pub open spec fn dir_bytes(evs: Seq<ScanModel>, dir: Seq<char>, uid: u32) -> int
    decreases evs.len(),
{
    if evs.len() == 0 {
        0
    } else {
        let e = evs.last();
        dir_bytes(evs.drop_last(), dir, uid) + (if dir_of(e) == Some(dir) && e.uid == uid {
            e.size as int
        } else {
            0
        })
    }
}

/// Whether a scan event is of a file directly in `dir`.
pub open spec fn holds_file(evs: Seq<ScanModel>, dir: Seq<char>) -> bool {
    exists|i: int| 0 <= i < evs.len() && dir_of(#[trigger] evs[i]) == Some(dir)
}

proof fn lemma_holds_file_step(evs: Seq<ScanModel>, i: int, dir: Seq<char>)
    requires
        0 <= i < evs.len(),
    ensures
        holds_file(evs.take(i + 1), dir) <==> holds_file(evs.take(i), dir) || dir_of(evs[i]) == Some(
            dir,
        ),
{
    let a = evs.take(i);
    let b = evs.take(i + 1);
    if holds_file(a, dir) {
        let k = choose|k: int| 0 <= k < a.len() && dir_of(#[trigger] a[k]) == Some(dir);
        assert(b[k] == a[k]);
    }
    assert(b[i] == evs[i]);
    if holds_file(b, dir) {
        let k = choose|k: int| 0 <= k < b.len() && dir_of(#[trigger] b[k]) == Some(dir);
        if k < i {
            assert(a[k] == b[k]);
        }
    }
}

/// The bytes of the scan events whose paths name a directory.
pub open spec fn placed_bytes(evs: Seq<ScanModel>) -> int
    decreases evs.len(),
{
    if evs.len() == 0 {
        0
    } else {
        placed_bytes(evs.drop_last()) + (if dir_of(evs.last()) is Some {
            evs.last().size as int
        } else {
            0
        })
    }
}

/// The bytes that the rows of scan events are counted with while they are in
/// memory.
pub open spec fn rows_cost(evs: Seq<ScanModel>) -> int
    decreases evs.len(),
{
    if evs.len() == 0 {
        0
    } else {
        rows_cost(evs.drop_last()) + row_cost(row_of(evs.last()))
    }
}

proof fn lemma_rows_cost_nonneg(evs: Seq<ScanModel>)
    ensures
        rows_cost(evs) >= 0,
    decreases evs.len(),
{
    if evs.len() > 0 {
        lemma_rows_cost_nonneg(evs.drop_last());
    }
}

/// The bytes of all scan events.
pub open spec fn all_bytes(evs: Seq<ScanModel>) -> int
    decreases evs.len(),
{
    if evs.len() == 0 {
        0
    } else {
        all_bytes(evs.drop_last()) + evs.last().size
    }
}

proof fn lemma_all_bytes_grow(evs: Seq<ScanModel>, i: int)
    requires
        0 <= i <= evs.len(),
    ensures
        0 <= all_bytes(evs.take(i)) <= all_bytes(evs),
    decreases evs.len(),
{
    if i < evs.len() {
        lemma_all_bytes_grow(evs.drop_last(), i);
        assert(evs.drop_last().take(i) =~= evs.take(i));
    } else {
        assert(evs.take(i) =~= evs);
        if evs.len() > 0 {
            lemma_all_bytes_grow(evs.drop_last(), evs.len() - 1);
        }
    }
}

/// Whether all events together stay within `left` bytes.
fn fits_in(evs: &Vec<ScanEvent>, left: i64) -> (r: bool)
    requires
        left >= 0,
    ensures
        r == (all_bytes(events::scan_views(evs@)) <= left),
{
    let ghost all = events::scan_views(evs@);
    let mut free: u64 = left as u64;
    let mut i: usize = 0;
    while i < evs.len()
        invariant
            i <= evs@.len(),
            all == events::scan_views(evs@),
            free == left - all_bytes(all.take(i as int)),
        decreases evs@.len() - i,
    {
        proof {
            assert(all.take(i + 1).drop_last() =~= all.take(i as int));
            assert(all[i as int] == evs@[i as int]@);
            lemma_all_bytes_grow(all, i + 1);
        }
        if evs[i].size > free {
            return false;
        }
        free = free - evs[i].size;
        i = i + 1;
    }
    assert(all.take(i as int) =~= all);
    true
}

/// What has been read from event files and not been spilled.
pub struct LocalAgg {
    users: Interner,
    rows: Vec<Vec<SpillRow>>,
    sizes: DirSizes,
    row_count: usize,
    bytes_in_flight: usize,
}

impl LocalAgg {
    pub closed spec fn wf(&self) -> bool {
        &&& self.users.wf()
        &&& self.rows@.len() == self.users@.len()
        &&& forall|i: int| 0 <= i < self.rows@.len() ==> (#[trigger] self.rows@[i])@.len() >= 1
        &&& self.sizes.wf()
    }

    /// The users with rows, in the order in which they first appeared.
    pub closed spec fn user_names(&self) -> Seq<Seq<char>> {
        self.users@
    }

    /// The rows of each user, in the same order.
    pub closed spec fn row_lists(&self) -> Seq<Vec<SpillRow>> {
        self.rows@
    }

    /// The rows of a user.
    pub open spec fn rows_of(&self, user: Seq<char>) -> Seq<RowModel> {
        if self.user_names().contains(user) {
            spill::row_views(self.row_lists()[self.user_names().index_of(user)]@)
        } else {
            Seq::empty()
        }
    }

    /// What each user takes in each directory.
    pub closed spec fn dir_sizes(&self) -> DirSizes {
        self.sizes
    }

    pub closed spec fn count(&self) -> int {
        self.row_count as int
    }

    pub closed spec fn bytes(&self) -> int {
        self.bytes_in_flight as int
    }

    pub proof fn lemma_wf(&self)
        requires
            self.wf(),
        ensures
            self.dir_sizes().wf(),
            self.row_lists().len() == self.user_names().len(),
            self.user_names().no_duplicates(),
            forall|u: Seq<char>| #[trigger]
                self.user_names().contains(u) <==> self.rows_of(u).len() > 0,
            0 <= self.count() <= usize::MAX,
            0 <= self.bytes() <= usize::MAX,
    {
        self.users.lemma_wf();
        assert forall|u: Seq<char>| #[trigger] self.user_names().contains(u) implies self.rows_of(
            u,
        ).len() > 0 by {
            let k = self.users@.index_of(u);
            assert(self.rows@[k]@.len() >= 1);
        }
    }

    pub fn new() -> (r: Self)
        ensures
            r.wf(),
            r.user_names() == Seq::<Seq<char>>::empty(),
            r.dir_sizes().dir_names() == Seq::<Seq<char>>::empty(),
            r.dir_sizes().sum() == 0,
            r.count() == 0,
            r.bytes() == 0,
    {
        LocalAgg {
            users: Interner::new(),
            rows: Vec::new(),
            sizes: DirSizes::new(),
            row_count: 0,
            bytes_in_flight: 0,
        }
    }

    /// What each user takes in each directory.
    pub fn sizes(&self) -> (r: &DirSizes)
        ensures
            *r == self.dir_sizes(),
    {
        &self.sizes
    }

    /// Whether the rows are to be spilled.
    pub fn should_spill(&self) -> (r: bool)
        ensures
            r == (self.bytes() >= ROW_SPILL_BYTES || self.count() >= ROW_SPILL_THRESHOLD),
    {
        self.bytes_in_flight >= ROW_SPILL_BYTES || self.row_count >= ROW_SPILL_THRESHOLD
    }

    fn push_row(&mut self, user: &str, row: SpillRow)
        requires
            old(self).wf(),
        ensures
            final(self).wf(),
            final(self).user_names() == spill::with_name(old(self).user_names(), user@),
            forall|u: Seq<char>| #[trigger]
                final(self).rows_of(u) == (if u == user@ {
                    old(self).rows_of(u).push(row@)
                } else {
                    old(self).rows_of(u)
                }),
            final(self).dir_sizes() == old(self).dir_sizes(),
            final(self).count() == old(self).count(),
            final(self).bytes() == old(self).bytes(),
    {
        let n: usize = self.users.len();
        let ghost names0 = self.users@;
        let ghost rows0 = self.rows@;
        let k: usize = self.users.intern(user);
        proof {
            self.users.lemma_wf();
        }
        if k >= n {
            self.rows.push(Vec::new());
        }
        let ghost rows1 = self.rows@;
        let mut list: Vec<SpillRow> = Vec::new();
        std::mem::swap(&mut list, &mut self.rows[k]);
        let ghost list0 = list@;
        list.push(row);
        let ghost list1 = list;
        std::mem::swap(&mut list, &mut self.rows[k]);
        proof {
            assert(self.rows@ =~= rows1.update(k as int, list1));
            assert forall|i: int| 0 <= i < self.rows@.len() implies (
            #[trigger] self.rows@[i])@.len() >= 1 by {
                if i != k {
                    assert(self.rows@[i] == rows0[i]);
                }
            }
            assert(spill::row_views(list1@) =~= spill::row_views(list0).push(row@));
            let names1 = self.users@;
            assert(names1[k as int] == user@);
            assert(names1.contains(user@));
            assert forall|u: Seq<char>| #[trigger] self.rows_of(u) == (if u == user@ {
                old(self).rows_of(u).push(row@)
            } else {
                old(self).rows_of(u)
            }) by {
                if names1.contains(u) {
                    let p = names1.index_of(u);
                    assert(names1[p] == u);
                    if names0.contains(u) {
                        let q = names0.index_of(u);
                        assert(names0[q] == u);
                        assert(names1[q] == u);
                        assert(p == q);
                        assert(rows1[q] == rows0[q]);
                    } else {
                        assert(u == user@);
                        assert(p == k);
                        assert(list0.len() == 0);
                        assert(spill::row_views(list0) =~= Seq::<RowModel>::empty());
                    }
                    if u == user@ {
                        assert(p == k);
                    } else {
                        assert(p != k);
                    }
                } else if names0.contains(u) {
                    let q = names0.index_of(u);
                    assert(names1[q] == u);
                }
            }
        }
    }

    /// Adds a scan event: a row for its user and, where the scan wrote no
    /// directory sizes of its own, its size for its directory.
    pub fn add_event(&mut self, e: &ScanEvent, uids: &HashMap<u32, String>, has_dir_agg: bool)
        requires
            old(self).wf(),
            !has_dir_agg ==> old(self).dir_sizes().sum() + e.size <= i64::MAX,
        ensures
            final(self).wf(),
            final(self).user_names() == spill::with_name(
                old(self).user_names(),
                events::user_name(e.uid, events::names_of(uids@)),
            ),
            forall|u: Seq<char>| #[trigger]
                final(self).rows_of(u) == (if u == events::user_name(e.uid, events::names_of(uids@)) {
                    old(self).rows_of(u).push(row_of(e@))
                } else {
                    old(self).rows_of(u)
                }),
            final(self).count() == sat_add(old(self).count(), 1),
            final(self).bytes() == sat_add(old(self).bytes(), row_cost(row_of(e@))),
            has_dir_agg || dir_of(e@) is None ==> final(self).dir_sizes() == old(self).dir_sizes(),
            !has_dir_agg && dir_of(e@) is Some ==> final(self).dir_sizes().sum() == old(
                self,
            ).dir_sizes().sum() + e.size,
            !has_dir_agg && dir_of(e@) is Some ==> final(self).dir_sizes().dir_names() == spill::with_name(
                old(self).dir_sizes().dir_names(),
                dir_of(e@)->0,
            ),
            !has_dir_agg && dir_of(e@) is Some ==> forall|d: Seq<char>, u: u32| #[trigger]
                final(self).dir_sizes().size_at(d, u) == old(self).dir_sizes().size_at(d, u) + (if d
                    == dir_of(e@)->0 && u == e.uid {
                    e.size as int
                } else {
                    0
                }),
    {
        let username = events::name_of_uid(e.uid, uids);
        let safe_path = paths::sanitise_path(e.path.as_str());
        let ext = paths::extension_for_path(safe_path.as_str());
        let added: usize = cost_of(safe_path.as_str(), ext.as_str());
        proof {
            self.sizes.lemma_wf();
        }
        if !has_dir_agg {
            match paths::parent_path(safe_path.as_str()) {
                Some(parent) => {
                    self.sizes.add(parent.as_str(), e.uid, e.size as i64);
                },
                None => {},
            }
        }
        let row = SpillRow { size: e.size, path: safe_path, ext };
        proof {
            assert(row@ == row_of(e@));
        }
        let ghost before = *self;
        self.push_row(username.as_str(), row);
        let ghost after = *self;
        self.row_count = self.row_count.saturating_add(1);
        self.bytes_in_flight = self.bytes_in_flight.saturating_add(added);
        proof {
            assert forall|u: Seq<char>| #[trigger] self.rows_of(u) == (if u == username@ {
                old(self).rows_of(u).push(row_of(e@))
            } else {
                old(self).rows_of(u)
            }) by {
                assert(self.rows_of(u) == after.rows_of(u));
                assert(before.rows_of(u) == old(self).rows_of(u));
            }
        }
    }

    /// Adds those scan events of a file that are below the prefix, where there is one;
    /// false, and nothing is added, where the sizes of directories could then not be
    /// held.
    pub fn add_file(
        &mut self,
        file: &[u8],
        uids: &HashMap<u32, String>,
        has_dir_agg: bool,
        prefix: &Option<String>,
    ) -> (r: bool)
        requires
            old(self).wf(),
        ensures
            final(self).wf(),
            r == (has_dir_agg || old(self).dir_sizes().sum() + all_bytes(
                scope::taken_scans(file@, text::opt(*prefix)),
            ) <= i64::MAX),
            !r ==> *final(self) == *old(self),
            r ==> forall|u: Seq<char>| #[trigger]
                final(self).rows_of(u) == old(self).rows_of(u) + rows_by(
                    scope::taken_scans(file@, text::opt(*prefix)),
                    events::names_of(uids@),
                    u,
                ),
            r ==> final(self).count() == sat_add(
                old(self).count(),
                scope::taken_scans(file@, text::opt(*prefix)).len() as int,
            ),
            r ==> final(self).bytes() == sat_add(
                old(self).bytes(),
                rows_cost(scope::taken_scans(file@, text::opt(*prefix))),
            ),
            has_dir_agg ==> final(self).dir_sizes() == old(self).dir_sizes(),
            r && !has_dir_agg ==> final(self).dir_sizes().sum() == old(self).dir_sizes().sum()
                + placed_bytes(scope::taken_scans(file@, text::opt(*prefix))),
            r && !has_dir_agg ==> forall|d: Seq<char>| #[trigger]
                final(self).dir_sizes().dir_names().contains(d) <==> old(
                    self,
                ).dir_sizes().dir_names().contains(d) || holds_file(
                    scope::taken_scans(file@, text::opt(*prefix)),
                    d,
                ),
            r && !has_dir_agg ==> forall|d: Seq<char>, u: u32| #[trigger]
                final(self).dir_sizes().size_at(d, u) == old(self).dir_sizes().size_at(d, u)
                    + dir_bytes(scope::taken_scans(file@, text::opt(*prefix)), d, u),
    {
        let (found, _clean) = events::for_each_scan_event_in_file(file);
        let evs = scope::keep_scans(found, prefix);
        let ghost all = events::scan_views(evs@);
        let ghost names = events::names_of(uids@);
        proof {
            self.sizes.lemma_wf();
        }
        if !has_dir_agg && !fits_in(&evs, i64::MAX - self.sizes.total()) {
            return false;
        }
        let mut i: usize = 0;
        proof {
            assert(all.take(0) =~= Seq::<ScanModel>::empty());
            assert forall|u: Seq<char>| #[trigger] self.rows_of(u) == old(self).rows_of(u)
                + rows_by(all.take(0), names, u) by {
                assert(self.rows_of(u) =~= old(self).rows_of(u) + Seq::<RowModel>::empty());
            }
        }
        while i < evs.len()
            invariant
                self.wf(),
                old(self).wf(),
                i <= evs@.len(),
                all == events::scan_views(evs@),
                names == events::names_of(uids@),
                !has_dir_agg ==> old(self).dir_sizes().sum() + all_bytes(all) <= i64::MAX,
                !has_dir_agg ==> self.dir_sizes().sum() == old(self).dir_sizes().sum()
                    + placed_bytes(all.take(i as int)),
                placed_bytes(all.take(i as int)) <= all_bytes(all.take(i as int)),
                self.count() == sat_add(old(self).count(), i as int),
                self.bytes() == sat_add(old(self).bytes(), rows_cost(all.take(i as int))),
                0 <= old(self).count() <= usize::MAX,
                0 <= old(self).bytes() <= usize::MAX,
                !has_dir_agg ==> forall|d: Seq<char>| #[trigger]
                    self.dir_sizes().dir_names().contains(d) <==> old(
                        self,
                    ).dir_sizes().dir_names().contains(d) || holds_file(all.take(i as int), d),
                has_dir_agg ==> self.dir_sizes() == old(self).dir_sizes(),
                forall|u: Seq<char>| #[trigger]
                    self.rows_of(u) == old(self).rows_of(u) + rows_by(all.take(i as int), names, u),
                !has_dir_agg ==> forall|d: Seq<char>, u: u32| #[trigger]
                    self.dir_sizes().size_at(d, u) == old(self).dir_sizes().size_at(d, u)
                        + dir_bytes(all.take(i as int), d, u),
            decreases evs@.len() - i,
        {
            let ghost before = *self;
            let ghost e = all[i as int];
            proof {
                assert(all.take(i + 1).drop_last() =~= all.take(i as int));
                assert(all.take(i + 1).last() == e);
                assert(e == evs@[i as int]@);
                lemma_all_bytes_grow(all, i + 1);
                lemma_rows_cost_nonneg(all.take(i as int));
            }
            self.add_event(&evs[i], uids, has_dir_agg);
            proof {
                if !has_dir_agg {
                    assert forall|d: Seq<char>| #[trigger]
                        self.dir_sizes().dir_names().contains(d) <==> old(
                            self,
                        ).dir_sizes().dir_names().contains(d) || holds_file(all.take(i + 1), d) by {
                        lemma_holds_file_step(all, i as int, d);
                        assert(before.dir_sizes().dir_names().contains(d) <==> old(
                            self,
                        ).dir_sizes().dir_names().contains(d) || holds_file(all.take(i as int), d));
                        if dir_of(e) is Some {
                            lemma_with_name(before.dir_sizes().dir_names(), dir_of(e)->0, d);
                        }
                    }
                }
                assert forall|u: Seq<char>| #[trigger] self.rows_of(u) == old(self).rows_of(u)
                    + rows_by(all.take(i + 1), names, u) by {
                    let r = rows_by(all.take(i as int), names, u);
                    assert(before.rows_of(u) == old(self).rows_of(u) + r);
                    assert((old(self).rows_of(u) + r).push(row_of(e)) =~= old(self).rows_of(u)
                        + r.push(row_of(e)));
                }
                if !has_dir_agg {
                    assert forall|d: Seq<char>, u: u32| #[trigger]
                        self.dir_sizes().size_at(d, u) == old(self).dir_sizes().size_at(d, u)
                            + dir_bytes(all.take(i + 1), d, u) by {
                        assert(before.dir_sizes().size_at(d, u) == old(self).dir_sizes().size_at(
                            d,
                            u,
                        ) + dir_bytes(all.take(i as int), d, u));
                    }
                }
            }
            i = i + 1;
        }
        assert(all.take(i as int) =~= all);
        true
    }

    /// Hands out the rows of every user and forgets them.
    pub fn take_rows(&mut self) -> (r: Vec<(String, Vec<SpillRow>)>)
        requires
            old(self).wf(),
        ensures
            final(self).wf(),
            final(self).user_names() == Seq::<Seq<char>>::empty(),
            final(self).dir_sizes() == old(self).dir_sizes(),
            final(self).count() == 0,
            final(self).bytes() == 0,
            r@.len() == old(self).user_names().len(),
            forall|i: int, j: int|
                0 <= i < j < r@.len() ==> (#[trigger] r@[i]).0@ != (#[trigger] r@[j]).0@,
            forall|i: int| 0 <= i < r@.len() ==> (#[trigger] r@[i]).1@.len() >= 1,
            forall|i: int|
                0 <= i < r@.len() ==> (#[trigger] r@[i]).0@ == old(self).user_names()[i]
                    && spill::row_views(r@[i].1@) == old(self).rows_of(old(self).user_names()[i]),
    {
        let mut users = Interner::new();
        let mut rows: Vec<Vec<SpillRow>> = Vec::new();
        std::mem::swap(&mut users, &mut self.users);
        std::mem::swap(&mut rows, &mut self.rows);
        self.row_count = 0;
        self.bytes_in_flight = 0;
        let ghost names = users@;
        let ghost lists = rows@;
        proof {
            users.lemma_wf();
        }
        let mut out: Vec<(String, Vec<SpillRow>)> = Vec::new();
        let mut i: usize = 0;
        while i < users.len()
            invariant
                i <= names.len(),
                names == users@,
                rows@.len() == lists.len(),
                lists.len() == names.len(),
                names.no_duplicates(),
                forall|k: int| 0 <= k < lists.len() ==> (#[trigger] lists[k])@.len() >= 1,
                forall|k: int| i <= k < lists.len() ==> rows@[k] == lists[k],
                out@.len() == i,
                forall|k: int|
                    0 <= k < i ==> (#[trigger] out@[k]).0@ == names[k] && out@[k].1 == lists[k],
            decreases names.len() - i,
        {
            let mut list: Vec<SpillRow> = Vec::new();
            std::mem::swap(&mut list, &mut rows[i]);
            out.push((users.get(i).clone(), list));
            i = i + 1;
        }
        proof {
            assert forall|k: int| 0 <= k < out@.len() implies (#[trigger] out@[k]).0@ == old(
                self,
            ).user_names()[k] && spill::row_views(out@[k].1@) == old(self).rows_of(
                old(self).user_names()[k],
            ) by {
                let u = names[k];
                assert(names.contains(u));
                let p = names.index_of(u);
                assert(names[p] == u);
                assert(p == k);
            }
        }
        out
    }

    /// Adds what `other` holds: its rows after the own, and its sizes.
    pub fn merge(&mut self, other: LocalAgg)
        requires
            old(self).wf(),
            other.wf(),
            old(self).dir_sizes().sum() + other.dir_sizes().sum() <= i64::MAX,
        ensures
            final(self).wf(),
            forall|u: Seq<char>| #[trigger]
                final(self).rows_of(u) == old(self).rows_of(u) + other.rows_of(u),
            final(self).count() == sat_add(old(self).count(), other.count()),
            final(self).bytes() == sat_add(old(self).bytes(), other.bytes()),
            final(self).dir_sizes().sum() == old(self).dir_sizes().sum() + other.dir_sizes().sum(),
            forall|d: Seq<char>| #[trigger]
                final(self).dir_sizes().dir_names().contains(d) <==> old(
                    self,
                ).dir_sizes().dir_names().contains(d) || other.dir_sizes().dir_names().contains(d),
            forall|d: Seq<char>, u: u32| #[trigger]
                final(self).dir_sizes().size_at(d, u) == old(self).dir_sizes().size_at(d, u)
                    + other.dir_sizes().size_at(d, u),
    {
        let mut other = other;
        let ghost other0 = other;
        let n: usize = other.row_count;
        let b: usize = other.bytes_in_flight;
        self.sizes.merge(&other.sizes);
        self.row_count = self.row_count.saturating_add(n);
        self.bytes_in_flight = self.bytes_in_flight.saturating_add(b);
        let ghost sizes1 = self.dir_sizes();
        let taken = other.take_rows();
        let ghost names = other0.user_names();
        proof {
            other0.lemma_wf();
            assert forall|u: Seq<char>| #[trigger] self.rows_of(u) == old(self).rows_of(u) by {
                assert(self.user_names() == old(self).user_names());
            }
        }
        let mut i: usize = 0;
        while i < taken.len()
            invariant
                i <= taken@.len(),
                taken@.len() == names.len(),
                names == other0.user_names(),
                names.no_duplicates(),
                forall|k: int|
                    0 <= k < taken@.len() ==> (#[trigger] taken@[k]).0@ == names[k] && spill::row_views(
                        taken@[k].1@,
                    ) == other0.rows_of(names[k]),
                self.wf(),
                self.dir_sizes() == sizes1,
                self.count() == sat_add(old(self).count(), other0.count()),
                self.bytes() == sat_add(old(self).bytes(), other0.bytes()),
                forall|u: Seq<char>| #[trigger]
                    self.rows_of(u) == (if names.take(i as int).contains(u) {
                        old(self).rows_of(u) + other0.rows_of(u)
                    } else {
                        old(self).rows_of(u)
                    }),
            decreases taken@.len() - i,
        {
            let user = &taken[i].0;
            let list = &taken[i].1;
            let ghost mid = *self;
            let ghost l = spill::row_views(list@);
            let mut j: usize = 0;
            proof {
                assert(l.take(0) =~= Seq::<RowModel>::empty());
                assert forall|u: Seq<char>| #[trigger] self.rows_of(u) == (if u == user@ {
                    mid.rows_of(u) + l.take(0)
                } else {
                    mid.rows_of(u)
                }) by {
                    assert(mid.rows_of(u) + l.take(0) =~= mid.rows_of(u));
                }
            }
            while j < list.len()
                invariant
                    j <= list@.len(),
                    l == spill::row_views(list@),
                    self.wf(),
                    self.dir_sizes() == mid.dir_sizes(),
                    self.count() == mid.count(),
                    self.bytes() == mid.bytes(),
                    forall|u: Seq<char>| #[trigger]
                        self.rows_of(u) == (if u == user@ {
                            mid.rows_of(u) + l.take(j as int)
                        } else {
                            mid.rows_of(u)
                        }),
                decreases list@.len() - j,
            {
                let r = &list[j];
                let row = SpillRow { size: r.size, path: r.path.clone(), ext: r.ext.clone() };
                let ghost before = *self;
                self.push_row(user.as_str(), row);
                proof {
                    assert(row@ == l[j as int]);
                    assert(l.take(j + 1) =~= l.take(j as int).push(row@));
                    assert forall|u: Seq<char>| #[trigger] self.rows_of(u) == (if u == user@ {
                        mid.rows_of(u) + l.take(j + 1)
                    } else {
                        mid.rows_of(u)
                    }) by {
                        assert(before.rows_of(u) == (if u == user@ {
                            mid.rows_of(u) + l.take(j as int)
                        } else {
                            mid.rows_of(u)
                        }));
                        if u == user@ {
                            assert((mid.rows_of(u) + l.take(j as int)).push(row@)
                                =~= mid.rows_of(u) + l.take(j + 1));
                        }
                    }
                }
                j = j + 1;
            }
            proof {
                assert(l.take(j as int) =~= l);
                assert forall|u: Seq<char>| #[trigger] self.rows_of(u) == (if names.take(
                    i + 1,
                ).contains(u) {
                    old(self).rows_of(u) + other0.rows_of(u)
                } else {
                    old(self).rows_of(u)
                }) by {
                    assert(mid.rows_of(u) == (if names.take(i as int).contains(u) {
                        old(self).rows_of(u) + other0.rows_of(u)
                    } else {
                        old(self).rows_of(u)
                    }));
                    if u == user@ {
                        assert(names.take(i + 1)[i as int] == u);
                        assert(!names.take(i as int).contains(u)) by {
                            if names.take(i as int).contains(u) {
                                let q = choose|q: int|
                                    0 <= q < i && names.take(i as int)[q] == u;
                                assert(names[q] == u);
                            }
                        }
                    } else {
                        let t1 = names.take(i + 1);
                        if t1.contains(u) {
                            let q = choose|q: int| 0 <= q < t1.len() && t1[q] == u;
                            assert(names.take(i as int)[q] == u);
                        }
                        if names.take(i as int).contains(u) {
                            let q = choose|q: int| 0 <= q < i && names.take(i as int)[q] == u;
                            assert(names.take(i + 1)[q] == u);
                        }
                    }
                }
            }
            i = i + 1;
        }
        proof {
            assert(names.take(i as int) =~= names);
            assert forall|u: Seq<char>| #[trigger] self.rows_of(u) == old(self).rows_of(u)
                + other0.rows_of(u) by {
                if !names.contains(u) {
                    assert(old(self).rows_of(u) + other0.rows_of(u) =~= old(self).rows_of(u));
                }
            }
        }
    }
}

/// The bytes that a row is counted with, up to the greatest number.
fn cost_of(path: &str, ext: &str) -> (r: usize)
    ensures
        r == sat_add(
            0,
            (8 + vstd::utf8::encode_utf8(path@).len() + vstd::utf8::encode_utf8(ext@).len() + 56) as int,
        ),
{
    let p = path.as_bytes();
    let e = ext.as_bytes();
    let a: usize = p.len().saturating_add(e.len());
    a.saturating_add(64)
}

// ---------------------------------------------------------------------------
// Laws
// ---------------------------------------------------------------------------

/// How records are spread over files does not matter: what two files hold is what
/// one file with the records of both would.
pub proof fn law_records_may_be_split(
    a: Seq<ScanModel>,
    b: Seq<ScanModel>,
    names: Map<u32, Seq<char>>,
    user: Seq<char>,
    dir: Seq<char>,
    uid: u32,
)
    ensures
        rows_by(a + b, names, user) == rows_by(a, names, user) + rows_by(b, names, user),
        dir_bytes(a + b, dir, uid) == dir_bytes(a, dir, uid) + dir_bytes(b, dir, uid),
        all_bytes(a + b) == all_bytes(a) + all_bytes(b),
    decreases b.len(),
{
    if b.len() == 0 {
        assert(a + b =~= a);
        assert(rows_by(a, names, user) + Seq::<RowModel>::empty() =~= rows_by(a, names, user));
    } else {
        law_records_may_be_split(a, b.drop_last(), names, user, dir, uid);
        assert((a + b).drop_last() =~= a + b.drop_last());
        assert((a + b).last() == b.last());
        let (x, y) = (rows_by(a, names, user), rows_by(b.drop_last(), names, user));
        let row = row_of(b.last());
        assert((x + y).push(row) =~= x + y.push(row));
    }
}

/// How directory sizes are spread over files does not matter either.
pub proof fn law_dir_sizes_may_be_split(
    a: Seq<DirAggModel>,
    b: Seq<DirAggModel>,
    dir: Seq<char>,
    uid: u32,
)
    ensures
        agg_bytes(a + b, dir, uid) == agg_bytes(a, dir, uid) + agg_bytes(b, dir, uid),
        agg_total(a + b) == agg_total(a) + agg_total(b),
    decreases b.len(),
{
    if b.len() == 0 {
        assert(a + b =~= a);
    } else {
        law_dir_sizes_may_be_split(a, b.drop_last(), dir, uid);
        assert((a + b).drop_last() =~= a + b.drop_last());
        assert((a + b).last() == b.last());
    }
}

/// What one record of a file `name` in a directory `dir` amounts to: one row of its user
/// with the size and the path of the file, and the size for its owner in that directory;
/// nothing for anybody else or elsewhere.
pub proof fn law_one_record(
    e: ScanModel,
    dir: Seq<char>,
    name: Seq<char>,
    names: Map<u32, Seq<char>>,
    user: Seq<char>,
    other: Seq<char>,
    uid: u32,
)
    requires
        dir.len() > 0,
        dir.last() != '/',
        name.len() > 0,
        !name.contains('/'),
        e.path == dir + seq!['/'] + name,
        paths::clean_path(e.path) == e.path,
    ensures
        events::user_name(e.uid, names) == user ==> rows_by(seq![e], names, user).len() == 1
            && rows_by(seq![e], names, user)[0].size == e.size && rows_by(
            seq![e],
            names,
            user,
        )[0].path == e.path,
        events::user_name(e.uid, names) != user ==> rows_by(seq![e], names, user).len() == 0,
        dir_bytes(seq![e], dir, e.uid) == e.size,
        uid != e.uid ==> dir_bytes(seq![e], dir, uid) == 0,
        other != dir ==> dir_bytes(seq![e], other, uid) == 0,
        all_bytes(seq![e]) == e.size,
{
    reveal_with_fuel(rows_by, 2);
    reveal_with_fuel(dir_bytes, 2);
    reveal_with_fuel(all_bytes, 2);
    assert(seq![e].drop_last() =~= Seq::<ScanModel>::empty());
    paths::law_names_in_directories(dir, name);
}

} // verus!
