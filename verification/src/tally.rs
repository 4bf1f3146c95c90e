//! Sizes and counts per directory and user, and their sums up the tree.

use vstd::prelude::*;

verus! {

/// What a user has in a directory.
#[derive(Clone, Copy, PartialEq, Eq, Structural, Debug)]
pub struct Tally {
    pub uid: i64,
    pub size: i64,
    pub files: i64,
}

/// The bytes that a list holds for `uid`.
pub open spec fn tally_size(s: Seq<Tally>, uid: i64) -> int
    decreases s.len(),
{
    if s.len() == 0 {
        0
    } else {
        tally_size(s.drop_last(), uid) + (if s.last().uid == uid {
            s.last().size as int
        } else {
            0
        })
    }
}

/// The files that a list holds for `uid`.
pub open spec fn tally_files(s: Seq<Tally>, uid: i64) -> int
    decreases s.len(),
{
    if s.len() == 0 {
        0
    } else {
        tally_files(s.drop_last(), uid) + (if s.last().uid == uid {
            s.last().files as int
        } else {
            0
        })
    }
}

/// The bytes of all users.
pub open spec fn sizes_sum(s: Seq<Tally>) -> int
    decreases s.len(),
{
    if s.len() == 0 {
        0
    } else {
        sizes_sum(s.drop_last()) + s.last().size
    }
}

/// The files of all users.
pub open spec fn files_sum(s: Seq<Tally>) -> int
    decreases s.len(),
{
    if s.len() == 0 {
        0
    } else {
        files_sum(s.drop_last()) + s.last().files
    }
}

/// The users stand in the order of their numbers, each once, and nothing is
/// negative.
pub open spec fn tallies_ok(s: Seq<Tally>) -> bool {
    &&& forall|i: int, j: int|
        0 <= i < j < s.len() ==> (#[trigger] s[i]).uid < (#[trigger] s[j]).uid
    &&& forall|i: int| 0 <= i < s.len() ==> (#[trigger] s[i]).size >= 0 && s[i].files >= 0
}

/// Whether `uid` has a place in the list.
pub open spec fn has_uid(s: Seq<Tally>, uid: i64) -> bool {
    exists|i: int| 0 <= i < s.len() && (#[trigger] s[i]).uid == uid
}

/// Who has a place in one more of the entries.
pub proof fn lemma_one_more_uid(s: Seq<Tally>, j: int, uid: i64)
    requires
        0 <= j < s.len(),
    ensures
        has_uid(s.take(j + 1), uid) <==> has_uid(s.take(j), uid) || s[j].uid == uid,
{
    let now = s.take(j + 1);
    let before = s.take(j);
    if has_uid(now, uid) {
        let i = choose|i: int| 0 <= i < now.len() && (#[trigger] now[i]).uid == uid;
        if i < j {
            assert(before[i].uid == uid);
        }
    }
    if has_uid(before, uid) {
        let i = choose|i: int| 0 <= i < before.len() && (#[trigger] before[i]).uid == uid;
        assert(now[i].uid == uid);
    }
    if s[j].uid == uid {
        assert(now[j].uid == uid);
    }
}

proof fn lemma_tally_insert(s: Seq<Tally>, k: int, t: Tally)
    requires
        0 <= k <= s.len(),
    ensures
        sizes_sum(s.insert(k, t)) == sizes_sum(s) + t.size,
        files_sum(s.insert(k, t)) == files_sum(s) + t.files,
        forall|u: i64| #[trigger]
            tally_size(s.insert(k, t), u) == tally_size(s, u) + (if u == t.uid {
                t.size as int
            } else {
                0
            }),
        forall|u: i64| #[trigger]
            tally_files(s.insert(k, t), u) == tally_files(s, u) + (if u == t.uid {
                t.files as int
            } else {
                0
            }),
    decreases s.len(),
{
    let r = s.insert(k, t);
    if k == s.len() {
        assert(r.drop_last() =~= s);
    } else {
        let head = s.drop_last();
        lemma_tally_insert(head, k, t);
        assert(r.drop_last() =~= head.insert(k, t));
        assert(r.last() == s.last());
        assert forall|u: i64| #[trigger] tally_size(r, u) == tally_size(s, u) + (if u == t.uid {
            t.size as int
        } else {
            0
        }) by {
            assert(tally_size(head.insert(k, t), u) == tally_size(r.drop_last(), u));
        }
        assert forall|u: i64| #[trigger] tally_files(r, u) == tally_files(s, u) + (if u == t.uid {
            t.files as int
        } else {
            0
        }) by {
            assert(tally_files(head.insert(k, t), u) == tally_files(r.drop_last(), u));
        }
    }
}

proof fn lemma_tally_update(s: Seq<Tally>, k: int, t: Tally)
    requires
        0 <= k < s.len(),
        t.uid == s[k].uid,
    ensures
        sizes_sum(s.update(k, t)) == sizes_sum(s) - s[k].size + t.size,
        files_sum(s.update(k, t)) == files_sum(s) - s[k].files + t.files,
        forall|u: i64| #[trigger]
            tally_size(s.update(k, t), u) == tally_size(s, u) + (if u == t.uid {
                t.size - s[k].size
            } else {
                0
            }),
        forall|u: i64| #[trigger]
            tally_files(s.update(k, t), u) == tally_files(s, u) + (if u == t.uid {
                t.files - s[k].files
            } else {
                0
            }),
    decreases s.len(),
{
    let r = s.update(k, t);
    if k == s.len() - 1 {
        assert(r.drop_last() =~= s.drop_last());
    } else {
        let head = s.drop_last();
        lemma_tally_update(head, k, t);
        assert(r.drop_last() =~= head.update(k, t));
        assert(r.last() == s.last());
        assert forall|u: i64| #[trigger] tally_size(r, u) == tally_size(s, u) + (if u == t.uid {
            t.size - s[k].size
        } else {
            0
        }) by {
            assert(tally_size(head.update(k, t), u) == tally_size(r.drop_last(), u));
        }
        assert forall|u: i64| #[trigger] tally_files(r, u) == tally_files(s, u) + (if u == t.uid {
            t.files - s[k].files
        } else {
            0
        }) by {
            assert(tally_files(head.update(k, t), u) == tally_files(r.drop_last(), u));
        }
    }
}

/// What one user has is no more than what all have.
pub proof fn lemma_tally_bound(s: Seq<Tally>, k: int)
    requires
        tallies_ok(s),
        0 <= k < s.len(),
    ensures
        0 <= s[k].size <= sizes_sum(s),
        0 <= s[k].files <= files_sum(s),
    decreases s.len(),
{
    let t = s.drop_last();
    assert(tallies_ok(t));
    lemma_tally_nonneg(t);
    assert(s[s.len() - 1].size >= 0 && s[s.len() - 1].files >= 0);
    if k < t.len() {
        lemma_tally_bound(t, k);
        assert(t[k] == s[k]);
    }
}

pub proof fn lemma_tally_nonneg(s: Seq<Tally>)
    requires
        tallies_ok(s),
    ensures
        sizes_sum(s) >= 0,
        files_sum(s) >= 0,
    decreases s.len(),
{
    if s.len() > 0 {
        assert(tallies_ok(s.drop_last()));
        lemma_tally_nonneg(s.drop_last());
        assert(s[s.len() - 1].size >= 0 && s[s.len() - 1].files >= 0);
    }
}

/// What a part of a list holds is no more than what the list holds.
pub proof fn lemma_tally_prefix(s: Seq<Tally>, j: int)
    requires
        tallies_ok(s),
        0 <= j <= s.len(),
    ensures
        0 <= sizes_sum(s.take(j)) <= sizes_sum(s),
        0 <= files_sum(s.take(j)) <= files_sum(s),
    decreases s.len() - j,
{
    assert(tallies_ok(s.take(j)));
    lemma_tally_nonneg(s.take(j));
    if j < s.len() {
        lemma_tally_prefix(s, j + 1);
        assert(s.take(j + 1).drop_last() =~= s.take(j));
        assert(s[j].size >= 0 && s[j].files >= 0);
    } else {
        assert(s.take(j) =~= s);
    }
}

/// Adds to a list.
fn list_add(list: &mut Vec<Tally>, uid: i64, size: i64, files: i64)
    requires
        tallies_ok(old(list)@),
        size >= 0,
        files >= 0,
        sizes_sum(old(list)@) + size <= i64::MAX,
        files_sum(old(list)@) + files <= i64::MAX,
    ensures
        tallies_ok(final(list)@),
        sizes_sum(final(list)@) == sizes_sum(old(list)@) + size,
        files_sum(final(list)@) == files_sum(old(list)@) + files,
        forall|u: i64| #[trigger]
            tally_size(final(list)@, u) == tally_size(old(list)@, u) + (if u == uid {
                size as int
            } else {
                0
            }),
        forall|u: i64| #[trigger]
            tally_files(final(list)@, u) == tally_files(old(list)@, u) + (if u == uid {
                files as int
            } else {
                0
            }),
        forall|u: i64| #[trigger]
            has_uid(final(list)@, u) <==> has_uid(old(list)@, u) || u == uid,
{
    let ghost s = list@;
    let mut j: usize = 0;
    while j < list.len() && list[j].uid < uid
        invariant
            j <= list@.len(),
            list@ == s,
            tallies_ok(s),
            forall|i: int| 0 <= i < j ==> (#[trigger] s[i]).uid < uid,
        decreases list@.len() - j,
    {
        j = j + 1;
    }
    if j < list.len() && list[j].uid == uid {
        let t = list[j];
        proof {
            lemma_tally_bound(s, j as int);
        }
        let u = Tally { uid, size: t.size + size, files: t.files + files };
        list.set(j, u);
        proof {
            lemma_tally_update(s, j as int, u);
            assert forall|v: i64| #[trigger] has_uid(list@, v) <==> has_uid(s, v) || v == uid by {
                if has_uid(list@, v) {
                    let i = choose|i: int| 0 <= i < list@.len() && (#[trigger] list@[i]).uid == v;
                    assert(s[i].uid == v);
                }
                if has_uid(s, v) {
                    let i = choose|i: int| 0 <= i < s.len() && (#[trigger] s[i]).uid == v;
                    assert(list@[i].uid == v);
                }
                if v == uid {
                    assert(list@[j as int].uid == v);
                }
            }
        }
    } else {
        let u = Tally { uid, size, files };
        proof {
            lemma_tally_insert(s, j as int, u);
        }
        list.insert(j, u);
        proof {
            let r = list@;
            assert(r =~= s.insert(j as int, u));
            assert forall|a: int, b: int| 0 <= a < b < r.len() implies (#[trigger] r[a]).uid < (
            #[trigger] r[b]).uid by {
                let x = if a < j {
                    a
                } else {
                    a - 1
                };
                let y = if b < j {
                    b
                } else {
                    b - 1
                };
                if a == j {
                    assert(r[b] == s[y]);
                    if y > j {
                        assert(s[j as int].uid < s[y].uid);
                    }
                } else if b == j {
                    assert(r[a] == s[x]);
                } else {
                    assert(r[a] == s[x]);
                    assert(r[b] == s[y]);
                }
            }
            assert forall|a: int| 0 <= a < r.len() implies (#[trigger] r[a]).size >= 0 && r[a].files
                >= 0 by {
                if a < j {
                    assert(r[a] == s[a]);
                } else if a > j {
                    assert(r[a] == s[a - 1]);
                }
            }
            assert forall|v: i64| #[trigger] has_uid(list@, v) <==> has_uid(s, v) || v == uid by {
                if has_uid(r, v) {
                    let i = choose|i: int| 0 <= i < r.len() && (#[trigger] r[i]).uid == v;
                    if i < j {
                        assert(s[i].uid == v);
                    } else if i > j {
                        assert(s[i - 1].uid == v);
                    }
                }
                if has_uid(s, v) {
                    let i = choose|i: int| 0 <= i < s.len() && (#[trigger] s[i]).uid == v;
                    if i < j {
                        assert(r[i].uid == v);
                    } else {
                        assert(r[i + 1].uid == v);
                    }
                }
                if v == uid {
                    assert(r[j as int].uid == v);
                }
            }
        }
    }
}

/// What each user has in each directory of a tree.
pub struct DirTally {
    lists: Vec<Vec<Tally>>,
    size: i64,
    files: i64,
}

/// The bytes of all directories.
pub open spec fn all_sizes(v: Seq<Vec<Tally>>) -> int
    decreases v.len(),
{
    if v.len() == 0 {
        0
    } else {
        all_sizes(v.drop_last()) + sizes_sum(v.last()@)
    }
}

/// The files of all directories.
pub open spec fn all_files(v: Seq<Vec<Tally>>) -> int
    decreases v.len(),
{
    if v.len() == 0 {
        0
    } else {
        all_files(v.drop_last()) + files_sum(v.last()@)
    }
}

proof fn lemma_all_update(v: Seq<Vec<Tally>>, k: int, x: Vec<Tally>)
    requires
        0 <= k < v.len(),
    ensures
        all_sizes(v.update(k, x)) == all_sizes(v) - sizes_sum(v[k]@) + sizes_sum(x@),
        all_files(v.update(k, x)) == all_files(v) - files_sum(v[k]@) + files_sum(x@),
    decreases v.len(),
{
    let t = v.update(k, x);
    if k == v.len() - 1 {
        assert(t.drop_last() =~= v.drop_last());
    } else {
        lemma_all_update(v.drop_last(), k, x);
        assert(t.drop_last() =~= v.drop_last().update(k, x));
        assert(t.last() == v.last());
    }
}

/// What one directory holds is no more than what all hold.
pub proof fn lemma_all_bound(v: Seq<Vec<Tally>>, k: int)
    requires
        forall|i: int| 0 <= i < v.len() ==> tallies_ok((#[trigger] v[i])@),
        0 <= k < v.len(),
    ensures
        0 <= sizes_sum(v[k]@) <= all_sizes(v),
        0 <= files_sum(v[k]@) <= all_files(v),
    decreases v.len(),
{
    let t = v.drop_last();
    assert forall|i: int| 0 <= i < t.len() implies tallies_ok((#[trigger] t[i])@) by {
        assert(t[i] == v[i]);
    }
    lemma_tally_nonneg(v[v.len() - 1]@);
    lemma_tally_nonneg(v[k]@);
    lemma_all_nonneg(t);
    if k < t.len() {
        lemma_all_bound(t, k);
        assert(t[k] == v[k]);
    }
}

pub proof fn lemma_all_nonneg(v: Seq<Vec<Tally>>)
    requires
        forall|i: int| 0 <= i < v.len() ==> tallies_ok((#[trigger] v[i])@),
    ensures
        all_sizes(v) >= 0,
        all_files(v) >= 0,
    decreases v.len(),
{
    if v.len() > 0 {
        let t = v.drop_last();
        assert forall|i: int| 0 <= i < t.len() implies tallies_ok((#[trigger] t[i])@) by {
            assert(t[i] == v[i]);
        }
        lemma_all_nonneg(t);
        lemma_tally_nonneg(v[v.len() - 1]@);
    }
}

impl DirTally {
    /// Every list is in order, and the lists add up to the totals.
    pub closed spec fn wf(&self) -> bool {
        &&& forall|i: int| 0 <= i < self.lists@.len() ==> tallies_ok((#[trigger] self.lists@[i])@)
        &&& self.size == all_sizes(self.lists@)
        &&& self.files == all_files(self.lists@)
    }

    /// The lists of the directories.
    pub closed spec fn view(&self) -> Seq<Vec<Tally>> {
        self.lists@
    }

    /// The bytes of all users in all directories.
    pub closed spec fn size_sum(&self) -> int {
        self.size as int
    }

    /// The files of all users in all directories.
    pub closed spec fn file_sum(&self) -> int {
        self.files as int
    }

    /// The bytes of a user in a directory.
    pub open spec fn size_at(&self, dir: int, uid: i64) -> int {
        tally_size(self@[dir]@, uid)
    }

    /// The files of a user in a directory.
    pub open spec fn files_at(&self, dir: int, uid: i64) -> int {
        tally_files(self@[dir]@, uid)
    }

    pub proof fn lemma_wf(&self)
        requires
            self.wf(),
        ensures
            forall|i: int| 0 <= i < self@.len() ==> tallies_ok((#[trigger] self@[i])@),
            self.size_sum() == all_sizes(self@),
            self.file_sum() == all_files(self@),
            0 <= self.size_sum() <= i64::MAX,
            0 <= self.file_sum() <= i64::MAX,
            self@.len() <= usize::MAX,
    {
        lemma_all_nonneg(self.lists@);
        assert(self@.len() == self.lists.len());
    }

    /// Nothing in each of `n` directories.
    pub fn new(n: usize) -> (r: Self)
        ensures
            r.wf(),
            r@.len() == n,
            forall|i: int| 0 <= i < n ==> (#[trigger] r@[i])@ == Seq::<Tally>::empty(),
            r.size_sum() == 0,
            r.file_sum() == 0,
    {
        let mut lists: Vec<Vec<Tally>> = Vec::new();
        let mut i: usize = 0;
        while i < n
            invariant
                i <= n,
                lists@.len() == i,
                forall|k: int| 0 <= k < i ==> (#[trigger] lists@[k])@ == Seq::<Tally>::empty(),
                all_sizes(lists@) == 0,
                all_files(lists@) == 0,
            decreases n - i,
        {
            let ghost before = lists@;
            lists.push(Vec::new());
            proof {
                assert(lists@.drop_last() =~= before);
            }
            i = i + 1;
        }
        DirTally { lists, size: 0, files: 0 }
    }

    pub fn len(&self) -> (r: usize)
        ensures
            r == self@.len(),
    {
        self.lists.len()
    }

    /// What the users have in a directory, by number.
    pub fn list(&self, dir: usize) -> (r: &Vec<Tally>)
        requires
            dir < self@.len(),
        ensures
            *r == self@[dir as int],
    {
        &self.lists[dir]
    }

    pub fn total_size(&self) -> (r: i64)
        ensures
            r == self.size_sum(),
    {
        self.size
    }

    pub fn total_files(&self) -> (r: i64)
        ensures
            r == self.file_sum(),
    {
        self.files
    }

    /// Adds to what a user has in a directory.
    pub fn add(&mut self, dir: usize, uid: i64, size: i64, files: i64)
        requires
            old(self).wf(),
            dir < old(self)@.len(),
            size >= 0,
            files >= 0,
            old(self).size_sum() + size <= i64::MAX,
            old(self).file_sum() + files <= i64::MAX,
        ensures
            final(self).wf(),
            final(self)@.len() == old(self)@.len(),
            final(self).size_sum() == old(self).size_sum() + size,
            final(self).file_sum() == old(self).file_sum() + files,
            forall|d: int| 0 <= d < old(self)@.len() && d != dir ==> final(self)@[d] == old(self)@[d],
            forall|u: i64| #[trigger]
                final(self).size_at(dir as int, u) == old(self).size_at(dir as int, u) + (if u
                    == uid {
                    size as int
                } else {
                    0
                }),
            forall|u: i64| #[trigger]
                final(self).files_at(dir as int, u) == old(self).files_at(dir as int, u) + (if u
                    == uid {
                    files as int
                } else {
                    0
                }),
            forall|u: i64| #[trigger]
                has_uid(final(self)@[dir as int]@, u) <==> has_uid(old(self)@[dir as int]@, u) || u
                    == uid,
            sizes_sum(final(self)@[dir as int]@) == sizes_sum(old(self)@[dir as int]@) + size,
            files_sum(final(self)@[dir as int]@) == files_sum(old(self)@[dir as int]@) + files,
    {
        let ghost v = self.lists@;
        proof {
            lemma_all_bound(v, dir as int);
        }
        let mut list: Vec<Tally> = Vec::new();
        std::mem::swap(&mut list, &mut self.lists[dir]);
        list_add(&mut list, uid, size, files);
        let ghost list1 = list;
        std::mem::swap(&mut list, &mut self.lists[dir]);
        self.size = self.size + size;
        self.files = self.files + files;
        proof {
            assert(self.lists@ =~= v.update(dir as int, list1));
            lemma_all_update(v, dir as int, list1);
        }
    }
}

} // verus!
