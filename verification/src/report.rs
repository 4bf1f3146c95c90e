//! The detail report: who owns which directory, what each user has where, and
//! the rows that say so.

use crate::db::DetailDirModel;
use crate::db::DetailDirRow;
use crate::db::FILE_INSERT_CHUNK;
use crate::db::FileRow;
use crate::db::FileRowModel;
use crate::db::UserRow;
use crate::db::UserRowModel;
use crate::db;
use crate::events::DirOwnerEvent;
use crate::events::DirOwnerModel;
use crate::events;
use crate::ingest::DirSizes;
use crate::ingest;
use crate::path_tree::DirRowDraft;
use crate::path_tree::PathTree;
use crate::path_tree;
use crate::paths;
use crate::spill::CompactRow;
use crate::tally::DirTally;
use crate::tally::Tally;
use crate::tally;
use crate::text;
use crate::users::UserTable;
use crate::users;
use std::collections::HashMap;
use vstd::hash_map::StringHashMap;
use vstd::prelude::*;
use vstd::string::*;

verus! {

// ---------------------------------------------------------------------------
// Owners of directories
// ---------------------------------------------------------------------------

/// The owner that the last record for a path gives.
pub open spec fn last_owner(evs: Seq<DirOwnerModel>, path: Seq<char>) -> Option<u32>
    decreases evs.len(),
{
    if evs.len() == 0 {
        None
    } else if evs.last().path == path {
        Some(evs.last().uid)
    } else {
        last_owner(evs.drop_last(), path)
    }
}

/// The number of an owner, and -1 where it is not known.
pub open spec fn owner_number(
    owner: Option<u32>,
    t: UserTable,
    uids: Map<u32, Seq<char>>,
) -> i64 {
    match owner {
        Some(u) => users::number_of(t, uids, u),
        None => -1i64,
    }
}

/// The owners of directories of the tree, by name, as their records come.
pub open spec fn owner_names(
    evs: Seq<DirOwnerModel>,
    ids: Map<Seq<char>, usize>,
    uids: Map<u32, Seq<char>>,
) -> Seq<Seq<char>>
    decreases evs.len(),
{
    if evs.len() == 0 {
        Seq::empty()
    } else {
        let r = owner_names(evs.drop_last(), ids, uids);
        if ids.contains_key(evs.last().path) {
            r.push(events::user_name(evs.last().uid, uids))
        } else {
            r
        }
    }
}

pub proof fn lemma_owner_names_len(
    evs: Seq<DirOwnerModel>,
    ids: Map<Seq<char>, usize>,
    uids: Map<u32, Seq<char>>,
)
    ensures
        owner_names(evs, ids, uids).len() <= evs.len(),
    decreases evs.len(),
{
    if evs.len() > 0 {
        lemma_owner_names_len(evs.drop_last(), ids, uids);
    }
}

/// Gives every owner of a directory of the tree a number.
fn learn_owners(
    evs: &Vec<DirOwnerEvent>,
    ids: &StringHashMap<usize>,
    uids: &HashMap<u32, String>,
    users: &mut UserTable,
)
    requires
        old(users).wf(),
        old(users).next_number() + evs@.len() <= i64::MAX,
    ensures
        final(users).wf(),
        users::extends(*old(users), *final(users)),
        final(users).model() == users::learned_all(
            old(users).model(),
            owner_names(events::dir_owner_views(evs@), ids@, events::names_of(uids@)),
        ),
        final(users).next_number() <= old(users).next_number() + evs@.len(),
        forall|i: int|
            0 <= i < evs@.len() && ids@.contains_key((#[trigger] evs@[i]).path@) ==> users::knows(
                *final(users),
                events::names_of(uids@),
                evs@[i].uid,
            ),
{
    let ghost all = events::dir_owner_views(evs@);
    let ghost names = events::names_of(uids@);
    let mut i: usize = 0;
    assert(all.take(0) =~= Seq::<DirOwnerModel>::empty());
    while i < evs.len()
        invariant
            i <= evs@.len(),
            all == events::dir_owner_views(evs@),
            names == events::names_of(uids@),
            users.wf(),
            old(users).next_number() + evs@.len() <= i64::MAX,
            users.next_number() <= old(users).next_number() + i,
            users.model() == users::learned_all(
                old(users).model(),
                owner_names(all.take(i as int), ids@, names),
            ),
            forall|k: int|
                0 <= k < i && ids@.contains_key((#[trigger] evs@[k]).path@) ==> users::knows(
                    *users,
                    events::names_of(uids@),
                    evs@[k].uid,
                ),
        decreases evs@.len() - i,
    {
        let ghost before = owner_names(all.take(i as int), ids@, names);
        proof {
            assert(all.take(i + 1).drop_last() =~= all.take(i as int));
            assert(all.take(i + 1).last() == evs@[i as int]@);
        }
        if ids.contains_key(evs[i].path.as_str()) {
            users.learn(evs[i].uid, uids);
            proof {
                let name = events::user_name(evs@[i as int].uid, names);
                assert(before.push(name).drop_last() =~= before);
            }
        }
        i = i + 1;
    }
    proof {
        assert(all.take(i as int) =~= all);
        lemma_owner_names_len(all, ids@, names);
        users::lemma_learned_extends(old(users).model(), owner_names(all, ids@, names));
    }
}

proof fn lemma_last_owner(evs: Seq<DirOwnerModel>, path: Seq<char>) -> (k: int)
    requires
        last_owner(evs, path) is Some,
    ensures
        0 <= k < evs.len(),
        evs[k].path == path,
        last_owner(evs, path) == Some(evs[k].uid),
    decreases evs.len(),
{
    if evs.last().path == path {
        evs.len() - 1
    } else {
        lemma_last_owner(evs.drop_last(), path)
    }
}

/// The owner of each directory of the tree, by number: the one that the last
/// record for it gives, and -1 where there is none.
pub fn dir_owner_uids(
    evs: &Vec<DirOwnerEvent>,
    tree: &PathTree,
    uids: &HashMap<u32, String>,
    users: &mut UserTable,
) -> (r: Vec<i64>)
    requires
        tree.wf(),
        old(users).wf(),
        old(users).next_number() + evs@.len() <= i64::MAX,
    ensures
        final(users).wf(),
        users::extends(*old(users), *final(users)),
        final(users).model() == users::learned_all(
            old(users).model(),
            owner_names(events::dir_owner_views(evs@), tree.dir_id_of@, events::names_of(uids@)),
        ),
        final(users).next_number() <= old(users).next_number() + evs@.len(),
        r@.len() == tree.paths@.len(),
        forall|d: int|
            0 <= d < r@.len() ==> #[trigger] r@[d] == owner_number(
                last_owner(events::dir_owner_views(evs@), tree.paths@[d]),
                *final(users),
                events::names_of(uids@),
            ),
        forall|d: int|
            0 <= d < r@.len() && (#[trigger] last_owner(
                events::dir_owner_views(evs@),
                tree.paths@[d],
            )) is Some ==> users::knows(
                *final(users),
                events::names_of(uids@),
                last_owner(events::dir_owner_views(evs@), tree.paths@[d])->0,
            ),
{
    learn_owners(evs, &tree.dir_id_of, uids, users);
    let n: usize = tree.dirs_in_order.len();
    let mut out: Vec<i64> = Vec::new();
    while out.len() < n
        invariant
            out@.len() <= n,
            forall|d: int| 0 <= d < out@.len() ==> #[trigger] out@[d] == -1,
        decreases n - out@.len(),
    {
        out.push(-1);
    }
    let ghost all = events::dir_owner_views(evs@);
    let ghost ps = tree.paths@;
    let ghost names = events::names_of(uids@);
    let mut i: usize = 0;
    proof {
        assert(all.take(0) =~= Seq::<DirOwnerModel>::empty());
    }
    while i < evs.len()
        invariant
            i <= evs@.len(),
            all == events::dir_owner_views(evs@),
            ps == tree.paths@,
            names == events::names_of(uids@),
            tree.wf(),
            ps.no_duplicates(),
            out@.len() == ps.len(),
            forall|k: int|
                0 <= k < evs@.len() && tree.dir_id_of@.contains_key((#[trigger] evs@[k]).path@)
                    ==> users::knows(*users, names, evs@[k].uid),
            forall|d: int|
                0 <= d < out@.len() ==> #[trigger] out@[d] == owner_number(
                    last_owner(all.take(i as int), ps[d]),
                    *users,
                    names,
                ),
        decreases evs@.len() - i,
    {
        let e = &evs[i];
        proof {
            assert(all.take(i + 1).drop_last() =~= all.take(i as int));
            assert(all.take(i + 1).last() == e@);
        }
        match tree.dir_id_of.get(e.path.as_str()) {
            Some(id) => {
                let k: usize = *id;
                let v: i64 = users.number_of_uid(e.uid, uids);
                let ghost before = out@;
                out.set(k, v);
                proof {
                    assert(ps[k as int] == e.path@);
                    assert forall|d: int| 0 <= d < out@.len() implies #[trigger] out@[d]
                        == owner_number(last_owner(all.take(i + 1), ps[d]), *users, names) by {
                        assert(before[d] == owner_number(
                            last_owner(all.take(i as int), ps[d]),
                            *users,
                            names,
                        ));
                        if d != k {
                            assert(ps[d] != ps[k as int]);
                        }
                    }
                }
            },
            None => {
                proof {
                    assert forall|d: int| 0 <= d < out@.len() implies #[trigger] out@[d]
                        == owner_number(last_owner(all.take(i + 1), ps[d]), *users, names) by {
                        assert(ps.contains(ps[d]));
                        assert(tree.dir_id_of@.contains_key(ps[d]));
                    }
                }
            },
        }
        i = i + 1;
    }
    proof {
        assert(all.take(i as int) =~= all);
        assert forall|d: int| 0 <= d < out@.len() && (#[trigger] last_owner(all, ps[d])) is Some
            implies users::knows(*users, names, last_owner(all, ps[d])->0) by {
            let k = lemma_last_owner(all, ps[d]);
            assert(ps.contains(ps[d]));
            assert(tree.dir_id_of@.contains_key(evs@[k].path@));
        }
    }
    out
}

// ---------------------------------------------------------------------------
// Sizes by owner
// ---------------------------------------------------------------------------

/// What a list of sizes by uid holds for the user with number `uid`.
pub open spec fn weight_of(
    list: Seq<(u32, i64)>,
    t: UserTable,
    uids: Map<u32, Seq<char>>,
    uid: i64,
) -> int
    decreases list.len(),
{
    if list.len() == 0 {
        0
    } else {
        weight_of(list.drop_last(), t, uids, uid) + (if list.last().1 > 0 && users::number_of(
            t,
            uids,
            list.last().0,
        ) == uid {
            list.last().1 as int
        } else {
            0
        })
    }
}

/// How many uids of the user with number `uid` have something in a list.
pub open spec fn entries_of(
    list: Seq<(u32, i64)>,
    t: UserTable,
    uids: Map<u32, Seq<char>>,
    uid: i64,
) -> int
    decreases list.len(),
{
    if list.len() == 0 {
        0
    } else {
        entries_of(list.drop_last(), t, uids, uid) + (if list.last().1 > 0 && users::number_of(
            t,
            uids,
            list.last().0,
        ) == uid {
            1int
        } else {
            0
        })
    }
}

/// The same over the first `n` directories of a list, those that the tree
/// knows.
pub open spec fn dir_entries(
    sizes: DirSizes,
    ids: Map<Seq<char>, usize>,
    t: UserTable,
    uids: Map<u32, Seq<char>>,
    uid: i64,
    n: int,
) -> int
    decreases n,
{
    if n <= 0 {
        0
    } else {
        dir_entries(sizes, ids, t, uids, uid, n - 1) + (if ids.contains_key(
            sizes.dir_names()[n - 1],
        ) {
            entries_of(sizes.lists()[n - 1]@, t, uids, uid)
        } else {
            0
        })
    }
}

/// What the user with number `uid` takes directly in the directory at `path`.
pub open spec fn weight_at(
    sizes: DirSizes,
    path: Seq<char>,
    t: UserTable,
    uids: Map<u32, Seq<char>>,
    uid: i64,
) -> int {
    if sizes.dir_names().contains(path) {
        weight_of(sizes.lists()[sizes.dir_names().index_of(path)]@, t, uids, uid)
    } else {
        0
    }
}

/// How many sizes there are.
pub open spec fn entry_count(sizes: DirSizes, n: int) -> int
    decreases n,
{
    if n <= 0 {
        0
    } else {
        entry_count(sizes, n - 1) + sizes.lists()[n - 1]@.len()
    }
}

pub proof fn lemma_entry_count(sizes: DirSizes, a: int, b: int)
    requires
        0 <= a <= b,
    ensures
        0 <= entry_count(sizes, a) <= entry_count(sizes, b),
    decreases b,
{
    if a < b {
        lemma_entry_count(sizes, a, b - 1);
    } else if b > 0 {
        lemma_entry_count(sizes, a - 1, b - 1);
    }
}

/// Every user with something in a directory of the tree has a number.
pub open spec fn sizes_known(
    sizes: DirSizes,
    ids: Map<Seq<char>, usize>,
    t: UserTable,
    uids: Map<u32, Seq<char>>,
    n: int,
) -> bool {
    forall|k: int, j: int|
        0 <= k < n && ids.contains_key(sizes.dir_names()[k]) && 0 <= j < sizes.lists()[k]@.len()
            && (#[trigger] sizes.lists()[k]@[j]).1 > 0 ==> users::knows(
            t,
            uids,
            sizes.lists()[k]@[j].0,
        )
}

/// The users with something in a list of sizes, by name.
pub open spec fn list_names(list: Seq<(u32, i64)>, uids: Map<u32, Seq<char>>) -> Seq<Seq<char>>
    decreases list.len(),
{
    if list.len() == 0 {
        Seq::empty()
    } else {
        let r = list_names(list.drop_last(), uids);
        if list.last().1 > 0 {
            r.push(events::user_name(list.last().0, uids))
        } else {
            r
        }
    }
}

/// The users with something in the first `n` directories, those that the tree
/// knows, by name.
pub open spec fn size_names(
    sizes: DirSizes,
    ids: Map<Seq<char>, usize>,
    uids: Map<u32, Seq<char>>,
    n: int,
) -> Seq<Seq<char>>
    decreases n,
{
    if n <= 0 {
        Seq::empty()
    } else {
        let r = size_names(sizes, ids, uids, n - 1);
        if ids.contains_key(sizes.dir_names()[n - 1]) {
            r + list_names(sizes.lists()[n - 1]@, uids)
        } else {
            r
        }
    }
}

proof fn lemma_list_names_len(list: Seq<(u32, i64)>, uids: Map<u32, Seq<char>>)
    ensures
        list_names(list, uids).len() <= list.len(),
    decreases list.len(),
{
    if list.len() > 0 {
        lemma_list_names_len(list.drop_last(), uids);
    }
}

pub proof fn lemma_size_names_len(
    sizes: DirSizes,
    ids: Map<Seq<char>, usize>,
    uids: Map<u32, Seq<char>>,
    n: int,
)
    ensures
        size_names(sizes, ids, uids, n).len() <= entry_count(sizes, n),
    decreases n,
{
    if n > 0 {
        lemma_size_names_len(sizes, ids, uids, n - 1);
        lemma_list_names_len(sizes.lists()[n - 1]@, uids);
    }
}

/// Gives every user with something in a directory of the tree a number.
fn learn_sizes(
    sizes: &DirSizes,
    ids: &StringHashMap<usize>,
    uids: &HashMap<u32, String>,
    users: &mut UserTable,
)
    requires
        sizes.wf(),
        old(users).wf(),
        old(users).next_number() + entry_count(*sizes, sizes.dir_names().len() as int) <= i64::MAX,
    ensures
        final(users).wf(),
        users::extends(*old(users), *final(users)),
        final(users).model() == users::learned_all(
            old(users).model(),
            size_names(
                *sizes,
                ids@,
                events::names_of(uids@),
                sizes.dir_names().len() as int,
            ),
        ),
        final(users).next_number() <= old(users).next_number() + entry_count(
            *sizes,
            sizes.dir_names().len() as int,
        ),
        sizes_known(
            *sizes,
            ids@,
            *final(users),
            events::names_of(uids@),
            sizes.dir_names().len() as int,
        ),
{
    let ghost m = sizes.dir_names().len() as int;
    let ghost names = events::names_of(uids@);
    let mut k: usize = 0;
    proof {
        sizes.lemma_wf();
    }
    while k < sizes.len()
        invariant
            k <= m,
            m == sizes.dir_names().len(),
            m == sizes.lists().len(),
            names == events::names_of(uids@),
            users.wf(),
            old(users).next_number() + entry_count(*sizes, m) <= i64::MAX,
            users.next_number() <= old(users).next_number() + entry_count(*sizes, k as int),
            users.model() == users::learned_all(
                old(users).model(),
                size_names(*sizes, ids@, names, k as int),
            ),
            sizes_known(*sizes, ids@, *users, names, k as int),
        decreases m - k,
    {
        proof {
            lemma_entry_count(*sizes, k + 1, m);
        }
        if ids.contains_key(sizes.dir(k).as_str()) {
            let list = sizes.list(k);
            let ghost had = size_names(*sizes, ids@, names, k as int);
            let mut j: usize = 0;
            assert(had + list_names(list@.take(0), names) =~= had);
            while j < list.len()
                invariant
                    had == size_names(*sizes, ids@, names, k as int),
                    k < m,
                    m == sizes.dir_names().len(),
                    m == sizes.lists().len(),
                    *list == sizes.lists()[k as int],
                    j <= list@.len(),
                    names == events::names_of(uids@),
                    users.wf(),
                    old(users).next_number() + entry_count(*sizes, k + 1) <= i64::MAX,
                    users.next_number() <= old(users).next_number() + entry_count(*sizes, k as int)
                        + j,
                    users.model() == users::learned_all(
                        old(users).model(),
                        size_names(*sizes, ids@, names, k as int) + list_names(
                            list@.take(j as int),
                            names,
                        ),
                    ),
                    sizes_known(*sizes, ids@, *users, names, k as int),
                    forall|x: int|
                        0 <= x < j && (#[trigger] list@[x]).1 > 0 ==> users::knows(
                            *users,
                            names,
                            list@[x].0,
                        ),
                decreases list@.len() - j,
            {
                let ghost mine = list_names(list@.take(j as int), names);
                proof {
                    assert(list@.take(j + 1).drop_last() =~= list@.take(j as int));
                    assert(list@.take(j + 1).last() == list@[j as int]);
                }
                if list[j].1 > 0 {
                    users.learn(list[j].0, uids);
                    proof {
                        let name = events::user_name(list@[j as int].0, names);
                        assert((had + mine.push(name)).drop_last() =~= had + mine);
                    }
                }
                j = j + 1;
            }
            assert(list@.take(j as int) =~= list@);
        }
        k = k + 1;
    }
    proof {
        lemma_size_names_len(*sizes, ids@, names, m);
        users::lemma_learned_extends(
            old(users).model(),
            size_names(*sizes, ids@, names, m),
        );
    }
}

/// What the users take directly in each directory of the tree, and how many
/// directories each user has something in.
pub struct OwnerWeights {
    /// The bytes by directory and user.
    pub weights: DirTally,
    /// The number of directories by user.
    pub dir_counts: DirTally,
}

/// What the users take directly in each directory of the tree.
pub fn owner_weights(
    sizes: &DirSizes,
    tree: &PathTree,
    uids: &HashMap<u32, String>,
    users: &mut UserTable,
) -> (r: OwnerWeights)
    requires
        tree.wf(),
        sizes.wf(),
        old(users).wf(),
        old(users).next_number() + entry_count(*sizes, sizes.dir_names().len() as int) <= i64::MAX,
    ensures
        final(users).wf(),
        users::extends(*old(users), *final(users)),
        final(users).model() == users::learned_all(
            old(users).model(),
            size_names(
                *sizes,
                tree.dir_id_of@,
                events::names_of(uids@),
                sizes.dir_names().len() as int,
            ),
        ),
        final(users).next_number() <= old(users).next_number() + entry_count(
            *sizes,
            sizes.dir_names().len() as int,
        ),
        r.weights.wf(),
        r.weights@.len() == tree.paths@.len(),
        r.weights.size_sum() <= sizes.sum(),
        forall|d: int, u: i64|
            0 <= d < tree.paths@.len() ==> #[trigger] r.weights.size_at(d, u) == weight_at(
                *sizes,
                tree.paths@[d],
                *final(users),
                events::names_of(uids@),
                u,
            ),
        forall|d: int, u: i64|
            0 <= d < tree.paths@.len() ==> (#[trigger] tally::has_uid(r.weights@[d]@, u)
                <==> weight_at(*sizes, tree.paths@[d], *final(users), events::names_of(uids@), u)
                > 0),
        r.dir_counts.wf(),
        r.dir_counts@.len() == 1,
        forall|u: i64| #[trigger]
            r.dir_counts.files_at(0, u) == dir_entries(
                *sizes,
                tree.dir_id_of@,
                *final(users),
                events::names_of(uids@),
                u,
                sizes.dir_names().len() as int,
            ),
{
    learn_sizes(sizes, &tree.dir_id_of, uids, users);
    let n: usize = tree.dirs_in_order.len();
    let ghost names = events::names_of(uids@);
    let ghost ids = tree.dir_id_of@;
    let ghost dn = sizes.dir_names();
    let ghost m = dn.len() as int;
    let ghost ps = tree.paths@;
    let mut weights = DirTally::new(n);
    proof {
        assert forall|d: int, u: i64| 0 <= d < n implies #[trigger] weights.size_at(d, u) == 0
            && !tally::has_uid(weights@[d]@, u) by {
            assert(weights@[d]@ == Seq::<Tally>::empty());
        }
    }
    let mut counts = DirTally::new(1);
    let mut k: usize = 0;
    proof {
        sizes.lemma_wf();
        ingest::lemma_lists_nonneg(sizes.lists().take(0));
        assert(sizes.lists().take(0) =~= Seq::<Vec<(u32, i64)>>::empty());
        assert(ingest::lists_sum(sizes.lists().take(0)) == 0);
    }
    while k < sizes.len()
        invariant
            k <= m,
            m == dn.len(),
            dn == sizes.dir_names(),
            dn.no_duplicates(),
            sizes.lists().len() == m,
            sizes.wf(),
            sizes.sum() == ingest::lists_sum(sizes.lists()),
            sizes.sum() <= i64::MAX,
            forall|x: int| 0 <= x < m ==> ingest::list_ok((#[trigger] sizes.lists()[x])@),
            ids == tree.dir_id_of@,
            ps == tree.paths@,
            ps.no_duplicates(),
            n == ps.len(),
            path_tree::ids_fit(ps, ids),
            names == events::names_of(uids@),
            sizes_known(*sizes, ids, *users, names, m),
            users.next_number() <= i64::MAX,
            entry_count(*sizes, m) <= i64::MAX,
            weights.wf(),
            weights@.len() == n,
            forall|d: int, u: i64|
                0 <= d < n ==> #[trigger] weights.size_at(d, u) >= 0,
            forall|d: int, u: i64|
                0 <= d < n ==> (#[trigger] tally::has_uid(weights@[d]@, u) <==> weights.size_at(
                    d,
                    u,
                ) > 0),
            weights.size_sum() <= ingest::lists_sum(sizes.lists().take(k as int)),
            weights.file_sum() == 0,
            counts.wf(),
            counts@.len() == 1,
            counts.size_sum() == 0,
            counts.file_sum() <= entry_count(*sizes, k as int),
            forall|d: int, u: i64|
                0 <= d < n ==> #[trigger] weights.size_at(d, u) == (if dn.take(k as int).contains(
                    ps[d],
                ) {
                    weight_at(*sizes, ps[d], *users, names, u)
                } else {
                    0
                }),
            forall|u: i64| #[trigger]
                counts.files_at(0, u) == dir_entries(*sizes, ids, *users, names, u, k as int),
        decreases m - k,
    {
        let dir = sizes.dir(k);
        let list = sizes.list(k);
        let ghost l = list@;
        proof {
            lemma_entry_count(*sizes, k as int, m);
            lemma_entry_count(*sizes, k + 1, m);
            assert(sizes.lists().take(k + 1).drop_last() =~= sizes.lists().take(k as int));
            ingest::lemma_lists_prefix_sum(sizes.lists(), k + 1);
            ingest::lemma_list_nonneg(l);
            assert(dn.take(k + 1) =~= dn.take(k as int).push(dir@));
        }
        match tree.dir_id_of.get(dir.as_str()) {
            Some(id) => {
                let d0: usize = *id;
                let ghost w0 = weights;
                let ghost c0 = counts;
                proof {
                    assert(ps[d0 as int] == dir@);
                    assert(l.take(0) =~= Seq::<(u32, i64)>::empty());
                    assert(!dn.take(k as int).contains(dir@)) by {
                        if dn.take(k as int).contains(dir@) {
                            let q = choose|q: int| 0 <= q < k && dn.take(k as int)[q] == dir@;
                            assert(dn[q] == dn[k as int]);
                        }
                    }
                }
                let mut j: usize = 0;
                while j < list.len()
                    invariant
                        j <= l.len(),
                        l == list@,
                        ingest::list_ok(l),
                        l == sizes.lists()[k as int]@,
                        0 <= k < m,
                        m == dn.len(),
                        dn == sizes.dir_names(),
                        dn[k as int] == dir@,
                        ids.contains_key(dir@),
                        names == events::names_of(uids@),
                        sizes_known(*sizes, ids, *users, names, m),
                        d0 < n,
                        weights.wf(),
                        weights@.len() == n,
                        forall|d: int, u: i64|
                            0 <= d < n ==> #[trigger] weights.size_at(d, u) >= 0,
                        forall|d: int, u: i64|
                            0 <= d < n ==> (#[trigger] tally::has_uid(weights@[d]@, u)
                                <==> weights.size_at(d, u) > 0),
                        w0.size_sum() + ingest::list_sum(l) <= i64::MAX,
                        weights.size_sum() <= w0.size_sum() + ingest::list_sum(l.take(j as int)),
                        weights.file_sum() == 0,
                        counts.wf(),
                        counts@.len() == 1,
                        counts.size_sum() == 0,
                        c0.file_sum() + l.len() <= i64::MAX,
                        counts.file_sum() <= c0.file_sum() + j,
                        forall|d: int| 0 <= d < n && d != d0 ==> weights@[d] == w0@[d],
                        forall|u: i64| #[trigger]
                            weights.size_at(d0 as int, u) == w0.size_at(d0 as int, u) + weight_of(
                                l.take(j as int),
                                *users,
                                names,
                                u,
                            ),
                        forall|u: i64| #[trigger]
                            counts.files_at(0, u) == c0.files_at(0, u) + entries_of(
                                l.take(j as int),
                                *users,
                                names,
                                u,
                            ),
                    decreases l.len() - j,
                {
                    let raw: u32 = list[j].0;
                    let size: i64 = list[j].1;
                    let ghost lj = l.take(j + 1);
                    proof {
                        assert(lj.drop_last() =~= l.take(j as int));
                        assert(lj.last() == l[j as int]);
                        ingest::lemma_list_prefix_sum(l, j + 1);
                        ingest::lemma_list_prefix_sum(l, j as int);
                    }
                    if size > 0 {
                        proof {
                            assert(sizes.lists()[k as int]@[j as int].1 > 0);
                        }
                        let uid: i64 = users.number_of_uid(raw, uids);
                        let ghost was = weights;
                        weights.add(d0, uid, size, 0);
                        proof {
                            assert forall|d: int, u: i64| 0 <= d < n implies #[trigger] weights.size_at(
                                d,
                                u,
                            ) >= 0 && (tally::has_uid(weights@[d]@, u) <==> weights.size_at(d, u)
                                > 0) by {
                                assert(was.size_at(d, u) >= 0);
                                assert(tally::has_uid(was@[d]@, u) <==> was.size_at(d, u) > 0);
                                if d != d0 {
                                    assert(weights@[d] == was@[d]);
                                }
                            }
                        }
                        counts.add(0, uid, 0, 1);
                    }
                    proof {
                        assert forall|u: i64| #[trigger] weights.size_at(d0 as int, u)
                            == w0.size_at(d0 as int, u) + weight_of(lj, *users, names, u) by {}
                        assert forall|u: i64| #[trigger] counts.files_at(0, u) == c0.files_at(0, u)
                            + entries_of(lj, *users, names, u) by {}
                    }
                    j = j + 1;
                }
                proof {
                    assert(l.take(j as int) =~= l);
                    assert forall|d: int, u: i64| 0 <= d < n implies #[trigger] weights.size_at(d, u)
                        == (if dn.take(k + 1).contains(ps[d]) {
                        weight_at(*sizes, ps[d], *users, names, u)
                    } else {
                        0
                    }) by {
                        ingest::lemma_push_contains(dn.take(k as int), dir@, ps[d]);
                        assert(w0.size_at(d, u) == (if dn.take(k as int).contains(ps[d]) {
                            weight_at(*sizes, ps[d], *users, names, u)
                        } else {
                            0
                        }));
                        if d == d0 {
                            assert(dn.contains(dir@)) by {
                                assert(dn[k as int] == dir@);
                            }
                            let p = dn.index_of(dir@);
                            assert(dn[p] == dir@);
                            assert(p == k);
                        } else {
                            assert(ps[d] != ps[d0 as int]);
                        }
                    }
                    assert forall|u: i64| #[trigger] counts.files_at(0, u) == dir_entries(
                        *sizes,
                        ids,
                        *users,
                        names,
                        u,
                        k + 1,
                    ) by {
                        assert(c0.files_at(0, u) == dir_entries(
                            *sizes,
                            ids,
                            *users,
                            names,
                            u,
                            k as int,
                        ));
                    }
                }
            },
            None => {
                proof {
                    assert forall|d: int, u: i64| 0 <= d < n implies #[trigger] weights.size_at(d, u)
                        == (if dn.take(k + 1).contains(ps[d]) {
                        weight_at(*sizes, ps[d], *users, names, u)
                    } else {
                        0
                    }) by {
                        ingest::lemma_push_contains(dn.take(k as int), dir@, ps[d]);
                        assert(ps.contains(ps[d]));
                        assert(ids.contains_key(ps[d]));
                    }
                }
            },
        }
        k = k + 1;
    }
    proof {
        assert(dn.take(k as int) =~= dn);
        assert(sizes.lists().take(k as int) =~= sizes.lists());
    }
    OwnerWeights { weights, dir_counts: counts }
}

// ---------------------------------------------------------------------------
// Files
// ---------------------------------------------------------------------------

/// The row of a user's file.
pub open spec fn file_row_of(c: CompactRow, uid: i64, exts: Seq<Seq<char>>) -> FileRowModel {
    FileRowModel {
        dir_id: c.dir_id as int,
        name_id: c.name_id as int,
        ext: if c.ext_id < exts.len() {
            exts[c.ext_id as int]
        } else {
            Seq::empty()
        },
        uid,
        size: c.size as int,
    }
}

/// What the files add up to while they are written: by directory and user, and
/// by user.
pub struct FileTotals {
    /// By directory and user.
    pub by_dir: DirTally,
    /// By user.
    pub by_user: DirTally,
}

/// The bytes of a user's rows in a directory.
pub open spec fn rows_size(rows: Seq<CompactRow>, dir: int) -> int
    decreases rows.len(),
{
    if rows.len() == 0 {
        0
    } else {
        rows_size(rows.drop_last(), dir) + (if rows.last().dir_id == dir {
            rows.last().size as int
        } else {
            0
        })
    }
}

/// The number of a user's rows in a directory.
pub open spec fn rows_count(rows: Seq<CompactRow>, dir: int) -> int
    decreases rows.len(),
{
    if rows.len() == 0 {
        0
    } else {
        rows_count(rows.drop_last(), dir) + (if rows.last().dir_id == dir {
            1int
        } else {
            0
        })
    }
}

/// The bytes of rows.
pub open spec fn rows_total(rows: Seq<CompactRow>) -> int
    decreases rows.len(),
{
    if rows.len() == 0 {
        0
    } else {
        rows_total(rows.drop_last()) + rows.last().size
    }
}

proof fn lemma_rows_total(rows: Seq<CompactRow>, i: int)
    requires
        0 <= i <= rows.len(),
    ensures
        0 <= rows_total(rows.take(i)) <= rows_total(rows),
    decreases rows.len() - i,
{
    if i < rows.len() {
        lemma_rows_total(rows, i + 1);
        assert(rows.take(i + 1).drop_last() =~= rows.take(i));
    } else {
        assert(rows.take(i) =~= rows);
    }
    if i > 0 {
        lemma_rows_nonneg(rows.take(i));
    }
}

pub proof fn lemma_rows_count_nonneg(rows: Seq<CompactRow>, dir: int)
    ensures
        rows_count(rows, dir) >= 0,
    decreases rows.len(),
{
    if rows.len() > 0 {
        lemma_rows_count_nonneg(rows.drop_last(), dir);
    }
}

proof fn lemma_rows_nonneg(rows: Seq<CompactRow>)
    ensures
        rows_total(rows) >= 0,
    decreases rows.len(),
{
    if rows.len() > 0 {
        lemma_rows_nonneg(rows.drop_last());
    }
}

impl FileTotals {
    pub open spec fn wf(&self) -> bool {
        &&& self.by_dir.wf()
        &&& self.by_user.wf()
        &&& self.by_user@.len() == 1
        &&& self.by_user.size_sum() == self.by_dir.size_sum()
        &&& self.by_user.file_sum() == self.by_dir.file_sum()
    }

    /// No files in each of `n` directories.
    pub fn new(n: usize) -> (r: Self)
        ensures
            r.wf(),
            r.by_dir@.len() == n,
            r.by_dir.size_sum() == 0,
            r.by_dir.file_sum() == 0,
            forall|d: int| 0 <= d < n ==> (#[trigger] r.by_dir@[d])@ == Seq::<Tally>::empty(),
            r.by_user@[0]@ == Seq::<Tally>::empty(),
    {
        FileTotals { by_dir: DirTally::new(n), by_user: DirTally::new(1) }
    }

    /// Adds a user, so that it has a row even without files.
    pub fn add_user(&mut self, uid: i64)
        requires
            old(self).wf(),
        ensures
            final(self).wf(),
            final(self).by_dir == old(self).by_dir,
            final(self).by_user.size_sum() == old(self).by_user.size_sum(),
            final(self).by_user.file_sum() == old(self).by_user.file_sum(),
            forall|u: i64| #[trigger]
                tally::has_uid(final(self).by_user@[0]@, u) <==> tally::has_uid(old(self).by_user@[0]@, u) || u
                    == uid,
            forall|u: i64| #[trigger]
                final(self).by_user.size_at(0, u) == old(self).by_user.size_at(0, u),
            forall|u: i64| #[trigger]
                final(self).by_user.files_at(0, u) == old(self).by_user.files_at(0, u),
    {
        proof {
            self.by_user.lemma_wf();
        }
        self.by_user.add(0, uid, 0, 0);
    }

    /// Counts the rows of one of a user's files and gives the rows of the
    /// report.
    pub fn add_rows(
        &mut self,
        uid: i64,
        rows: &Vec<CompactRow>,
        exts: &Vec<String>,
    ) -> (r: Vec<FileRow>)
        requires
            old(self).wf(),
            forall|i: int|
                0 <= i < rows@.len() ==> (#[trigger] rows@[i]).dir_id < old(self).by_dir@.len(),
            old(self).by_dir.size_sum() + rows_total(rows@) <= i64::MAX,
            old(self).by_dir.file_sum() + rows@.len() <= i64::MAX,
        ensures
            final(self).wf(),
            final(self).by_dir@.len() == old(self).by_dir@.len(),
            final(self).by_dir.size_sum() == old(self).by_dir.size_sum() + rows_total(rows@),
            final(self).by_dir.file_sum() == old(self).by_dir.file_sum() + rows@.len(),
            forall|d: int, u: i64|
                0 <= d < old(self).by_dir@.len() ==> #[trigger] final(self).by_dir.size_at(d, u)
                    == old(self).by_dir.size_at(d, u) + (if u == uid {
                    rows_size(rows@, d)
                } else {
                    0
                }),
            forall|d: int, u: i64|
                0 <= d < old(self).by_dir@.len() ==> #[trigger] final(self).by_dir.files_at(d, u)
                    == old(self).by_dir.files_at(d, u) + (if u == uid {
                    rows_count(rows@, d)
                } else {
                    0
                }),
            forall|u: i64| #[trigger]
                final(self).by_user.size_at(0, u) == old(self).by_user.size_at(0, u) + (if u
                    == uid {
                    rows_total(rows@)
                } else {
                    0
                }),
            forall|u: i64| #[trigger]
                final(self).by_user.files_at(0, u) == old(self).by_user.files_at(0, u) + (if u
                    == uid {
                    rows@.len() as int
                } else {
                    0
                }),
            forall|u: i64| #[trigger]
                tally::has_uid(final(self).by_user@[0]@, u) <==> tally::has_uid(old(self).by_user@[0]@, u) || (u
                    == uid && rows@.len() > 0),
            forall|d: int, u: i64|
                0 <= d < old(self).by_dir@.len() ==> (#[trigger] tally::has_uid(
                    final(self).by_dir@[d]@,
                    u,
                ) <==> tally::has_uid(old(self).by_dir@[d]@, u) || (u == uid && rows_count(rows@, d)
                    > 0)),
            r@.len() == rows@.len(),
            forall|i: int|
                0 <= i < r@.len() ==> (#[trigger] r@[i])@ == file_row_of(
                    rows@[i],
                    uid,
                    text::strs(exts@),
                ),
    {
        let mut out: Vec<FileRow> = Vec::new();
        let ghost n = self.by_dir@.len();
        let mut i: usize = 0;
        proof {
            assert(rows@.take(0) =~= Seq::<CompactRow>::empty());
        }
        while i < rows.len()
            invariant
                i <= rows@.len(),
                n == self.by_dir@.len(),
                n == old(self).by_dir@.len(),
                self.wf(),
                forall|k: int| 0 <= k < rows@.len() ==> (#[trigger] rows@[k]).dir_id < n,
                old(self).by_dir.size_sum() + rows_total(rows@) <= i64::MAX,
                old(self).by_dir.file_sum() + rows@.len() <= i64::MAX,
                self.by_dir.size_sum() == old(self).by_dir.size_sum() + rows_total(
                    rows@.take(i as int),
                ),
                self.by_dir.file_sum() == old(self).by_dir.file_sum() + i,
                forall|d: int, u: i64|
                    0 <= d < n ==> #[trigger] self.by_dir.size_at(d, u) == old(
                        self,
                    ).by_dir.size_at(d, u) + (if u == uid {
                        rows_size(rows@.take(i as int), d)
                    } else {
                        0
                    }),
                forall|d: int, u: i64|
                    0 <= d < n ==> #[trigger] self.by_dir.files_at(d, u) == old(
                        self,
                    ).by_dir.files_at(d, u) + (if u == uid {
                        rows_count(rows@.take(i as int), d)
                    } else {
                        0
                    }),
                forall|u: i64| #[trigger]
                    self.by_user.size_at(0, u) == old(self).by_user.size_at(0, u) + (if u == uid {
                        rows_total(rows@.take(i as int))
                    } else {
                        0
                    }),
                forall|u: i64| #[trigger]
                    self.by_user.files_at(0, u) == old(self).by_user.files_at(0, u) + (if u
                        == uid {
                        i as int
                    } else {
                        0
                    }),
                forall|u: i64| #[trigger]
                    tally::has_uid(self.by_user@[0]@, u) <==> tally::has_uid(old(self).by_user@[0]@, u) || (u
                        == uid && i > 0),
                forall|d: int, u: i64|
                    0 <= d < n ==> (#[trigger] tally::has_uid(self.by_dir@[d]@, u)
                        <==> tally::has_uid(old(self).by_dir@[d]@, u) || (u == uid && rows_count(
                        rows@.take(i as int),
                        d,
                    ) > 0)),
                out@.len() == i,
                forall|k: int|
                    0 <= k < i ==> (#[trigger] out@[k])@ == file_row_of(
                        rows@[k],
                        uid,
                        text::strs(exts@),
                    ),
            decreases rows@.len() - i,
        {
            let c: CompactRow = rows[i];
            let ghost t0 = rows@.take(i as int);
            let ghost t1 = rows@.take(i + 1);
            let ghost before = *self;
            proof {
                lemma_rows_total(rows@, i + 1);
                lemma_rows_total(rows@, i as int);
                assert(t1.drop_last() =~= t0);
                assert(t1.last() == c);
                self.by_dir.lemma_wf();
            }
            let size: i64 = c.size as i64;
            let dir: usize = c.dir_id as usize;
            self.by_dir.add(dir, uid, size, 1);
            self.by_user.add(0, uid, size, 1);
            proof {
                assert forall|d: int, u: i64| 0 <= d < n implies (#[trigger] tally::has_uid(
                    self.by_dir@[d]@,
                    u,
                ) <==> tally::has_uid(old(self).by_dir@[d]@, u) || (u == uid && rows_count(t1, d)
                    > 0)) by {
                    lemma_rows_count_nonneg(t0, d);
                    assert(tally::has_uid(before.by_dir@[d]@, u) <==> tally::has_uid(
                        old(self).by_dir@[d]@,
                        u,
                    ) || (u == uid && rows_count(t0, d) > 0));
                    if d != dir {
                        assert(self.by_dir@[d] == before.by_dir@[d]);
                    }
                }
                assert forall|d: int, u: i64| 0 <= d < n implies #[trigger] self.by_dir.size_at(d, u)
                    == old(self).by_dir.size_at(d, u) + (if u == uid {
                    rows_size(t1, d)
                } else {
                    0
                }) by {
                    assert(before.by_dir.size_at(d, u) == old(self).by_dir.size_at(d, u) + (if u
                        == uid {
                        rows_size(t0, d)
                    } else {
                        0
                    }));
                    if d != dir {
                        assert(self.by_dir@[d] == before.by_dir@[d]);
                    }
                }
                assert forall|d: int, u: i64| 0 <= d < n implies #[trigger] self.by_dir.files_at(
                    d,
                    u,
                ) == old(self).by_dir.files_at(d, u) + (if u == uid {
                    rows_count(t1, d)
                } else {
                    0
                }) by {
                    assert(before.by_dir.files_at(d, u) == old(self).by_dir.files_at(d, u) + (if u
                        == uid {
                        rows_count(t0, d)
                    } else {
                        0
                    }));
                    if d != dir {
                        assert(self.by_dir@[d] == before.by_dir@[d]);
                    }
                }
                assert forall|u: i64| #[trigger] self.by_user.size_at(0, u) == old(
                    self,
                ).by_user.size_at(0, u) + (if u == uid {
                    rows_total(t1)
                } else {
                    0
                }) by {
                    assert(before.by_user.size_at(0, u) == old(self).by_user.size_at(0, u) + (if u
                        == uid {
                        rows_total(t0)
                    } else {
                        0
                    }));
                }
            }
            let ext: String = if (c.ext_id as usize) < exts.len() {
                exts[c.ext_id as usize].clone()
            } else {
                String::new()
            };
            let row = FileRow {
                dir_id: c.dir_id as i64,
                name_id: c.name_id as i64,
                ext,
                uid,
                size,
            };
            proof {
                assert(text::strs(exts@).len() == exts@.len());
                assert(row@ =~= file_row_of(c, uid, text::strs(exts@)));
            }
            out.push(row);
            i = i + 1;
        }
        proof {
            assert(rows@.take(i as int) =~= rows@);
        }
        out
    }
}

/// File rows that wait to be inserted together.
pub struct FileChunks {
    pending: Vec<FileRow>,
}

impl FileChunks {
    /// The rows that wait.
    pub closed spec fn view(&self) -> Seq<FileRow> {
        self.pending@
    }

    pub open spec fn wf(&self) -> bool {
        self@.len() < FILE_INSERT_CHUNK
    }

    pub fn new() -> (r: Self)
        ensures
            r.wf(),
            r@ == Seq::<FileRow>::empty(),
    {
        FileChunks { pending: Vec::new() }
    }

    /// Adds a row; a full chunk comes out to be inserted.
    pub fn push(&mut self, row: FileRow) -> (r: Option<Vec<FileRow>>)
        requires
            old(self).wf(),
        ensures
            final(self).wf(),
            r is Some <==> old(self)@.len() + 1 == FILE_INSERT_CHUNK,
            r matches Some(chunk) ==> chunk@ == old(self)@.push(row) && final(self)@.len() == 0,
            r is None ==> final(self)@ == old(self)@.push(row),
    {
        self.pending.push(row);
        if self.pending.len() >= FILE_INSERT_CHUNK {
            let mut chunk: Vec<FileRow> = Vec::new();
            std::mem::swap(&mut chunk, &mut self.pending);
            Some(chunk)
        } else {
            None
        }
    }

    /// The rows that are left.
    pub fn finish(self) -> (r: Vec<FileRow>)
        ensures
            r@ == self@,
    {
        self.pending
    }
}

// ---------------------------------------------------------------------------
// Directories
// ---------------------------------------------------------------------------

/// A path made of a directory and a name in it.
pub open spec fn joined(dir: Seq<char>, name: Seq<char>) -> Seq<char> {
    if dir == paths::slash() {
        paths::slash() + name
    } else {
        dir + paths::slash() + name
    }
}

/// The path of the directory with id `i`: the root's, or its parent's with its
/// name.
pub open spec fn listed_path(
    root: Seq<char>,
    dirs: Seq<DirRowDraft>,
    names: Seq<Seq<char>>,
    i: int,
) -> Seq<char>
    decreases i,
{
    if 0 < i < dirs.len() && (dirs[i].parent_id matches Some(j) && j < i) {
        joined(
            listed_path(root, dirs, names, dirs[i].parent_id->0 as int),
            names[dirs[i].name_id as int],
        )
    } else {
        root
    }
}

/// The full path of every directory.
pub fn dir_paths(root: &str, tree: &PathTree) -> (r: Vec<String>)
    requires
        tree.wf(),
    ensures
        r@.len() == tree.paths@.len(),
        forall|i: int|
            0 <= i < r@.len() ==> (#[trigger] r@[i])@ == listed_path(
                root@,
                tree.dirs_in_order@,
                text::strs(tree.names@),
                i,
            ),
{
    let mut out: Vec<String> = Vec::new();
    let ghost dirs = tree.dirs_in_order@;
    let ghost names = text::strs(tree.names@);
    proof {
        reveal_strlit("/");
        assert("/"@ =~= paths::slash());
    }
    let mut i: usize = 0;
    while i < tree.dirs_in_order.len()
        invariant
            i <= dirs.len(),
            tree.wf(),
            dirs == tree.dirs_in_order@,
            names == text::strs(tree.names@),
            "/"@ == paths::slash(),
            out@.len() == i,
            forall|k: int|
                0 <= k < i ==> (#[trigger] out@[k])@ == listed_path(root@, dirs, names, k),
        decreases dirs.len() - i,
    {
        let d = &tree.dirs_in_order[i];
        let path: String = match d.parent_id {
            Some(j) => {
                let parent = &out[j];
                let name = &tree.names[d.name_id];
                let mut p: String = parent.clone();
                if !text::str_eq(parent.as_str(), "/") {
                    p.push('/');
                }
                p.append(name.as_str());
                proof {
                    assert(i > 0);
                    assert(names[d.name_id as int] == name@);
                    assert(p@ =~= joined(parent@, name@));
                }
                p
            },
            None => {
                proof {
                    assert(i == 0);
                }
                root.to_owned()
            },
        };
        out.push(path);
        i = i + 1;
    }
    out
}

/// Whether a path is what its parent and its name make up.
pub open spec fn plain(p: Seq<char>) -> bool {
    joined(paths::parent_of(p), paths::base_name(p)) == p
}

/// The listed paths are the paths of the tree, where these are plain: the
/// report names each directory by its full path.
pub proof fn law_listed_paths_are_full(tree: PathTree, i: int)
    requires
        tree.wf(),
        0 <= i < tree.paths@.len(),
        forall|k: int| 1 <= k < tree.paths@.len() ==> plain(#[trigger] tree.paths@[k]),
    ensures
        listed_path(tree.root@, tree.dirs_in_order@, text::strs(tree.names@), i) == tree.paths@[i],
    decreases i,
{
    if i > 0 {
        let d = tree.dirs_in_order@[i];
        let j = d.parent_id->0 as int;
        law_listed_paths_are_full(tree, j);
        let p = tree.paths@[i];
        assert(plain(p));
        assert(p != tree.root@) by {
            assert(tree.paths@[0] == tree.root@);
        }
        assert(text::strs(tree.names@)[d.name_id as int] == paths::base_name(p));
    }
}

/// The owner that is listed for a directory: zero where it is not known.
pub open spec fn listed_owner(owner: i64) -> i64 {
    if owner >= 0 {
        owner
    } else {
        0i64
    }
}

/// The id of a directory's parent.
pub open spec fn parent_id_of(d: DirRowDraft) -> Option<int> {
    match d.parent_id {
        Some(p) => Some(p as int),
        None => None,
    }
}

/// What a user has in a directory, as it is listed.
pub open spec fn dir_row_of(
    t: Tally,
    id: int,
    d: DirRowDraft,
    path: Seq<char>,
    owner: i64,
) -> DetailDirModel {
    DetailDirModel {
        id,
        uid: t.uid,
        parent_id: parent_id_of(d),
        path,
        owner_uid: listed_owner(owner),
        size: t.size as int,
        files: t.files as int,
    }
}

/// The rows of the first `n` directories: one for each user that has files in
/// it, by number.
pub open spec fn dir_rows_of(
    lists: Seq<Vec<Tally>>,
    dirs: Seq<DirRowDraft>,
    paths: Seq<Seq<char>>,
    owners: Seq<i64>,
    n: int,
) -> Seq<DetailDirModel>
    decreases n,
{
    if n <= 0 {
        Seq::empty()
    } else {
        dir_rows_of(lists, dirs, paths, owners, n - 1) + lists[n - 1]@.map_values(
            |t: Tally| dir_row_of(t, n - 1, dirs[n - 1], paths[n - 1], owners[n - 1]),
        )
    }
}

/// The rows of the directories.
pub fn detail_dir_rows(
    totals: &DirTally,
    tree: &PathTree,
    paths: &Vec<String>,
    owners: &Vec<i64>,
) -> (r: Vec<DetailDirRow>)
    requires
        tree.wf(),
        tree.paths@.len() <= i64::MAX,
        totals@.len() == tree.paths@.len(),
        paths@.len() == tree.paths@.len(),
        owners@.len() == tree.paths@.len(),
    ensures
        db::detail_dir_views(r@) == dir_rows_of(
            totals@,
            tree.dirs_in_order@,
            text::strs(paths@),
            owners@,
            tree.paths@.len() as int,
        ),
{
    let mut out: Vec<DetailDirRow> = Vec::new();
    let ghost lists = totals@;
    let ghost dirs = tree.dirs_in_order@;
    let ghost ps = text::strs(paths@);
    let ghost n = tree.paths@.len() as int;
    let mut d: usize = 0;
    proof {
        assert(db::detail_dir_views(out@) =~= Seq::<DetailDirModel>::empty());
    }
    while d < totals.len()
        invariant
            d <= n,
            n == tree.paths@.len(),
            n <= i64::MAX,
            tree.wf(),
            lists == totals@,
            dirs == tree.dirs_in_order@,
            ps == text::strs(paths@),
            lists.len() == n,
            dirs.len() == n,
            paths@.len() == n,
            owners@.len() == n,
            db::detail_dir_views(out@) == dir_rows_of(lists, dirs, ps, owners@, d as int),
        decreases n - d,
    {
        let list = totals.list(d);
        let ghost f = |t: Tally|
            dir_row_of(t, d as int, dirs[d as int], ps[d as int], owners@[d as int]);
        let ghost before = db::detail_dir_views(out@);
        let ghost rows = list@.map_values(f);
        let parent_id: Option<i64> = match tree.dirs_in_order[d].parent_id {
            Some(p) => Some(p as i64),
            None => None,
        };
        let owner_uid: i64 = if owners[d] >= 0 {
            owners[d]
        } else {
            0
        };
        let mut j: usize = 0;
        proof {
            assert(before + rows.take(0) =~= before);
        }
        while j < list.len()
            invariant
                j <= list@.len(),
                d < n,
                n <= i64::MAX,
                dirs.len() == n,
                paths@.len() == n,
                owners@.len() == n,
                dirs == tree.dirs_in_order@,
                ps == text::strs(paths@),
                d == 0 ==> dirs[d as int].parent_id is None,
                d > 0 ==> dirs[d as int].parent_id is Some && dirs[d as int].parent_id->0 < d,
                parent_id == (match dirs[d as int].parent_id {
                    Some(p) => Some(p as i64),
                    None => None,
                }),
                owner_uid == listed_owner(owners@[d as int]),
                f == (|t: Tally|
                    dir_row_of(t, d as int, dirs[d as int], ps[d as int], owners@[d as int])),
                rows == list@.map_values(f),
                db::detail_dir_views(out@) == before + rows.take(j as int),
            decreases list@.len() - j,
        {
            let t: Tally = list[j];
            let row = DetailDirRow {
                id: d as i64,
                uid: t.uid,
                parent_id,
                path: paths[d].clone(),
                owner_uid,
                size: t.size,
                files: t.files,
            };
            let ghost cur = db::detail_dir_views(out@);
            out.push(row);
            proof {
                assert(row@ =~= f(t));
                assert(db::detail_dir_views(out@) =~= cur.push(row@));
                assert(rows.take(j + 1) =~= rows.take(j as int).push(f(t)));
                assert(before + rows.take(j + 1) =~= (before + rows.take(j as int)).push(f(t)));
            }
            j = j + 1;
        }
        proof {
            assert(rows.take(j as int) =~= rows);
            assert(lists[d as int]@ == list@);
        }
        d = d + 1;
    }
    out
}

proof fn lemma_dir_rows_ids(
    lists: Seq<Vec<Tally>>,
    dirs: Seq<DirRowDraft>,
    paths: Seq<Seq<char>>,
    owners: Seq<i64>,
    n: int,
)
    requires
        0 <= n <= lists.len(),
    ensures
        forall|i: int|
            0 <= i < dir_rows_of(lists, dirs, paths, owners, n).len() ==> 0 <= (
            #[trigger] dir_rows_of(lists, dirs, paths, owners, n)[i]).id < n,
    decreases n,
{
    if n > 0 {
        lemma_dir_rows_ids(lists, dirs, paths, owners, n - 1);
        let a = dir_rows_of(lists, dirs, paths, owners, n - 1);
        let f = |t: Tally| dir_row_of(t, n - 1, dirs[n - 1], paths[n - 1], owners[n - 1]);
        let b = lists[n - 1]@.map_values(f);
        assert forall|i: int|
            0 <= i < dir_rows_of(lists, dirs, paths, owners, n).len() implies 0 <= (
        #[trigger] dir_rows_of(lists, dirs, paths, owners, n)[i]).id < n by {
            if i >= a.len() {
                assert((a + b)[i] == b[i - a.len()]);
            } else {
                assert((a + b)[i] == a[i]);
            }
        }
    }
}

/// The rows of the directories stand in the order of directory and user, and
/// no directory has two rows for a user.
pub proof fn law_dir_rows_sorted(
    lists: Seq<Vec<Tally>>,
    dirs: Seq<DirRowDraft>,
    paths: Seq<Seq<char>>,
    owners: Seq<i64>,
    n: int,
)
    requires
        0 <= n <= lists.len(),
        forall|d: int| 0 <= d < lists.len() ==> tally::tallies_ok((#[trigger] lists[d])@),
    ensures
        forall|i: int, j: int|
            0 <= i < j < dir_rows_of(lists, dirs, paths, owners, n).len() ==> {
                let a = #[trigger] dir_rows_of(lists, dirs, paths, owners, n)[i];
                let b = #[trigger] dir_rows_of(lists, dirs, paths, owners, n)[j];
                a.id < b.id || (a.id == b.id && a.uid < b.uid)
            },
    decreases n,
{
    if n > 0 {
        law_dir_rows_sorted(lists, dirs, paths, owners, n - 1);
        lemma_dir_rows_ids(lists, dirs, paths, owners, n - 1);
        let x = dir_rows_of(lists, dirs, paths, owners, n - 1);
        let f = |t: Tally| dir_row_of(t, n - 1, dirs[n - 1], paths[n - 1], owners[n - 1]);
        let y = lists[n - 1]@.map_values(f);
        let all = dir_rows_of(lists, dirs, paths, owners, n);
        assert(all == x + y);
        assert(tally::tallies_ok(lists[n - 1]@));
        assert forall|i: int, j: int| 0 <= i < j < all.len() implies {
            let a = #[trigger] all[i];
            let b = #[trigger] all[j];
            a.id < b.id || (a.id == b.id && a.uid < b.uid)
        } by {
            if j < x.len() {
                assert(all[i] == x[i]);
                assert(all[j] == x[j]);
            } else if i < x.len() {
                assert(all[i] == x[i]);
                assert(all[j] == y[j - x.len()]);
                assert(x[i].id < n - 1);
            } else {
                assert(all[i] == y[i - x.len()]);
                assert(all[j] == y[j - x.len()]);
                assert(lists[n - 1]@[i - x.len()].uid < lists[n - 1]@[j - x.len()].uid);
            }
        }
    }
}

// ---------------------------------------------------------------------------
// Users
// ---------------------------------------------------------------------------

/// How many of the first `n` directories `uid` owns.
pub open spec fn owned_count(owners: Seq<i64>, uid: i64, n: int) -> int
    decreases n,
{
    if n <= 0 {
        0
    } else {
        owned_count(owners, uid, n - 1) + (if owners[n - 1] == uid {
            1int
        } else {
            0
        })
    }
}

fn count_owned(owners: &Vec<i64>, uid: i64) -> (r: usize)
    ensures
        r == owned_count(owners@, uid, owners@.len() as int),
{
    let mut n: usize = 0;
    let mut i: usize = 0;
    while i < owners.len()
        invariant
            i <= owners@.len(),
            n <= i,
            n == owned_count(owners@, uid, i as int),
        decreases owners@.len() - i,
    {
        if owners[i] == uid {
            n = n + 1;
        }
        i = i + 1;
    }
    n
}

/// The name of a user: the one that the table gives, else one made of the number.
pub open spec fn listed_name(names: Map<i64, Seq<char>>, uid: i64) -> Seq<char> {
    if names.contains_key(uid) {
        names[uid]
    } else {
        events::uid_name(uid as int)
    }
}

/// The team of a user; empty where it has none.
pub open spec fn team_of(teams: Map<Seq<char>, String>, name: Seq<char>) -> Seq<char> {
    if teams.contains_key(name) {
        teams[name]@
    } else {
        Seq::empty()
    }
}

/// The row of a user.
pub open spec fn user_row_of(
    t: Tally,
    names: Map<i64, Seq<char>>,
    teams: Map<Seq<char>, String>,
    dirs: int,
    owned: int,
) -> UserRowModel {
    UserRowModel {
        uid: t.uid,
        username: listed_name(names, t.uid),
        team_id: team_of(teams, listed_name(names, t.uid)),
        total_files: t.files as int,
        total_dirs: dirs,
        total_size: t.size as int,
        permission_issues: 0,
        is_target: 0,
        owned_dirs: owned,
    }
}

/// What a list holds for `uid`.
fn lookup_files(list: &Vec<Tally>, uid: i64) -> (r: i64)
    requires
        tally::tallies_ok(list@),
    ensures
        r == tally::tally_files(list@, uid),
{
    let mut i: usize = 0;
    proof {
        assert(list@.take(0) =~= Seq::<Tally>::empty());
    }
    while i < list.len()
        invariant
            i <= list@.len(),
            tally::tallies_ok(list@),
            forall|k: int| 0 <= k < i ==> (#[trigger] list@[k]).uid != uid,
            tally::tally_files(list@.take(i as int), uid) == 0,
        decreases list@.len() - i,
    {
        if list[i].uid == uid {
            proof {
                lemma_only_place(list@, i as int);
            }
            return list[i].files;
        }
        proof {
            assert(list@.take(i + 1).drop_last() =~= list@.take(i as int));
        }
        i = i + 1;
    }
    proof {
        assert(list@.take(i as int) =~= list@);
    }
    0
}

proof fn lemma_only_place(s: Seq<Tally>, k: int)
    requires
        tally::tallies_ok(s),
        0 <= k < s.len(),
    ensures
        tally::tally_files(s, s[k].uid) == s[k].files,
        tally::tally_size(s, s[k].uid) == s[k].size,
    decreases s.len(),
{
    let t = s.drop_last();
    assert(tally::tallies_ok(t));
    if k == s.len() - 1 {
        lemma_no_place(t, s[k].uid);
    } else {
        lemma_only_place(t, k);
        assert(t[k] == s[k]);
        assert(s[k].uid < s[s.len() - 1].uid);
    }
}

proof fn lemma_no_place(s: Seq<Tally>, uid: i64)
    requires
        forall|i: int| 0 <= i < s.len() ==> (#[trigger] s[i]).uid < uid,
    ensures
        tally::tally_files(s, uid) == 0,
        tally::tally_size(s, uid) == 0,
    decreases s.len(),
{
    if s.len() > 0 {
        assert(s[s.len() - 1].uid < uid);
        assert forall|i: int| 0 <= i < s.drop_last().len() implies (
        #[trigger] s.drop_last()[i]).uid < uid by {
            assert(s.drop_last()[i] == s[i]);
        }
        lemma_no_place(s.drop_last(), uid);
    }
}

/// The rows of the users, by number.
pub fn user_rows(
    totals: &DirTally,
    dir_counts: &DirTally,
    owners: &Vec<i64>,
    users: &UserTable,
    teams: &StringHashMap<String>,
) -> (r: Vec<UserRow>)
    requires
        totals.wf(),
        totals@.len() == 1,
        dir_counts.wf(),
        dir_counts@.len() == 1,
        owners@.len() <= i64::MAX,
    ensures
        r@.len() == totals@[0]@.len(),
        forall|i: int|
            0 <= i < r@.len() ==> (#[trigger] r@[i])@ == user_row_of(
                totals@[0]@[i],
                users.names(),
                teams@,
                dir_counts.files_at(0, totals@[0]@[i].uid),
                owned_count(owners@, totals@[0]@[i].uid, owners@.len() as int),
            ),
        forall|i: int, j: int|
            0 <= i < j < r@.len() ==> (#[trigger] r@[i]).uid < (#[trigger] r@[j]).uid,
{
    let list = totals.list(0);
    let counts = dir_counts.list(0);
    let mut out: Vec<UserRow> = Vec::new();
    proof {
        totals.lemma_wf();
        dir_counts.lemma_wf();
    }
    let mut i: usize = 0;
    while i < list.len()
        invariant
            i <= list@.len(),
            list@ == totals@[0]@,
            counts@ == dir_counts@[0]@,
            tally::tallies_ok(list@),
            tally::tallies_ok(counts@),
            owners@.len() <= i64::MAX,
            out@.len() == i,
            forall|k: int|
                0 <= k < i ==> (#[trigger] out@[k])@ == user_row_of(
                    list@[k],
                    users.names(),
                    teams@,
                    dir_counts.files_at(0, list@[k].uid),
                    owned_count(owners@, list@[k].uid, owners@.len() as int),
                ),
            forall|k: int| 0 <= k < i ==> (#[trigger] out@[k]).uid == list@[k].uid,
        decreases list@.len() - i,
    {
        let t: Tally = list[i];
        let username = users.name(t.uid);
        let team_id = match teams.get(username.as_str()) {
            Some(s) => s.clone(),
            None => String::new(),
        };
        let total_dirs: i64 = lookup_files(counts, t.uid);
        let owned: usize = count_owned(owners, t.uid);
        proof {
            lemma_owned(owners@, t.uid, owners@.len() as int);
        }
        let row = UserRow {
            uid: t.uid,
            username,
            team_id,
            total_files: t.files,
            total_dirs,
            total_size: t.size,
            permission_issues: 0,
            is_target: 0,
            owned_dirs: owned as i64,
        };
        proof {
            assert(row@ =~= user_row_of(
                t,
                users.names(),
                teams@,
                dir_counts.files_at(0, t.uid),
                owned_count(owners@, t.uid, owners@.len() as int),
            ));
        }
        out.push(row);
        i = i + 1;
    }
    out
}

proof fn lemma_owned(owners: Seq<i64>, uid: i64, n: int)
    requires
        0 <= n,
    ensures
        0 <= owned_count(owners, uid, n) <= n,
    decreases n,
{
    if n > 0 {
        lemma_owned(owners, uid, n - 1);
    }
}

/// The files and bytes of the users add up to the files and bytes of the
/// directories.
pub proof fn law_user_totals_match_dirs(t: FileTotals)
    requires
        t.wf(),
    ensures
        tally::sizes_sum(t.by_user@[0]@) == tally::all_sizes(t.by_dir@),
        tally::files_sum(t.by_user@[0]@) == tally::all_files(t.by_dir@),
{
    t.by_user.lemma_wf();
    t.by_dir.lemma_wf();
    let v = t.by_user@;
    assert(v.drop_last() =~= Seq::<Vec<Tally>>::empty());
    assert(tally::all_sizes(Seq::<Vec<Tally>>::empty()) == 0);
    assert(tally::all_files(Seq::<Vec<Tally>>::empty()) == 0);
    assert(v.last() == v[0]);
}

// ---------------------------------------------------------------------------
// Meta
// ---------------------------------------------------------------------------

/// The last name of a path, else `treemap.db`.
pub open spec fn treemap_file(path: Seq<char>) -> Seq<char> {
    match paths::file_name(path) {
        Some(n) => n,
        None => "treemap.db"@,
    }
}

/// The `meta` table of the detail report.
pub open spec fn detail_meta_of(
    root: Seq<char>,
    timestamp: int,
    files: int,
    dirs: nat,
    size: int,
    treemap_db: Seq<char>,
) -> Seq<(Seq<char>, Seq<char>)> {
    seq![
        ("scan_root"@, root),
        ("scan_timestamp"@, text::dec_int(timestamp)),
        ("total_files"@, text::dec_int(files)),
        ("total_dirs"@, text::dec(dirs)),
        ("total_size"@, text::dec_int(size)),
        ("schema_version"@, "1"@),
        ("treemap_db"@, treemap_file(treemap_db)),
    ]
}

/// The `meta` table of the detail report.
pub fn detail_meta(
    root: &str,
    timestamp: i64,
    files: i64,
    dirs: usize,
    size: i64,
    treemap_db: &str,
) -> (r: Vec<(String, String)>)
    ensures
        db::meta_views(r@) == detail_meta_of(
            root@,
            timestamp as int,
            files as int,
            dirs as nat,
            size as int,
            treemap_db@,
        ),
{
    let p = text::to_chars(treemap_db);
    let tm = match paths::file_name_chars(&p) {
        Some(n) => text::from_chars(&n),
        None => "treemap.db".to_owned(),
    };
    let mut out: Vec<(String, String)> = Vec::new();
    out.push(("scan_root".to_owned(), root.to_owned()));
    out.push(("scan_timestamp".to_owned(), text::dec_int_string(timestamp)));
    out.push(("total_files".to_owned(), text::dec_int_string(files)));
    out.push(("total_dirs".to_owned(), text::dec_string(dirs as u64)));
    out.push(("total_size".to_owned(), text::dec_int_string(size)));
    out.push(("schema_version".to_owned(), "1".to_owned()));
    out.push(("treemap_db".to_owned(), tm));
    proof {
        assert(db::meta_views(out@) =~= detail_meta_of(
            root@,
            timestamp as int,
            files as int,
            dirs as nat,
            size as int,
            treemap_db@,
        ));
    }
    out
}

/// The last record for a directory gives its owner, whatever records came before it or
/// stand for other directories; without a record there is no owner.
pub proof fn law_last_record_names_the_owner(evs: Seq<DirOwnerModel>, path: Seq<char>, i: int)
    ensures
        0 <= i < evs.len() && evs[i].path == path && (forall|j: int|
            i < j < evs.len() ==> (#[trigger] evs[j]).path != path) ==> last_owner(evs, path)
            == Some(evs[i].uid),
        (forall|j: int| 0 <= j < evs.len() ==> (#[trigger] evs[j]).path != path) ==> last_owner(
            evs,
            path,
        ) is None,
    decreases evs.len(),
{
    if evs.len() > 0 {
        let rest = evs.drop_last();
        law_last_record_names_the_owner(rest, path, i);
        assert forall|j: int| 0 <= j < rest.len() implies #[trigger] rest[j] == evs[j] by {}
        assert(evs.last() == evs[evs.len() - 1]);
    }
}

/// What users take in a directory: all of it where each uid is one of the user's, and
/// nothing where none is.
pub proof fn law_weights_of_a_user(
    list: Seq<(u32, i64)>,
    t: UserTable,
    uids: Map<u32, Seq<char>>,
    uid: i64,
)
    requires
        forall|i: int| 0 <= i < list.len() ==> (#[trigger] list[i]).1 >= 0,
    ensures
        (forall|i: int|
            0 <= i < list.len() ==> users::number_of(t, uids, (#[trigger] list[i]).0) == uid)
            ==> weight_of(list, t, uids, uid) == ingest::list_sum(list),
        (forall|i: int|
            0 <= i < list.len() ==> users::number_of(t, uids, (#[trigger] list[i]).0) != uid)
            ==> weight_of(list, t, uids, uid) == 0 && entries_of(list, t, uids, uid) == 0,
    decreases list.len(),
{
    if list.len() > 0 {
        let rest = list.drop_last();
        assert forall|i: int| 0 <= i < rest.len() implies #[trigger] rest[i] == list[i] by {}
        law_weights_of_a_user(rest, t, uids, uid);
        assert(list.last() == list[list.len() - 1]);
    }
}

/// What a user takes according to two lists is what the user takes according to each.
pub proof fn law_weights_add_up(
    a: Seq<(u32, i64)>,
    b: Seq<(u32, i64)>,
    t: UserTable,
    uids: Map<u32, Seq<char>>,
    uid: i64,
)
    ensures
        weight_of(a + b, t, uids, uid) == weight_of(a, t, uids, uid) + weight_of(b, t, uids, uid),
        entries_of(a + b, t, uids, uid) == entries_of(a, t, uids, uid) + entries_of(
            b,
            t,
            uids,
            uid,
        ),
    decreases b.len(),
{
    if b.len() == 0 {
        assert(a + b =~= a);
    } else {
        law_weights_add_up(a, b.drop_last(), t, uids, uid);
        assert((a + b).drop_last() =~= a + b.drop_last());
    }
}

/// The rows of a directory hold what they hold together: all bytes and all rows where
/// each stands in the directory, and nothing where none does.
pub proof fn law_rows_in_one_directory(rows: Seq<CompactRow>, dir: int)
    ensures
        (forall|i: int| 0 <= i < rows.len() ==> (#[trigger] rows[i]).dir_id == dir) ==> rows_size(
            rows,
            dir,
        ) == rows_total(rows) && rows_count(rows, dir) == rows.len(),
        (forall|i: int| 0 <= i < rows.len() ==> (#[trigger] rows[i]).dir_id != dir) ==> rows_size(
            rows,
            dir,
        ) == 0 && rows_count(rows, dir) == 0,
    decreases rows.len(),
{
    if rows.len() > 0 {
        let rest = rows.drop_last();
        assert forall|i: int| 0 <= i < rest.len() implies #[trigger] rest[i] == rows[i] by {}
        law_rows_in_one_directory(rest, dir);
        assert(rows.last() == rows[rows.len() - 1]);
    }
}

/// The row of a user names the team that the user is a member of, and none where the
/// user is in no team; a user whom no table knows is named after the number.
pub proof fn law_rows_name_user_and_team(
    t: Tally,
    names: Map<i64, Seq<char>>,
    teams: Map<Seq<char>, String>,
    dirs: int,
    owned: int,
)
    ensures
        ({
            let row = user_row_of(t, names, teams, dirs, owned);
            &&& row.uid == t.uid
            &&& names.contains_key(t.uid) ==> row.username == names[t.uid]
            &&& !names.contains_key(t.uid) ==> row.username == "uid-"@ + text::dec_int(
                t.uid as int,
            )
            &&& teams.contains_key(row.username) ==> row.team_id == teams[row.username]@
            &&& !teams.contains_key(row.username) ==> row.team_id.len() == 0
            &&& row.total_files == t.files && row.total_size == t.size
            &&& row.owned_dirs == owned && row.total_dirs == dirs
        }),
{
}

} // verus!
