//! That a report counts the directories of its users: those that a user takes something
//! in, and those that the user owns.

use crate::arrival::Share;
use crate::arrival;
use crate::db::DetailDirModel;
use crate::db::FileRowModel;
use crate::db::UserRowModel;
use crate::detail::DetailBuild;
use crate::detail;
use crate::events::DirOwnerModel;
use crate::events::ScanModel;
use crate::events;
use crate::ingest::DirSizes;
use crate::ingest;
use crate::path_tree::DirRowDraft;
use crate::path_tree::PathTree;
use crate::paths;
use crate::report;
use crate::spill::CompactRow;
use crate::spill::NumberingModel;
use crate::spill::RowModel;
use crate::spill;
use crate::tally;
use crate::text;
use crate::users::FIRST_SYNTHETIC_UID;
use crate::users::TableModel;
use crate::users::UserTable;
use crate::users;
use vstd::prelude::*;

verus! {

// ---------------------------------------------------------------------------
// The report from its start on
// ---------------------------------------------------------------------------

/// `first` is a report that was begun on directory sizes and on the records of the
/// directories' owners, in which each number leads to its user.
pub open spec fn begun(
    first: DetailBuild,
    sizes: DirSizes,
    owners: Seq<DirOwnerModel>,
    names: Map<u32, Seq<char>>,
) -> bool {
    &&& sizes.wf()
    &&& first.wf()
    &&& users::settled(first.users.model())
    &&& FIRST_SYNTHETIC_UID + owners.len() + report::entry_count(
        sizes,
        sizes.dir_names().len() as int,
    ) <= i64::MAX
    &&& forall|d: int|
        0 <= d < first.owners@.len() ==> #[trigger] first.owners@[d] == report::owner_number(
            report::last_owner(owners, first.tree.paths@[d]),
            first.users,
            names,
        )
    &&& forall|u: i64| #[trigger]
        first.weights.dir_counts.files_at(0, u) == report::dir_entries(
            sizes,
            first.tree.dir_id_of@,
            first.users,
            names,
            u,
            sizes.dir_names().len() as int,
        )
    &&& exists|t: TableModel| #[trigger]
        users::table_of(t, names) && first.users.model() == users::learned_all(
            t,
            detail::first_users(first.tree.dir_id_of@, sizes, owners, names),
        )
}

/// `b` is a report that was begun as `first`, with some more users and files: its tree,
/// the owners and what lies in the directories are the same, and users keep their
/// numbers.
pub open spec fn grown(first: DetailBuild, b: DetailBuild) -> bool {
    let (x, y) = (first.users.model(), b.users.model());
    &&& b.tree == first.tree
    &&& b.owners == first.owners
    &&& b.weights == first.weights
    &&& x.next <= y.next
    &&& forall|n: Seq<char>| #[trigger]
        x.numbers.contains_key(n) ==> y.numbers.contains_key(n) && y.numbers[n] == x.numbers[n]
    &&& forall|n: Seq<char>| #[trigger]
        y.numbers.contains_key(n) && !x.numbers.contains_key(n) ==> y.numbers[n] >= x.next
}

/// Beginning users and adding files keeps a report the one that was begun.
pub proof fn law_reports_grow(
    first: DetailBuild,
    a: DetailBuild,
    b: DetailBuild,
    name: Seq<char>,
    uid: i64,
)
    requires
        grown(first, a),
        detail::user_begun(a, b, name, uid) || (b.same_frame(&a) && b.users == a.users),
    ensures
        grown(first, b),
        grown(first, first),
{
    a.users.lemma_next();
    b.users.lemma_next();
}

// ---------------------------------------------------------------------------
// Known users
// ---------------------------------------------------------------------------

proof fn lemma_join_contains(a: Seq<Seq<char>>, b: Seq<Seq<char>>, x: Seq<char>)
    ensures
        a.contains(x) || b.contains(x) ==> (a + b).contains(x),
{
    if a.contains(x) {
        let i = choose|i: int| 0 <= i < a.len() && a[i] == x;
        assert((a + b)[i] == x);
    }
    if b.contains(x) {
        let i = choose|i: int| 0 <= i < b.len() && b[i] == x;
        assert((a + b)[a.len() + i] == x);
    }
}

proof fn lemma_list_named(list: Seq<(u32, i64)>, names: Map<u32, Seq<char>>, j: int)
    requires
        0 <= j < list.len(),
        list[j].1 > 0,
    ensures
        report::list_names(list, names).contains(events::user_name(list[j].0, names)),
    decreases list.len(),
{
    let r = report::list_names(list.drop_last(), names);
    let x = events::user_name(list[j].0, names);
    if j == list.len() - 1 {
        assert(r.push(x)[r.len() as int] == x);
    } else {
        lemma_list_named(list.drop_last(), names, j);
        assert(list.drop_last()[j] == list[j]);
        let i = choose|i: int| 0 <= i < r.len() && r[i] == x;
        assert(report::list_names(list, names)[i] == x);
    }
}

proof fn lemma_sizes_named(
    sizes: DirSizes,
    ids: Map<Seq<char>, usize>,
    names: Map<u32, Seq<char>>,
    n: int,
    i: int,
    j: int,
)
    requires
        0 <= i < n,
        ids.contains_key(sizes.dir_names()[i]),
        0 <= j < sizes.lists()[i]@.len(),
        sizes.lists()[i]@[j].1 > 0,
    ensures
        report::size_names(sizes, ids, names, n).contains(
            events::user_name(sizes.lists()[i]@[j].0, names),
        ),
    decreases n,
{
    let x = events::user_name(sizes.lists()[i]@[j].0, names);
    let r = report::size_names(sizes, ids, names, n - 1);
    let more = report::list_names(sizes.lists()[n - 1]@, names);
    if i == n - 1 {
        lemma_list_named(sizes.lists()[i]@, names, j);
    } else {
        lemma_sizes_named(sizes, ids, names, n - 1, i, j);
    }
    lemma_join_contains(r, more, x);
}

proof fn lemma_owners_named(
    evs: Seq<DirOwnerModel>,
    ids: Map<Seq<char>, usize>,
    names: Map<u32, Seq<char>>,
    j: int,
)
    requires
        0 <= j < evs.len(),
        ids.contains_key(evs[j].path),
    ensures
        report::owner_names(evs, ids, names).contains(events::user_name(evs[j].uid, names)),
    decreases evs.len(),
{
    let r = report::owner_names(evs.drop_last(), ids, names);
    let x = events::user_name(evs[j].uid, names);
    if j == evs.len() - 1 {
        assert(r.push(x)[r.len() as int] == x);
    } else {
        lemma_owners_named(evs.drop_last(), ids, names, j);
        assert(evs.drop_last()[j] == evs[j]);
        let i = choose|i: int| 0 <= i < r.len() && r[i] == x;
        assert(report::owner_names(evs, ids, names)[i] == x);
    }
}

proof fn lemma_first_known(
    first: DetailBuild,
    sizes: DirSizes,
    owners: Seq<DirOwnerModel>,
    names: Map<u32, Seq<char>>,
    user: Seq<char>,
)
    requires
        begun(first, sizes, owners, names),
        detail::first_users(first.tree.dir_id_of@, sizes, owners, names).contains(user),
    ensures
        first.users.numbers().contains_key(user),
{
    let ids = first.tree.dir_id_of@;
    let all = detail::first_users(ids, sizes, owners, names);
    let t = choose|t: TableModel| #[trigger]
        users::table_of(t, names) && first.users.model() == users::learned_all(t, all);
    report::lemma_owner_names_len(owners, ids, names);
    report::lemma_size_names_len(sizes, ids, names, sizes.dir_names().len() as int);
    users::lemma_learned_extends(t, all);
    assert(users::learned_all(t, all).numbers.contains_key(user));
    assert(first.users.model().numbers.contains_key(user));
}

/// A known uid has the number of a user exactly if it is the user's.
proof fn lemma_number_is_user(
    first: DetailBuild,
    b: DetailBuild,
    names: Map<u32, Seq<char>>,
    u: u32,
    user: Seq<char>,
)
    requires
        users::settled(first.users.model()),
        grown(first, b),
        b.users.numbers().contains_key(user),
        first.users.numbers().contains_key(events::user_name(u, names)),
    ensures
        users::number_of(first.users, names, u) == b.users.numbers()[user] <==> events::user_name(
            u,
            names,
        ) == user,
{
    let (x, y) = (first.users.model(), b.users.model());
    let who = events::user_name(u, names);
    assert(x.numbers.contains_key(who));
    assert(y.numbers.contains_key(user));
    assert(x.names.contains_key(x.numbers[who]));
    if x.numbers.contains_key(user) {
        assert(x.names[x.numbers[user]] == user);
    }
}

// ---------------------------------------------------------------------------
// Directories with something of a user
// ---------------------------------------------------------------------------

/// The directory at `p` with each uid of a user that has something in a list.
spec fn pairs_in(
    p: Seq<char>,
    list: Seq<(u32, i64)>,
    names: Map<u32, Seq<char>>,
    user: Seq<char>,
) -> Set<(Seq<char>, u32)> {
    Set::new(
        |x: (Seq<char>, u32)|
            x.0 == p && events::user_name(x.1, names) == user && ingest::size_in(list, x.1) > 0,
    )
}

/// The same for the first `n` directories, those that the tree knows.
spec fn pairs_upto(
    sizes: DirSizes,
    ids: Map<Seq<char>, usize>,
    names: Map<u32, Seq<char>>,
    user: Seq<char>,
    n: int,
) -> Set<(Seq<char>, u32)>
    decreases n,
{
    if n <= 0 {
        Set::empty()
    } else {
        let r = pairs_upto(sizes, ids, names, user, n - 1);
        if ids.contains_key(sizes.dir_names()[n - 1]) {
            r.union(pairs_in(sizes.dir_names()[n - 1], sizes.lists()[n - 1]@, names, user))
        } else {
            r
        }
    }
}

proof fn lemma_none_of(list: Seq<(u32, i64)>, u: u32)
    requires
        forall|i: int| 0 <= i < list.len() ==> (#[trigger] list[i]).0 != u,
    ensures
        ingest::size_in(list, u) == 0,
    decreases list.len(),
{
    if list.len() > 0 {
        let head = list.drop_last();
        assert(list[list.len() - 1].0 != u);
        assert forall|i: int| 0 <= i < head.len() implies (#[trigger] head[i]).0 != u by {
            assert(head[i] == list[i]);
        }
        lemma_none_of(head, u);
    }
}

/// Each uid that counts adds one pair.
proof fn lemma_pairs_counted(
    base: Set<(Seq<char>, u32)>,
    p: Seq<char>,
    list: Seq<(u32, i64)>,
    t: UserTable,
    names: Map<u32, Seq<char>>,
    user: Seq<char>,
    uid: i64,
)
    requires
        base.finite(),
        forall|x: (Seq<char>, u32)| #[trigger] base.contains(x) ==> x.0 != p,
        ingest::list_ok(list),
        forall|j: int|
            0 <= j < list.len() && (#[trigger] list[j]).1 > 0 ==> (users::number_of(
                t,
                names,
                list[j].0,
            ) == uid <==> events::user_name(list[j].0, names) == user),
    ensures
        base.union(pairs_in(p, list, names, user)).finite(),
        base.union(pairs_in(p, list, names, user)).len() == base.len() + report::entries_of(
            list,
            t,
            names,
            uid,
        ),
    decreases list.len(),
{
    let all = base.union(pairs_in(p, list, names, user));
    if list.len() == 0 {
        assert(all =~= base);
    } else {
        let head = list.drop_last();
        let e = list.last();
        let before = base.union(pairs_in(p, head, names, user));
        assert(ingest::list_ok(head)) by {
            assert forall|i: int, j: int| 0 <= i < j < head.len() implies (#[trigger] head[i]).0
                != (#[trigger] head[j]).0 by {
                assert(list[i].0 != list[j].0);
            }
            assert forall|i: int| 0 <= i < head.len() implies (#[trigger] head[i]).1 >= 0 by {
                assert(list[i].1 >= 0);
            }
        }
        assert forall|j: int| 0 <= j < head.len() && (#[trigger] head[j]).1 > 0 implies (
        users::number_of(t, names, head[j].0) == uid <==> events::user_name(head[j].0, names)
            == user) by {
            assert(head[j] == list[j]);
        }
        lemma_pairs_counted(base, p, head, t, names, user, uid);
        let k = list.len() - 1;
        assert(list[k] == e);
        assert forall|i: int| 0 <= i < head.len() implies (#[trigger] head[i]).0 != e.0 by {
            assert(list[i].0 != list[k].0);
        }
        lemma_none_of(head, e.0);
        let x = (p, e.0);
        assert(!before.contains(x));
        if e.1 > 0 && events::user_name(e.0, names) == user {
            assert(all =~= before.insert(x));
        } else {
            assert(all =~= before);
        }
    }
}

proof fn lemma_pairs_members(
    sizes: DirSizes,
    ids: Map<Seq<char>, usize>,
    names: Map<u32, Seq<char>>,
    user: Seq<char>,
    n: int,
    x: (Seq<char>, u32),
)
    requires
        n <= sizes.dir_names().len(),
    ensures
        pairs_upto(sizes, ids, names, user, n).contains(x) <==> exists|i: int|
            0 <= i < n && (#[trigger] sizes.dir_names()[i]) == x.0 && ids.contains_key(x.0)
                && events::user_name(x.1, names) == user && ingest::size_in(
                sizes.lists()[i]@,
                x.1,
            ) > 0,
    decreases n,
{
    if n > 0 {
        lemma_pairs_members(sizes, ids, names, user, n - 1, x);
        if pairs_upto(sizes, ids, names, user, n - 1).contains(x) {
            let i = choose|i: int|
                0 <= i < n - 1 && (#[trigger] sizes.dir_names()[i]) == x.0 && ids.contains_key(x.0)
                    && events::user_name(x.1, names) == user && ingest::size_in(
                    sizes.lists()[i]@,
                    x.1,
                ) > 0;
            assert(sizes.dir_names()[i] == x.0);
        }
        assert(sizes.dir_names()[n - 1] == sizes.dir_names()[n - 1]);
    }
}

proof fn lemma_dirs_counted(
    first: DetailBuild,
    b: DetailBuild,
    sizes: DirSizes,
    owners: Seq<DirOwnerModel>,
    names: Map<u32, Seq<char>>,
    user: Seq<char>,
    n: int,
)
    requires
        begun(first, sizes, owners, names),
        grown(first, b),
        b.users.numbers().contains_key(user),
        n <= sizes.dir_names().len(),
    ensures
        pairs_upto(sizes, first.tree.dir_id_of@, names, user, n).finite(),
        pairs_upto(sizes, first.tree.dir_id_of@, names, user, n).len() == report::dir_entries(
            sizes,
            first.tree.dir_id_of@,
            first.users,
            names,
            b.users.numbers()[user],
            n,
        ),
    decreases n,
{
    let ids = first.tree.dir_id_of@;
    if n > 0 {
        lemma_dirs_counted(first, b, sizes, owners, names, user, n - 1);
        sizes.lemma_wf();
        let base = pairs_upto(sizes, ids, names, user, n - 1);
        let p = sizes.dir_names()[n - 1];
        let list = sizes.lists()[n - 1]@;
        if ids.contains_key(p) {
            assert forall|x: (Seq<char>, u32)| #[trigger] base.contains(x) implies x.0 != p by {
                lemma_pairs_members(sizes, ids, names, user, n - 1, x);
            }
            assert(ingest::list_ok(sizes.lists()[n - 1]@));
            assert forall|j: int| 0 <= j < list.len() && (#[trigger] list[j]).1 > 0 implies (
            users::number_of(first.users, names, list[j].0) == b.users.numbers()[user]
                <==> events::user_name(list[j].0, names) == user) by {
                let m = sizes.dir_names().len() as int;
                let who = events::user_name(list[j].0, names);
                lemma_sizes_named(sizes, ids, names, m, n - 1, j);
                lemma_join_contains(
                    report::owner_names(owners, ids, names),
                    report::size_names(sizes, ids, names, m),
                    who,
                );
                lemma_first_known(first, sizes, owners, names, who);
                lemma_number_is_user(first, b, names, list[j].0, user);
            }
            lemma_pairs_counted(base, p, list, first.users, names, user, b.users.numbers()[user]);
        }
    }
}

// ---------------------------------------------------------------------------
// Directories of an owner
// ---------------------------------------------------------------------------

/// Whether the last record of the directory at a path names a user for its owner.
pub open spec fn owned_by(
    evs: Seq<DirOwnerModel>,
    path: Seq<char>,
    names: Map<u32, Seq<char>>,
    user: Seq<char>,
) -> bool {
    exists|j: int|
        {
            &&& 0 <= j < evs.len()
            &&& (#[trigger] evs[j]).path == path
            &&& events::user_name(evs[j].uid, names) == user
            &&& forall|i: int| j < i < evs.len() ==> (#[trigger] evs[i]).path != path
        }
}

proof fn lemma_last_record(evs: Seq<DirOwnerModel>, path: Seq<char>)
    ensures
        match report::last_owner(evs, path) {
            None => forall|i: int| 0 <= i < evs.len() ==> (#[trigger] evs[i]).path != path,
            Some(u) => exists|j: int|
                {
                    &&& 0 <= j < evs.len()
                    &&& (#[trigger] evs[j]).path == path
                    &&& evs[j].uid == u
                    &&& forall|i: int| j < i < evs.len() ==> (#[trigger] evs[i]).path != path
                },
        },
    decreases evs.len(),
{
    if evs.len() > 0 {
        let k = evs.len() - 1;
        if evs.last().path == path {
            assert(evs[k].path == path);
        } else {
            let head = evs.drop_last();
            lemma_last_record(head, path);
            assert(evs[k].path != path);
            match report::last_owner(head, path) {
                None => {
                    assert forall|i: int| 0 <= i < evs.len() implies (#[trigger] evs[i]).path
                        != path by {
                        if i < k {
                            assert(head[i] == evs[i]);
                        }
                    }
                },
                Some(u) => {
                    let j = choose|j: int|
                        {
                            &&& 0 <= j < head.len()
                            &&& (#[trigger] head[j]).path == path
                            &&& head[j].uid == u
                            &&& forall|i: int|
                                j < i < head.len() ==> (#[trigger] head[i]).path != path
                        };
                    assert(evs[j].path == path && evs[j].uid == u);
                    assert forall|i: int| j < i < evs.len() implies (#[trigger] evs[i]).path
                        != path by {
                        if i < k {
                            assert(head[i] == evs[i]);
                        }
                    }
                },
            }
        }
    }
}

proof fn lemma_owner_is_user(
    first: DetailBuild,
    b: DetailBuild,
    sizes: DirSizes,
    owners: Seq<DirOwnerModel>,
    names: Map<u32, Seq<char>>,
    user: Seq<char>,
    d: int,
)
    requires
        begun(first, sizes, owners, names),
        grown(first, b),
        b.users.numbers().contains_key(user),
        b.users.numbers()[user] >= 0,
        0 <= d < first.owners@.len(),
    ensures
        first.owners@[d] == b.users.numbers()[user] <==> owned_by(
            owners,
            first.tree.paths@[d],
            names,
            user,
        ),
{
    let path = first.tree.paths@[d];
    let ids = first.tree.dir_id_of@;
    lemma_last_record(owners, path);
    assert(first.owners@[d] == report::owner_number(
        report::last_owner(owners, path),
        first.users,
        names,
    ));
    if report::last_owner(owners, path) is Some {
        let u = report::last_owner(owners, path)->0;
        let j = choose|j: int|
            {
                &&& 0 <= j < owners.len()
                &&& (#[trigger] owners[j]).path == path
                &&& owners[j].uid == u
                &&& forall|i: int| j < i < owners.len() ==> (#[trigger] owners[i]).path != path
            };
        assert(first.tree.paths@.contains(path));
        assert(ids.contains_key(path));
        lemma_owners_named(owners, ids, names, j);
        let who = events::user_name(u, names);
        lemma_join_contains(
            report::owner_names(owners, ids, names),
            report::size_names(sizes, ids, names, sizes.dir_names().len() as int),
            who,
        );
        lemma_first_known(first, sizes, owners, names, who);
        lemma_number_is_user(first, b, names, u, user);
        if who == user {
            assert(owners[j].path == path && events::user_name(owners[j].uid, names) == user);
        }
        if owned_by(owners, path, names, user) {
            let k = choose|k: int|
                {
                    &&& 0 <= k < owners.len()
                    &&& (#[trigger] owners[k]).path == path
                    &&& events::user_name(owners[k].uid, names) == user
                    &&& forall|i: int| k < i < owners.len() ==> (#[trigger] owners[i]).path != path
                };
            assert(k == j) by {
                if k < j {
                    assert(owners[j].path != path);
                }
                if j < k {
                    assert(owners[k].path != path);
                }
            }
        }
    }
}

proof fn lemma_owned_set(owners: Seq<i64>, uid: i64, n: int, s: Set<int>)
    requires
        0 <= n,
        forall|d: int| #[trigger] s.contains(d) <==> 0 <= d < n && owners[d] == uid,
    ensures
        s.finite(),
        s.len() == report::owned_count(owners, uid, n),
    decreases n,
{
    if n == 0 {
        assert(s =~= Set::empty());
    } else {
        let head = s.remove(n - 1);
        assert forall|d: int| #[trigger] head.contains(d) <==> 0 <= d < n - 1 && owners[d]
            == uid by {
            assert(s.contains(d) <==> 0 <= d < n && owners[d] == uid);
        }
        lemma_owned_set(owners, uid, n - 1, head);
        assert(s.contains(n - 1) <==> owners[n - 1] == uid);
        if owners[n - 1] == uid {
            assert(s =~= head.insert(n - 1));
        } else {
            assert(s =~= head);
        }
    }
}

// ---------------------------------------------------------------------------
// Laws
// ---------------------------------------------------------------------------

/// The directories of a tree with each uid of a user that takes something directly in
/// them.
pub open spec fn holdings(
    paths: Seq<Seq<char>>,
    sizes: DirSizes,
    names: Map<u32, Seq<char>>,
    user: Seq<char>,
) -> Set<(Seq<char>, u32)> {
    Set::new(
        |x: (Seq<char>, u32)|
            paths.contains(x.0) && events::user_name(x.1, names) == user && sizes.size_at(x.0, x.1)
                > 0,
    )
}

proof fn lemma_user_of_row(
    b: DetailBuild,
    shares: Seq<Share>,
    rows: Seq<UserRowModel>,
    teams: Map<Seq<char>, String>,
    k: int,
)
    requires
        arrival::counted(b, shares),
        arrival::table_rows(b, rows, teams),
        0 <= k < rows.len(),
    ensures
        b.users.numbers().contains_key(rows[k].username),
        b.users.numbers()[rows[k].username] == b.totals.by_user@[0]@[k].uid,
        b.users.numbers()[rows[k].username] >= 0,
{
    let list = b.totals.by_user@[0]@;
    assert(rows[k].username == report::listed_name(b.users.names(), list[k].uid));
    assert(tally::has_uid(list, list[k].uid));
    let i = choose|i: int|
        0 <= i < shares.len() && arrival::share_uid(b, #[trigger] shares[i]) == list[k].uid;
    assert(b.users.numbers().contains_key(shares[i].name));
    assert(b.users.model().numbers.contains_key(shares[i].name));
    assert(b.users.names()[list[k].uid] == shares[i].name);
}

/// In the users table of a report a row counts the directories of the tree in which its
/// user takes something directly, each once for every uid of the user that does, and the
/// directories of the tree whose last recorded owner the user is. Its number is the
/// user's, and it counts no issues and is no target's.
pub proof fn law_rows_count_directories(
    first: DetailBuild,
    b: DetailBuild,
    shares: Seq<Share>,
    rows: Seq<UserRowModel>,
    teams: Map<Seq<char>, String>,
    sizes: DirSizes,
    owners: Seq<DirOwnerModel>,
    names: Map<u32, Seq<char>>,
    k: int,
)
    requires
        begun(first, sizes, owners, names),
        grown(first, b),
        arrival::counted(b, shares),
        arrival::table_rows(b, rows, teams),
        0 <= k < rows.len(),
    ensures
        holdings(b.tree.paths@, sizes, names, rows[k].username).finite(),
        rows[k].total_dirs == holdings(b.tree.paths@, sizes, names, rows[k].username).len(),
        Set::new(
            |d: int|
                0 <= d < b.tree.paths@.len() && owned_by(
                    owners,
                    b.tree.paths@[d],
                    names,
                    rows[k].username,
                ),
        ).finite(),
        rows[k].owned_dirs == Set::new(
            |d: int|
                0 <= d < b.tree.paths@.len() && owned_by(
                    owners,
                    b.tree.paths@[d],
                    names,
                    rows[k].username,
                ),
        ).len(),
        rows[k].uid == b.users.numbers()[rows[k].username],
        rows[k].permission_issues == 0,
        rows[k].is_target == 0,
{
    let user = rows[k].username;
    let n = b.tree.paths@.len() as int;
    let m = sizes.dir_names().len() as int;
    let ids = first.tree.dir_id_of@;
    lemma_user_of_row(b, shares, rows, teams, k);
    let uid = b.users.numbers()[user];
    lemma_dirs_counted(first, b, sizes, owners, names, user, m);
    sizes.lemma_wf();
    let got = pairs_upto(sizes, ids, names, user, m);
    let want = holdings(b.tree.paths@, sizes, names, user);
    assert forall|x: (Seq<char>, u32)| got.contains(x) <==> want.contains(x) by {
        lemma_pairs_members(sizes, ids, names, user, m, x);
        assert(ids.contains_key(x.0) <==> first.tree.paths@.contains(x.0));
        let at = sizes.dir_names().index_of(x.0);
        if sizes.dir_names().contains(x.0) {
            assert(sizes.dir_names()[at] == x.0);
        }
        if got.contains(x) {
            let i = choose|i: int|
                0 <= i < m && (#[trigger] sizes.dir_names()[i]) == x.0 && ids.contains_key(x.0)
                    && events::user_name(x.1, names) == user && ingest::size_in(
                    sizes.lists()[i]@,
                    x.1,
                ) > 0;
            assert(sizes.dir_names().contains(x.0));
            assert(i == at);
        }
    }
    assert(got =~= want);
    let mine = Set::new(
        |d: int| 0 <= d < n && owned_by(owners, b.tree.paths@[d], names, user),
    );
    assert forall|d: int| #[trigger] mine.contains(d) <==> 0 <= d < n && b.owners@[d] == uid by {
        if 0 <= d < n {
            lemma_owner_is_user(first, b, sizes, owners, names, user, d);
        }
    }
    lemma_owned_set(b.owners@, uid, n, mine);
}

/// Whether the files that a scan recorded directly in a directory take something for a
/// user.
pub open spec fn takes_part(
    evs: Seq<ScanModel>,
    names: Map<u32, Seq<char>>,
    dir: Seq<char>,
    user: Seq<char>,
) -> bool {
    exists|j: int|
        {
            &&& 0 <= j < evs.len()
            &&& events::user_name((#[trigger] evs[j]).uid, names) == user
            &&& ingest::dir_of(evs[j]) == Some(dir)
            &&& evs[j].size > 0
        }
}

proof fn lemma_some_file(evs: Seq<ScanModel>, dir: Seq<char>, uid: u32)
    ensures
        ingest::dir_bytes(evs, dir, uid) >= 0,
        ingest::dir_bytes(evs, dir, uid) > 0 <==> exists|j: int|
            0 <= j < evs.len() && (#[trigger] evs[j]).uid == uid && ingest::dir_of(evs[j]) == Some(
                dir,
            ) && evs[j].size > 0,
    decreases evs.len(),
{
    if evs.len() > 0 {
        let head = evs.drop_last();
        let k = evs.len() - 1;
        lemma_some_file(head, dir, uid);
        if exists|j: int|
            0 <= j < head.len() && (#[trigger] head[j]).uid == uid && ingest::dir_of(head[j])
                == Some(dir) && head[j].size > 0 {
            let j = choose|j: int|
                0 <= j < head.len() && (#[trigger] head[j]).uid == uid && ingest::dir_of(head[j])
                    == Some(dir) && head[j].size > 0;
            assert(evs[j] == head[j]);
        }
        if exists|j: int|
            0 <= j < evs.len() && (#[trigger] evs[j]).uid == uid && ingest::dir_of(evs[j]) == Some(
                dir,
            ) && evs[j].size > 0 {
            let j = choose|j: int|
                0 <= j < evs.len() && (#[trigger] evs[j]).uid == uid && ingest::dir_of(evs[j])
                    == Some(dir) && evs[j].size > 0;
            if j < k {
                assert(head[j] == evs[j]);
            }
        }
        assert(evs[k] == evs.last());
    }
}

/// Where the sizes are those of the files that a scan recorded, and no two uids of them
/// go by the user's name, the directories that a row counts are those of the tree in
/// which a file of the user takes something.
pub proof fn law_rows_count_directories_of_files(
    first: DetailBuild,
    b: DetailBuild,
    shares: Seq<Share>,
    rows: Seq<UserRowModel>,
    teams: Map<Seq<char>, String>,
    sizes: DirSizes,
    owners: Seq<DirOwnerModel>,
    names: Map<u32, Seq<char>>,
    evs: Seq<ScanModel>,
    k: int,
)
    requires
        begun(first, sizes, owners, names),
        grown(first, b),
        arrival::counted(b, shares),
        arrival::table_rows(b, rows, teams),
        0 <= k < rows.len(),
        forall|d: Seq<char>, u: u32| #[trigger]
            sizes.size_at(d, u) == ingest::dir_bytes(evs, d, u),
        forall|i: int, j: int|
            0 <= i < evs.len() && 0 <= j < evs.len() && events::user_name(
                (#[trigger] evs[i]).uid,
                names,
            ) == rows[k].username && events::user_name((#[trigger] evs[j]).uid, names)
                == rows[k].username ==> evs[i].uid == evs[j].uid,
    ensures
        rows[k].total_dirs == Set::new(
            |d: Seq<char>|
                b.tree.paths@.contains(d) && takes_part(evs, names, d, rows[k].username),
        ).len(),
{
    let user = rows[k].username;
    law_rows_count_directories(first, b, shares, rows, teams, sizes, owners, names, k);
    let pairs = holdings(b.tree.paths@, sizes, names, user);
    let dirs = Set::new(
        |d: Seq<char>| b.tree.paths@.contains(d) && takes_part(evs, names, d, user),
    );
    let f = |x: (Seq<char>, u32)| x.0;
    assert forall|x: (Seq<char>, u32)| #[trigger] pairs.contains(x) implies dirs.contains(x.0)
        && exists|j: int|
        0 <= j < evs.len() && (#[trigger] evs[j]).uid == x.1 by {
        assert(sizes.size_at(x.0, x.1) == ingest::dir_bytes(evs, x.0, x.1));
        lemma_some_file(evs, x.0, x.1);
        let j = choose|j: int|
            0 <= j < evs.len() && (#[trigger] evs[j]).uid == x.1 && ingest::dir_of(evs[j]) == Some(
                x.0,
            ) && evs[j].size > 0;
        assert(events::user_name(evs[j].uid, names) == user);
    }
    assert forall|x: (Seq<char>, u32), y: (Seq<char>, u32)|
        pairs.contains(x) && pairs.contains(y) && #[trigger] f(x) == #[trigger] f(y) implies x
        == y by {
        let i = choose|i: int| 0 <= i < evs.len() && (#[trigger] evs[i]).uid == x.1;
        let j = choose|j: int| 0 <= j < evs.len() && (#[trigger] evs[j]).uid == y.1;
        assert(events::user_name(evs[i].uid, names) == user);
        assert(events::user_name(evs[j].uid, names) == user);
    }
    assert forall|d: Seq<char>| #[trigger] dirs.contains(d) implies exists|x: (Seq<char>, u32)|
        pairs.contains(x) && #[trigger] f(x) == d by {
        let j = choose|j: int|
            {
                &&& 0 <= j < evs.len()
                &&& events::user_name((#[trigger] evs[j]).uid, names) == user
                &&& ingest::dir_of(evs[j]) == Some(d)
                &&& evs[j].size > 0
            };
        let x = (d, evs[j].uid);
        lemma_some_file(evs, d, evs[j].uid);
        assert(sizes.size_at(d, evs[j].uid) == ingest::dir_bytes(evs, d, evs[j].uid));
        assert(pairs.contains(x));
        assert(f(x) == d);
    }
    lemma_same_number(pairs, dirs);
}

proof fn lemma_same_number(pairs: Set<(Seq<char>, u32)>, dirs: Set<Seq<char>>)
    requires
        pairs.finite(),
        forall|x: (Seq<char>, u32)| #[trigger] pairs.contains(x) ==> dirs.contains(x.0),
        forall|x: (Seq<char>, u32), y: (Seq<char>, u32)|
            #[trigger] pairs.contains(x) && #[trigger] pairs.contains(y) && x.0 == y.0 ==> x == y,
        forall|d: Seq<char>| #[trigger]
            dirs.contains(d) ==> exists|x: (Seq<char>, u32)| #[trigger]
                pairs.contains(x) && x.0 == d,
    ensures
        dirs.finite(),
        dirs.len() == pairs.len(),
    decreases pairs.len(),
{
    if pairs.len() == 0 {
        assert(pairs =~= Set::empty());
        assert(dirs =~= Set::empty());
    } else {
        let x = pairs.choose();
        assert(pairs.contains(x));
        let rest = pairs.remove(x);
        let left = dirs.remove(x.0);
        assert forall|y: (Seq<char>, u32)| #[trigger] rest.contains(y) implies left.contains(
            y.0,
        ) by {
            assert(pairs.contains(y));
        }
        assert forall|d: Seq<char>| #[trigger] left.contains(d) implies exists|
            y: (Seq<char>, u32),
        |
            #[trigger] rest.contains(y) && y.0 == d by {
            assert(dirs.contains(d));
            let y = choose|y: (Seq<char>, u32)| #[trigger] pairs.contains(y) && y.0 == d;
            assert(rest.contains(y));
        }
        lemma_same_number(rest, left);
        assert(dirs =~= left.insert(x.0));
    }
}

proof fn lemma_dir_row_at(
    lists: Seq<Vec<tally::Tally>>,
    dirs: Seq<DirRowDraft>,
    paths: Seq<Seq<char>>,
    owners: Seq<i64>,
    n: int,
    i: int,
) -> (at: (int, int))
    requires
        0 <= n <= lists.len(),
        0 <= i < report::dir_rows_of(lists, dirs, paths, owners, n).len(),
    ensures
        0 <= at.0 < n,
        0 <= at.1 < lists[at.0]@.len(),
        report::dir_rows_of(lists, dirs, paths, owners, n)[i] == report::dir_row_of(
            lists[at.0]@[at.1],
            at.0,
            dirs[at.0],
            paths[at.0],
            owners[at.0],
        ),
    decreases n,
{
    let a = report::dir_rows_of(lists, dirs, paths, owners, n - 1);
    if i < a.len() {
        lemma_dir_row_at(lists, dirs, paths, owners, n - 1, i)
    } else {
        (n - 1, i - a.len())
    }
}

proof fn lemma_has_dir_row(
    lists: Seq<Vec<tally::Tally>>,
    dirs: Seq<DirRowDraft>,
    paths: Seq<Seq<char>>,
    owners: Seq<i64>,
    n: int,
    d: int,
    j: int,
) -> (i: int)
    requires
        0 <= n <= lists.len(),
        0 <= d < n,
        0 <= j < lists[d]@.len(),
    ensures
        0 <= i < report::dir_rows_of(lists, dirs, paths, owners, n).len(),
        report::dir_rows_of(lists, dirs, paths, owners, n)[i] == report::dir_row_of(
            lists[d]@[j],
            d,
            dirs[d],
            paths[d],
            owners[d],
        ),
    decreases n,
{
    let a = report::dir_rows_of(lists, dirs, paths, owners, n - 1);
    if d < n - 1 {
        lemma_has_dir_row(lists, dirs, paths, owners, n - 1, d, j)
    } else {
        a.len() + j
    }
}

/// The directories table of a report: a row gives what one user's files in one directory
/// of the tree add up to, and at least one of them is there. It names the directory by
/// its path and its parent, and the directory's owner where one is known.
pub proof fn law_directory_rows_of_users(
    b: DetailBuild,
    shares: Seq<Share>,
    rows: Seq<DetailDirModel>,
    i: int,
)
    requires
        arrival::counted(b, shares),
        rows == report::dir_rows_of(
            b.totals.by_dir@,
            b.tree.dirs_in_order@,
            detail::listed_paths(b.tree),
            b.owners@,
            b.tree.paths@.len() as int,
        ),
        forall|k: int|
            1 <= k < b.tree.paths@.len() ==> report::plain(#[trigger] b.tree.paths@[k]),
        0 <= i < rows.len(),
    ensures
        0 <= rows[i].id < b.tree.paths@.len(),
        rows[i].path == b.tree.paths@[rows[i].id],
        rows[i].id == 0 <==> rows[i].parent_id is None,
        rows[i].parent_id matches Some(p) ==> 0 <= p < rows[i].id && b.tree.paths@[p]
            == paths::parent_of(rows[i].path),
        b.owners@[rows[i].id] >= 0 ==> rows[i].owner_uid == b.owners@[rows[i].id],
        b.owners@[rows[i].id] < 0 ==> rows[i].owner_uid == 0,
        exists|k: int|
            {
                &&& 0 <= k < shares.len()
                &&& arrival::share_uid(b, #[trigger] shares[k]) == rows[i].uid
                &&& rows[i].size == report::rows_size(shares[k].rows, rows[i].id)
                &&& rows[i].files == report::rows_count(shares[k].rows, rows[i].id)
                &&& rows[i].files > 0
            },
{
    let lists = b.totals.by_dir@;
    let n = b.tree.paths@.len() as int;
    let shown = detail::listed_paths(b.tree);
    let (d, j) = lemma_dir_row_at(lists, b.tree.dirs_in_order@, shown, b.owners@, n, i);
    let t = lists[d]@[j];
    report::law_listed_paths_are_full(b.tree, d);
    b.totals.by_dir.lemma_wf();
    assert(tally::tallies_ok(lists[d]@));
    assert(tally::has_uid(lists[d]@, t.uid));
    let k = choose|k: int|
        0 <= k < shares.len() && arrival::share_uid(b, #[trigger] shares[k]) == t.uid
            && report::rows_count(shares[k].rows, d) > 0;
    arrival::lemma_present(lists[d]@, j);
    assert(b.totals.by_dir.size_at(d, arrival::share_uid(b, shares[k])) == report::rows_size(
        shares[k].rows,
        d,
    ));
    assert(b.totals.by_dir.size_at(d, t.uid) == tally::tally_size(lists[d]@, t.uid));
    assert(b.totals.by_dir.files_at(d, t.uid) == tally::tally_files(lists[d]@, t.uid));
    if d > 0 {
        assert(b.tree.dirs_in_order@[d].parent_id is Some);
    }
}

/// The directories table misses nothing: where a user has files in a directory of the
/// tree, that directory has a row for the user.
pub proof fn law_directories_with_files_have_rows(
    b: DetailBuild,
    shares: Seq<Share>,
    rows: Seq<DetailDirModel>,
    k: int,
    d: int,
)
    requires
        arrival::counted(b, shares),
        rows == report::dir_rows_of(
            b.totals.by_dir@,
            b.tree.dirs_in_order@,
            detail::listed_paths(b.tree),
            b.owners@,
            b.tree.paths@.len() as int,
        ),
        0 <= k < shares.len(),
        0 <= d < b.tree.paths@.len(),
        report::rows_count(shares[k].rows, d) > 0,
    ensures
        exists|i: int|
            0 <= i < rows.len() && (#[trigger] rows[i]).id == d && rows[i].uid
                == arrival::share_uid(b, shares[k]),
{
    let lists = b.totals.by_dir@;
    let n = b.tree.paths@.len() as int;
    let shown = detail::listed_paths(b.tree);
    let uid = arrival::share_uid(b, shares[k]);
    assert(tally::has_uid(lists[d]@, uid));
    let j = choose|j: int| 0 <= j < lists[d]@.len() && (#[trigger] lists[d]@[j]).uid == uid;
    let i = lemma_has_dir_row(lists, b.tree.dirs_in_order@, shown, b.owners@, n, d, j);
    assert(rows[i].id == d);
}

/// A row of the files table leads back to its file: the directory's path is that of the
/// file's parent where the tree knows it, the name is the last segment of the file's
/// path, and the size and the extension are the file's own, of the user that it was
/// counted for.
pub proof fn law_file_rows_lead_to_files(
    tree: PathTree,
    m: NumberingModel,
    r: RowModel,
    c: CompactRow,
    uid: i64,
    row: FileRowModel,
)
    requires
        tree.wf(),
        spill::is_compact(c, r, m, tree.dir_id_of@, tree.root@),
        row == report::file_row_of(c, uid, m.exts),
    ensures
        row.uid == uid,
        row.size == r.size,
        row.ext == r.ext,
        0 <= row.name_id < m.names.len(),
        m.names[row.name_id] == paths::base_name(r.path),
        0 <= row.dir_id < tree.paths@.len(),
        (paths::named_parent(r.path) matches Some(p) && tree.paths@.contains(p))
            ==> tree.paths@[row.dir_id] == paths::named_parent(r.path)->0,
        !(paths::named_parent(r.path) matches Some(p) && tree.paths@.contains(p))
            ==> tree.paths@[row.dir_id] == tree.root@,
{
    let parent = match paths::named_parent(r.path) {
        Some(p) => p,
        None => tree.root@,
    };
    assert(tree.dir_id_of@.contains_key(parent) <==> tree.paths@.contains(parent));
    assert(tree.paths@[0] == tree.root@);
}

/// The `meta` table of a report gives the number and the bytes of all files that the scan
/// recorded, the number of the tree's directories, the root and the time.
pub proof fn law_meta_of_a_scan(
    b: DetailBuild,
    shares: Seq<Share>,
    evs: Seq<ScanModel>,
    names: Map<u32, Seq<char>>,
    timestamp: int,
    treemap_db: Seq<char>,
    meta: Seq<(Seq<char>, Seq<char>)>,
)
    requires
        arrival::counted(b, shares),
        arrival::shares_of(shares, evs, names),
        meta == report::detail_meta_of(
            b.tree.root@,
            timestamp,
            b.totals.by_dir.file_sum(),
            b.tree.paths@.len(),
            b.totals.by_dir.size_sum(),
            treemap_db,
        ),
    ensures
        meta.contains(("total_files"@, text::dec(evs.len()))),
        meta.contains(("total_size"@, text::dec_int(ingest::all_bytes(evs)))),
        meta.contains(("total_dirs"@, text::dec(b.tree.paths@.len()))),
        meta.contains(("scan_root"@, b.tree.root@)),
        meta.contains(("scan_timestamp"@, text::dec_int(timestamp))),
        meta.contains(("schema_version"@, "1"@)),
        meta.len() == 7,
{
    arrival::law_totals_are_those_of_all_records(b, shares, evs, names);
    assert(meta[0] == ("scan_root"@, b.tree.root@));
    assert(meta[1] == ("scan_timestamp"@, text::dec_int(timestamp)));
    assert(meta[2] == ("total_files"@, text::dec(evs.len())));
    assert(meta[3] == ("total_dirs"@, text::dec(b.tree.paths@.len())));
    assert(meta[4] == ("total_size"@, text::dec_int(ingest::all_bytes(evs))));
    assert(meta[5] == ("schema_version"@, "1"@));
}

} // verus!
