//! That everything a scan recorded arrives in its report: each file of a user is
//! counted once, for that user and for nobody else.

use crate::db::UserRowModel;
use crate::detail::DetailBuild;
use crate::detail;
use crate::events::DirOwnerModel;
use crate::events::ScanModel;
use crate::events;
use crate::ingest::DirSizes;
use crate::ingest;
use crate::report;
use crate::scope;
use crate::spill::CompactRow;
use crate::spill::RowModel;
use crate::tally::Tally;
use crate::tally;
use crate::users::FIRST_SYNTHETIC_UID;
use crate::users::TableModel;
use crate::users;
use vstd::prelude::*;

verus! {

/// The files of one user that were counted.
pub ghost struct Share {
    pub name: Seq<char>,
    pub rows: Seq<CompactRow>,
}

/// The users whose files were counted.
pub open spec fn share_names(shares: Seq<Share>) -> Seq<Seq<char>> {
    shares.map_values(|s: Share| s.name)
}

/// The number of all files that were counted.
pub open spec fn share_files(shares: Seq<Share>) -> int
    decreases shares.len(),
{
    if shares.len() == 0 {
        0
    } else {
        share_files(shares.drop_last()) + shares.last().rows.len()
    }
}

/// The bytes of all files that were counted.
pub open spec fn share_bytes(shares: Seq<Share>) -> int
    decreases shares.len(),
{
    if shares.len() == 0 {
        0
    } else {
        share_bytes(shares.drop_last()) + report::rows_total(shares.last().rows)
    }
}

/// The number of the user of a share.
pub open spec fn share_uid(b: DetailBuild, s: Share) -> i64 {
    b.users.numbers()[s.name]
}

/// A report before any file was counted, in which each number leads to its user.
pub open spec fn fresh(b: DetailBuild) -> bool {
    &&& b.wf()
    &&& users::settled(b.users.model())
    &&& b.totals.by_dir.size_sum() == 0
    &&& b.totals.by_dir.file_sum() == 0
    &&& forall|d: int|
        0 <= d < b.totals.by_dir@.len() ==> (#[trigger] b.totals.by_dir@[d])@ == Seq::<
            Tally,
        >::empty()
    &&& b.totals.by_user@[0]@ == Seq::<Tally>::empty()
}

/// `b` is the report with the files of `shares` and no others: a user has a place
/// exactly if it has a share, with the files and bytes of that share, in all and
/// in each directory.
pub open spec fn counted(b: DetailBuild, shares: Seq<Share>) -> bool {
    &&& b.wf()
    &&& users::settled(b.users.model())
    &&& share_names(shares).no_duplicates()
    &&& b.totals.by_dir.file_sum() == share_files(shares)
    &&& b.totals.by_dir.size_sum() == share_bytes(shares)
    &&& forall|i: int|
        0 <= i < shares.len() ==> b.users.numbers().contains_key((#[trigger] shares[i]).name)
    &&& forall|u: i64| #[trigger]
        tally::has_uid(b.totals.by_user@[0]@, u) <==> exists|i: int|
            0 <= i < shares.len() && share_uid(b, #[trigger] shares[i]) == u
    &&& forall|i: int|
        0 <= i < shares.len() ==> {
            let s = #[trigger] shares[i];
            let u = share_uid(b, s);
            &&& b.totals.by_user.size_at(0, u) == report::rows_total(s.rows)
            &&& b.totals.by_user.files_at(0, u) == s.rows.len()
        }
    &&& forall|d: int, i: int|
        0 <= d < b.totals.by_dir@.len() && 0 <= i < shares.len() ==> {
            let s = shares[i];
            let u = share_uid(b, s);
            &&& #[trigger] b.totals.by_dir.size_at(d, share_uid(b, shares[i])) == report::rows_size(
                s.rows,
                d,
            )
            &&& b.totals.by_dir.files_at(d, u) == report::rows_count(s.rows, d)
        }
    &&& forall|d: int, u: i64|
        0 <= d < b.totals.by_dir@.len() ==> (#[trigger] tally::has_uid(b.totals.by_dir@[d]@, u)
            <==> exists|i: int|
            0 <= i < shares.len() && share_uid(b, #[trigger] shares[i]) == u && report::rows_count(
                shares[i].rows,
                d,
            ) > 0)
}

proof fn lemma_absent(s: Seq<Tally>, u: i64)
    requires
        !tally::has_uid(s, u),
    ensures
        tally::tally_size(s, u) == 0,
        tally::tally_files(s, u) == 0,
    decreases s.len(),
{
    if s.len() > 0 {
        assert(s[s.len() - 1].uid != u);
        assert(!tally::has_uid(s.drop_last(), u)) by {
            if tally::has_uid(s.drop_last(), u) {
                let i = choose|i: int|
                    0 <= i < s.drop_last().len() && (#[trigger] s.drop_last()[i]).uid == u;
                assert(s[i].uid == u);
            }
        }
        lemma_absent(s.drop_last(), u);
    }
}

pub proof fn lemma_present(s: Seq<Tally>, k: int)
    requires
        tally::tallies_ok(s),
        0 <= k < s.len(),
    ensures
        tally::tally_size(s, s[k].uid) == s[k].size,
        tally::tally_files(s, s[k].uid) == s[k].files,
    decreases s.len(),
{
    let t = s.drop_last();
    assert(tally::tallies_ok(t)) by {
        assert forall|i: int, j: int| 0 <= i < j < t.len() implies (#[trigger] t[i]).uid < (
        #[trigger] t[j]).uid by {
            assert(s[i].uid < s[j].uid);
        }
        assert forall|i: int| 0 <= i < t.len() implies (#[trigger] t[i]).size >= 0 && t[i].files
            >= 0 by {
            assert(s[i].size >= 0);
        }
    }
    if k == s.len() - 1 {
        assert(!tally::has_uid(t, s[k].uid)) by {
            if tally::has_uid(t, s[k].uid) {
                let i = choose|i: int| 0 <= i < t.len() && (#[trigger] t[i]).uid == s[k].uid;
                assert(s[i].uid < s[k].uid);
            }
        }
        lemma_absent(t, s[k].uid);
    } else {
        lemma_present(t, k);
        assert(t[k] == s[k]);
        assert(s[k].uid < s[s.len() - 1].uid);
    }
}

proof fn lemma_rows_join(a: Seq<CompactRow>, b: Seq<CompactRow>, d: int)
    ensures
        report::rows_total(a + b) == report::rows_total(a) + report::rows_total(b),
        report::rows_size(a + b, d) == report::rows_size(a, d) + report::rows_size(b, d),
        report::rows_count(a + b, d) == report::rows_count(a, d) + report::rows_count(b, d),
    decreases b.len(),
{
    if b.len() == 0 {
        assert(a + b =~= a);
    } else {
        lemma_rows_join(a, b.drop_last(), d);
        assert((a + b).drop_last() =~= a + b.drop_last());
        assert((a + b).last() == b.last());
    }
}

proof fn lemma_share_update(shares: Seq<Share>, k: int, s: Share)
    requires
        0 <= k < shares.len(),
    ensures
        share_files(shares.update(k, s)) == share_files(shares) - shares[k].rows.len()
            + s.rows.len(),
        share_bytes(shares.update(k, s)) == share_bytes(shares) - report::rows_total(shares[k].rows)
            + report::rows_total(s.rows),
    decreases shares.len(),
{
    let t = shares.update(k, s);
    if k == shares.len() - 1 {
        assert(t.drop_last() =~= shares.drop_last());
    } else {
        lemma_share_update(shares.drop_last(), k, s);
        assert(t.drop_last() =~= shares.drop_last().update(k, s));
        assert(t.last() == shares.last());
    }
}

/// Two users of a settled table have two numbers.
proof fn lemma_numbers_differ(b: DetailBuild, x: Seq<char>, y: Seq<char>)
    requires
        users::settled(b.users.model()),
        b.users.numbers().contains_key(x),
        b.users.numbers().contains_key(y),
        b.users.numbers()[x] == b.users.numbers()[y],
    ensures
        x == y,
{
    assert(b.users.model().numbers.contains_key(x));
    assert(b.users.model().numbers.contains_key(y));
}

/// A report before any file is one without shares.
pub proof fn law_nothing_is_counted_at_first(b: DetailBuild)
    requires
        fresh(b),
    ensures
        counted(b, Seq::empty()),
{
}

/// Beginning a user that has no share gives it one without files.
pub proof fn law_begun_users_have_a_share(
    a: DetailBuild,
    b: DetailBuild,
    shares: Seq<Share>,
    name: Seq<char>,
    uid: i64,
)
    requires
        counted(a, shares),
        b.wf(),
        detail::user_begun(a, b, name, uid),
        !share_names(shares).contains(name),
    ensures
        counted(b, shares.push(Share { name, rows: Seq::empty() })),
{
    let now = shares.push(Share { name, rows: Seq::empty() });
    let m = a.users.model();
    let one = seq![name];
    assert(one.drop_last() =~= Seq::<Seq<char>>::empty());
    assert(users::learned_all(m, one.drop_last()) == m);
    assert(users::learned_all(m, one) == b.users.model());
    a.users.lemma_next();
    b.users.lemma_next();
    if m.numbers.contains_key(name) {
        assert(b.users.model() == m);
    } else {
        users::lemma_stays_settled(m, one);
    }
    assert(now.drop_last() =~= shares);
    assert(share_names(now) =~= share_names(shares).push(name));
    assert(share_names(now).no_duplicates()) by {
        let ns = share_names(shares);
        assert forall|i: int, j: int|
            0 <= i < ns.push(name).len() && 0 <= j < ns.push(name).len() && i != j implies ns.push(
            name,
        )[i] != ns.push(name)[j] by {
            if i == ns.len() {
                assert(ns[j] != name);
            } else if j == ns.len() {
                assert(ns[i] != name);
            }
        }
    }
    assert forall|i: int| 0 <= i < shares.len() implies #[trigger] share_uid(b, shares[i])
        == share_uid(a, shares[i]) && b.users.numbers().contains_key(shares[i].name) by {
        assert(a.users.numbers().contains_key(shares[i].name));
    }
    assert(b.users.numbers().contains_key(name));
    assert(share_uid(b, now.last()) == uid);
    assert forall|i: int| 0 <= i < shares.len() implies #[trigger] share_uid(b, shares[i]) != uid by {
        assert(b.users.numbers().contains_key(shares[i].name));
        if share_uid(b, shares[i]) == uid {
            lemma_numbers_differ(b, shares[i].name, name);
            assert(share_names(shares)[i] == name);
        }
    }
    assert(!tally::has_uid(a.totals.by_user@[0]@, uid)) by {
        if tally::has_uid(a.totals.by_user@[0]@, uid) {
            let i = choose|i: int| 0 <= i < shares.len() && share_uid(a, #[trigger] shares[i]) == uid;
            assert(share_uid(b, shares[i]) == uid);
        }
    }
    lemma_absent(a.totals.by_user@[0]@, uid);
    assert(a.totals.by_user.size_at(0, uid) == 0);
    assert forall|u: i64| #[trigger] tally::has_uid(b.totals.by_user@[0]@, u) <==> exists|i: int|
        0 <= i < now.len() && share_uid(b, #[trigger] now[i]) == u by {
        if tally::has_uid(a.totals.by_user@[0]@, u) {
            let i = choose|i: int| 0 <= i < shares.len() && share_uid(a, #[trigger] shares[i]) == u;
            assert(now[i] == shares[i]);
            assert(share_uid(b, shares[i]) == u);
        }
        if u == uid {
            assert(share_uid(b, now[shares.len() as int]) == u);
        }
        if exists|i: int| 0 <= i < now.len() && share_uid(b, #[trigger] now[i]) == u {
            let i = choose|i: int| 0 <= i < now.len() && share_uid(b, #[trigger] now[i]) == u;
            if i < shares.len() {
                assert(share_uid(b, shares[i]) == share_uid(a, shares[i]));
                assert(share_uid(a, shares[i]) == u);
            }
        }
    }
    assert forall|i: int| 0 <= i < now.len() implies ({
        let s = #[trigger] now[i];
        let u = share_uid(b, s);
        &&& b.totals.by_user.size_at(0, u) == report::rows_total(s.rows)
        &&& b.totals.by_user.files_at(0, u) == s.rows.len()
    }) by {
        let u = share_uid(b, now[i]);
        assert(b.totals.by_user.size_at(0, u) == a.totals.by_user.size_at(0, u));
        assert(b.totals.by_user.files_at(0, u) == a.totals.by_user.files_at(0, u));
        if i < shares.len() {
            assert(share_uid(b, shares[i]) == share_uid(a, shares[i]));
        }
    }
    assert forall|d: int, u: i64| 0 <= d < b.totals.by_dir@.len() implies (
    #[trigger] tally::has_uid(b.totals.by_dir@[d]@, u) <==> exists|i: int|
        0 <= i < now.len() && share_uid(b, #[trigger] now[i]) == u && report::rows_count(
            now[i].rows,
            d,
        ) > 0) by {
        assert(tally::has_uid(a.totals.by_dir@[d]@, u) == tally::has_uid(b.totals.by_dir@[d]@, u));
        if tally::has_uid(a.totals.by_dir@[d]@, u) {
            let i = choose|i: int|
                0 <= i < shares.len() && share_uid(a, #[trigger] shares[i]) == u
                    && report::rows_count(shares[i].rows, d) > 0;
            assert(now[i] == shares[i]);
            assert(share_uid(b, shares[i]) == u);
        }
        if exists|i: int|
            0 <= i < now.len() && share_uid(b, #[trigger] now[i]) == u && report::rows_count(
                now[i].rows,
                d,
            ) > 0 {
            let i = choose|i: int|
                0 <= i < now.len() && share_uid(b, #[trigger] now[i]) == u && report::rows_count(
                    now[i].rows,
                    d,
                ) > 0;
            assert(i < shares.len());
            assert(share_uid(b, shares[i]) == share_uid(a, shares[i]));
        }
    }
    assert forall|d: int, i: int|
        0 <= d < b.totals.by_dir@.len() && 0 <= i < now.len() implies #[trigger] b.totals.by_dir.size_at(
        d,
        share_uid(b, now[i]),
    ) == report::rows_size(now[i].rows, d) && b.totals.by_dir.files_at(d, share_uid(b, now[i]))
        == report::rows_count(now[i].rows, d) by {
        if i < shares.len() {
            assert(now[i] == shares[i]);
            assert(share_uid(b, shares[i]) == share_uid(a, shares[i]));
            assert(a.totals.by_dir.size_at(d, share_uid(a, shares[i])) == report::rows_size(
                shares[i].rows,
                d,
            ));
        } else {
            assert(!tally::has_uid(b.totals.by_dir@[d]@, uid)) by {
                if tally::has_uid(b.totals.by_dir@[d]@, uid) {
                    let k = choose|k: int|
                        0 <= k < now.len() && share_uid(b, #[trigger] now[k]) == uid
                            && report::rows_count(now[k].rows, d) > 0;
                    assert(k < shares.len());
                    assert(share_uid(b, shares[k]) == uid);
                }
            }
            lemma_absent(b.totals.by_dir@[d]@, uid);
        }
    }
}

/// Counting a file of a user adds its rows to the user's share and changes no
/// other share.
pub proof fn law_added_files_join_the_share(
    a: DetailBuild,
    b: DetailBuild,
    shares: Seq<Share>,
    k: int,
    rows: Seq<CompactRow>,
)
    requires
        counted(a, shares),
        b.wf(),
        0 <= k < shares.len(),
        detail::file_added(a, b, share_uid(a, shares[k]), rows),
    ensures
        counted(
            b,
            shares.update(k, Share { name: shares[k].name, rows: shares[k].rows + rows }),
        ),
{
    let s0 = shares[k];
    let s1 = Share { name: s0.name, rows: s0.rows + rows };
    let now = shares.update(k, s1);
    let uid = share_uid(a, s0);
    lemma_share_update(shares, k, s1);
    lemma_rows_join(s0.rows, rows, 0);
    assert(share_names(now) =~= share_names(shares));
    assert forall|i: int| 0 <= i < now.len() implies #[trigger] share_uid(b, now[i]) == share_uid(
        a,
        shares[i],
    ) && (share_uid(b, now[i]) == uid <==> i == k) && b.users.numbers().contains_key(
        now[i].name,
    ) by {
        assert(a.users.numbers().contains_key(shares[i].name));
        assert(a.users.numbers().contains_key(shares[k].name));
        if share_uid(a, shares[i]) == uid {
            lemma_numbers_differ(a, shares[i].name, shares[k].name);
            assert(share_names(shares)[i] == share_names(shares)[k]);
        }
    }
    assert forall|u: i64| #[trigger] tally::has_uid(b.totals.by_user@[0]@, u) <==> exists|i: int|
        0 <= i < now.len() && share_uid(b, #[trigger] now[i]) == u by {
        if tally::has_uid(b.totals.by_user@[0]@, u) {
            if u == uid {
                assert(share_uid(b, now[k]) == u);
            } else {
                let i = choose|i: int|
                    0 <= i < shares.len() && share_uid(a, #[trigger] shares[i]) == u;
                assert(share_uid(b, now[i]) == u);
            }
        }
        if exists|i: int| 0 <= i < now.len() && share_uid(b, #[trigger] now[i]) == u {
            let i = choose|i: int| 0 <= i < now.len() && share_uid(b, #[trigger] now[i]) == u;
            assert(share_uid(a, shares[i]) == u);
        }
    }
    assert forall|i: int| 0 <= i < now.len() implies ({
        let s = #[trigger] now[i];
        let u = share_uid(b, s);
        &&& b.totals.by_user.size_at(0, u) == report::rows_total(s.rows)
        &&& b.totals.by_user.files_at(0, u) == s.rows.len()
    }) by {
        let u = share_uid(b, now[i]);
        assert(u == share_uid(a, shares[i]));
        assert(a.totals.by_user.size_at(0, u) == report::rows_total(shares[i].rows));
        assert(a.totals.by_user.files_at(0, u) == shares[i].rows.len());
        assert(b.totals.by_user.size_at(0, u) == a.totals.by_user.size_at(0, u) + (if u == uid {
            report::rows_total(rows)
        } else {
            0
        }));
        assert(b.totals.by_user.files_at(0, u) == a.totals.by_user.files_at(0, u) + (if u == uid {
            rows.len() as int
        } else {
            0
        }));
    }
    assert forall|d: int, i: int|
        0 <= d < b.totals.by_dir@.len() && 0 <= i < now.len() implies #[trigger] b.totals.by_dir.size_at(
        d,
        share_uid(b, now[i]),
    ) == report::rows_size(now[i].rows, d) && b.totals.by_dir.files_at(d, share_uid(b, now[i]))
        == report::rows_count(now[i].rows, d) by {
        let u = share_uid(b, now[i]);
        assert(u == share_uid(a, shares[i]));
        lemma_rows_join(s0.rows, rows, d);
        assert(a.totals.by_dir.size_at(d, share_uid(a, shares[i])) == report::rows_size(
            shares[i].rows,
            d,
        ));
        assert(b.totals.by_dir.files_at(d, u) == a.totals.by_dir.files_at(d, u) + (if u == uid {
            report::rows_count(rows, d)
        } else {
            0
        }));
    }
    assert forall|d: int, u: i64| 0 <= d < b.totals.by_dir@.len() implies (
    #[trigger] tally::has_uid(b.totals.by_dir@[d]@, u) <==> exists|i: int|
        0 <= i < now.len() && share_uid(b, #[trigger] now[i]) == u && report::rows_count(
            now[i].rows,
            d,
        ) > 0) by {
        lemma_rows_join(s0.rows, rows, d);
        report::lemma_rows_count_nonneg(s0.rows, d);
        report::lemma_rows_count_nonneg(rows, d);
        assert(tally::has_uid(b.totals.by_dir@[d]@, u) <==> tally::has_uid(
            a.totals.by_dir@[d]@,
            u,
        ) || (u == uid && report::rows_count(rows, d) > 0));
        if tally::has_uid(a.totals.by_dir@[d]@, u) {
            let i = choose|i: int|
                0 <= i < shares.len() && share_uid(a, #[trigger] shares[i]) == u
                    && report::rows_count(shares[i].rows, d) > 0;
            assert(share_uid(b, now[i]) == u);
        }
        if u == uid && report::rows_count(rows, d) > 0 {
            assert(share_uid(b, now[k]) == u);
        }
        if exists|i: int|
            0 <= i < now.len() && share_uid(b, #[trigger] now[i]) == u && report::rows_count(
                now[i].rows,
                d,
            ) > 0 {
            let i = choose|i: int|
                0 <= i < now.len() && share_uid(b, #[trigger] now[i]) == u && report::rows_count(
                    now[i].rows,
                    d,
                ) > 0;
            assert(share_uid(a, shares[i]) == u);
            if i != k {
                assert(now[i] == shares[i]);
            }
        }
    }
}

/// Whether `r` is the row of the user of a share, by its name, its team and what
/// its files add up to.
pub open spec fn is_row_of(r: UserRowModel, s: Share, teams: Map<Seq<char>, String>) -> bool {
    &&& r.username == s.name
    &&& r.team_id == report::team_of(teams, s.name)
    &&& r.total_files == s.rows.len()
    &&& r.total_size == report::rows_total(s.rows)
}

/// The rows of the users table: exactly one for each user that has a share.
pub open spec fn one_row_each(
    rows: Seq<UserRowModel>,
    shares: Seq<Share>,
    teams: Map<Seq<char>, String>,
) -> bool {
    &&& rows.len() == shares.len()
    &&& rows.map_values(|r: UserRowModel| r.username).no_duplicates()
    &&& forall|k: int|
        0 <= k < rows.len() ==> exists|i: int|
            0 <= i < shares.len() && is_row_of(#[trigger] rows[k], #[trigger] shares[i], teams)
    &&& forall|i: int|
        0 <= i < shares.len() ==> exists|k: int|
            0 <= k < rows.len() && is_row_of(#[trigger] rows[k], #[trigger] shares[i], teams)
}

/// The rows that the users table of a report gets.
pub open spec fn table_rows(
    b: DetailBuild,
    rows: Seq<UserRowModel>,
    teams: Map<Seq<char>, String>,
) -> bool {
    let list = b.totals.by_user@[0]@;
    &&& rows.len() == list.len()
    &&& forall|i: int|
        0 <= i < rows.len() ==> #[trigger] rows[i] == report::user_row_of(
            list[i],
            b.users.names(),
            teams,
            b.weights.dir_counts.files_at(0, list[i].uid),
            report::owned_count(b.owners@, list[i].uid, b.tree.paths@.len() as int),
        )
}

/// The users table has exactly one row for each user that has a share, with the
/// user's name, its team, and the number and bytes of its files.
pub proof fn law_one_row_for_each_user(
    b: DetailBuild,
    shares: Seq<Share>,
    rows: Seq<UserRowModel>,
    teams: Map<Seq<char>, String>,
)
    requires
        counted(b, shares),
        table_rows(b, rows, teams),
    ensures
        one_row_each(rows, shares, teams),
{
    let list = b.totals.by_user@[0]@;
    let f = |r: UserRowModel| r.username;
    b.totals.by_user.lemma_wf();
    assert(tally::tallies_ok(list));
    assert forall|k: int| 0 <= k < rows.len() implies exists|i: int|
        0 <= i < shares.len() && is_row_of(#[trigger] rows[k], #[trigger] shares[i], teams)
            && share_uid(b, shares[i]) == list[k].uid by {
        assert(tally::has_uid(list, list[k].uid));
        let i = choose|i: int|
            0 <= i < shares.len() && share_uid(b, #[trigger] shares[i]) == list[k].uid;
        lemma_row_is_share(b, shares, rows, teams, k, i);
    }
    assert forall|i: int| 0 <= i < shares.len() implies exists|k: int|
        0 <= k < rows.len() && is_row_of(#[trigger] rows[k], #[trigger] shares[i], teams) by {
        let u = share_uid(b, shares[i]);
        assert(tally::has_uid(list, u));
        let k = choose|k: int| 0 <= k < list.len() && (#[trigger] list[k]).uid == u;
        lemma_row_is_share(b, shares, rows, teams, k, i);
        assert(is_row_of(rows[k], shares[i], teams));
    }
    let got = rows.map_values(f);
    let want = share_names(shares);
    assert(got.no_duplicates()) by {
        assert forall|x: int, y: int|
            0 <= x < got.len() && 0 <= y < got.len() && x != y implies got[x] != got[y] by {
            let i = choose|i: int|
                0 <= i < shares.len() && is_row_of(rows[x], #[trigger] shares[i], teams)
                    && share_uid(b, shares[i]) == list[x].uid;
            let j = choose|j: int|
                0 <= j < shares.len() && is_row_of(rows[y], #[trigger] shares[j], teams)
                    && share_uid(b, shares[j]) == list[y].uid;
            assert(list[x].uid != list[y].uid);
            if got[x] == got[y] {
                assert(shares[i].name == shares[j].name);
            }
        }
    }
    assert(got.to_set() =~= want.to_set()) by {
        assert forall|n: Seq<char>| got.to_set().contains(n) <==> want.to_set().contains(n) by {
            if got.contains(n) {
                let k = choose|k: int| 0 <= k < got.len() && got[k] == n;
                let i = choose|i: int|
                    0 <= i < shares.len() && is_row_of(rows[k], #[trigger] shares[i], teams);
                assert(want[i] == n);
            }
            if want.contains(n) {
                let i = choose|i: int| 0 <= i < want.len() && want[i] == n;
                let k = choose|k: int|
                    0 <= k < rows.len() && is_row_of(#[trigger] rows[k], shares[i], teams);
                assert(got[k] == n);
            }
        }
    }
    got.unique_seq_to_set();
    want.unique_seq_to_set();
}

proof fn lemma_row_is_share(
    b: DetailBuild,
    shares: Seq<Share>,
    rows: Seq<UserRowModel>,
    teams: Map<Seq<char>, String>,
    k: int,
    i: int,
)
    requires
        counted(b, shares),
        table_rows(b, rows, teams),
        0 <= k < rows.len(),
        0 <= i < shares.len(),
        share_uid(b, shares[i]) == b.totals.by_user@[0]@[k].uid,
    ensures
        is_row_of(rows[k], shares[i], teams),
{
    let list = b.totals.by_user@[0]@;
    b.totals.by_user.lemma_wf();
    assert(tally::tallies_ok(list));
    lemma_present(list, k);
    assert(b.users.numbers().contains_key(shares[i].name));
    assert(b.users.model().numbers.contains_key(shares[i].name));
    assert(b.users.names()[list[k].uid] == shares[i].name);
    let u = share_uid(b, shares[i]);
    assert(b.totals.by_user.size_at(0, u) == tally::tally_size(list, u));
    assert(b.totals.by_user.files_at(0, u) == tally::tally_files(list, u));
}

// ---------------------------------------------------------------------------
// From records to files
// ---------------------------------------------------------------------------

/// The bytes of rows with paths.
pub open spec fn spilled_bytes(rows: Seq<RowModel>) -> int
    decreases rows.len(),
{
    if rows.len() == 0 {
        0
    } else {
        spilled_bytes(rows.drop_last()) + rows.last().size
    }
}

/// The bytes of a user among scan events.
pub open spec fn user_bytes(evs: Seq<ScanModel>, names: Map<u32, Seq<char>>, user: Seq<char>) -> int
    decreases evs.len(),
{
    if evs.len() == 0 {
        0
    } else {
        user_bytes(evs.drop_last(), names, user) + (if events::user_name(evs.last().uid, names)
            == user {
            evs.last().size as int
        } else {
            0
        })
    }
}

/// The number of a user's files among scan events.
pub open spec fn user_files(evs: Seq<ScanModel>, names: Map<u32, Seq<char>>, user: Seq<char>) -> int
    decreases evs.len(),
{
    if evs.len() == 0 {
        0
    } else {
        user_files(evs.drop_last(), names, user) + (if events::user_name(evs.last().uid, names)
            == user {
            1int
        } else {
            0
        })
    }
}

/// The rows of several files, one after the other.
pub open spec fn joined(parts: Seq<Seq<RowModel>>) -> Seq<RowModel>
    decreases parts.len(),
{
    if parts.len() == 0 {
        Seq::empty()
    } else {
        joined(parts.drop_last()) + parts.last()
    }
}

/// The rows of several numbered files, one after the other.
pub open spec fn joined_files(files: Seq<Seq<CompactRow>>) -> Seq<CompactRow>
    decreases files.len(),
{
    if files.len() == 0 {
        Seq::empty()
    } else {
        joined_files(files.drop_last()) + files.last()
    }
}

proof fn lemma_same_sizes(file: Seq<CompactRow>, rows: Seq<RowModel>)
    requires
        detail::same_sizes(file, rows),
    ensures
        report::rows_total(file) == spilled_bytes(rows),
    decreases rows.len(),
{
    if rows.len() > 0 {
        assert(file[rows.len() - 1].size == rows.last().size);
        assert forall|i: int| 0 <= i < rows.len() - 1 implies (
        #[trigger] file.drop_last()[i]).size == rows.drop_last()[i].size by {
            assert(file[i].size == rows[i].size);
        }
        lemma_same_sizes(file.drop_last(), rows.drop_last());
    }
}

proof fn lemma_user_rows(evs: Seq<ScanModel>, names: Map<u32, Seq<char>>, user: Seq<char>)
    ensures
        spilled_bytes(ingest::rows_by(evs, names, user)) == user_bytes(evs, names, user),
        ingest::rows_by(evs, names, user).len() == user_files(evs, names, user),
    decreases evs.len(),
{
    if evs.len() > 0 {
        lemma_user_rows(evs.drop_last(), names, user);
        let r = ingest::rows_by(evs.drop_last(), names, user);
        let row = ingest::row_of(evs.last());
        assert(r.push(row).drop_last() =~= r);
    }
}

proof fn lemma_joined_sizes(parts: Seq<Seq<RowModel>>, files: Seq<Seq<CompactRow>>)
    requires
        files.len() == parts.len(),
        forall|k: int| 0 <= k < parts.len() ==> detail::same_sizes(#[trigger] files[k], parts[k]),
    ensures
        detail::same_sizes(joined_files(files), joined(parts)),
    decreases parts.len(),
{
    if parts.len() > 0 {
        let n = parts.len() - 1;
        assert(detail::same_sizes(files[n], parts[n]));
        assert forall|k: int| 0 <= k < n implies detail::same_sizes(
            #[trigger] files.drop_last()[k],
            parts.drop_last()[k],
        ) by {
            assert(detail::same_sizes(files[k], parts[k]));
        }
        lemma_joined_sizes(parts.drop_last(), files.drop_last());
        let (a, b) = (joined_files(files.drop_last()), files.last());
        let (x, y) = (joined(parts.drop_last()), parts.last());
        assert forall|i: int| 0 <= i < (x + y).len() implies (#[trigger] (a + b)[i]).size == (x
            + y)[i].size by {
            if i < x.len() {
                assert(a[i].size == x[i].size);
            } else {
                assert(b[i - x.len()].size == y[i - x.len()].size);
            }
        }
    }
}

/// Every file that a scan recorded for a user arrives in the user's numbered files
/// with its bytes, however the user's rows were split on the way.
pub proof fn law_every_file_of_a_user_arrives(
    evs: Seq<ScanModel>,
    names: Map<u32, Seq<char>>,
    user: Seq<char>,
    parts: Seq<Seq<RowModel>>,
    files: Seq<Seq<CompactRow>>,
)
    requires
        joined(parts) == ingest::rows_by(evs, names, user),
        files.len() == parts.len(),
        forall|k: int| 0 <= k < parts.len() ==> detail::same_sizes(#[trigger] files[k], parts[k]),
    ensures
        detail::same_sizes(joined_files(files), ingest::rows_by(evs, names, user)),
        joined_files(files).len() == user_files(evs, names, user),
        report::rows_total(joined_files(files)) == user_bytes(evs, names, user),
{
    lemma_joined_sizes(parts, files);
    lemma_same_sizes(joined_files(files), joined(parts));
    lemma_user_rows(evs, names, user);
}

// ---------------------------------------------------------------------------
// From a scan to its report
// ---------------------------------------------------------------------------

/// A report that was started on users below the first number that is given out is
/// fresh.
pub proof fn law_started_reports_are_fresh(
    b: DetailBuild,
    sizes: DirSizes,
    owners: Seq<DirOwnerModel>,
    uids: Map<u32, Seq<char>>,
)
    requires
        b.wf(),
        exists|t: TableModel| #[trigger]
            users::table_of(t, uids) && b.users.model() == users::learned_all(
                t,
                detail::first_users(b.tree.dir_id_of@, sizes, owners, uids),
            ),
        FIRST_SYNTHETIC_UID + owners.len() + report::entry_count(
            sizes,
            sizes.dir_names().len() as int,
        ) <= i64::MAX,
        forall|u: u32| #[trigger] uids.contains_key(u) ==> u < FIRST_SYNTHETIC_UID,
        b.totals.by_dir.size_sum() == 0,
        b.totals.by_dir.file_sum() == 0,
        forall|d: int|
            0 <= d < b.tree.paths@.len() ==> (#[trigger] b.totals.by_dir@[d])@ == Seq::<
                Tally,
            >::empty(),
        b.totals.by_user@[0]@ == Seq::<Tally>::empty(),
    ensures
        fresh(b),
{
    let t = choose|t: TableModel| #[trigger]
        users::table_of(t, uids) && b.users.model() == users::learned_all(
            t,
            detail::first_users(b.tree.dir_id_of@, sizes, owners, uids),
        );
    report::lemma_owner_names_len(owners, b.tree.dir_id_of@, uids);
    report::lemma_size_names_len(sizes, b.tree.dir_id_of@, uids, sizes.dir_names().len() as int);
    users::law_numbers_lead_to_their_users(
        t,
        uids,
        detail::first_users(b.tree.dir_id_of@, sizes, owners, uids),
    );
}

/// Whether the shares are those of a scan: one for each user with a record, with a
/// row for each of its records.
pub open spec fn shares_of(
    shares: Seq<Share>,
    evs: Seq<ScanModel>,
    names: Map<u32, Seq<char>>,
) -> bool {
    &&& share_names(shares).no_duplicates()
    &&& forall|j: int|
        0 <= j < evs.len() ==> share_names(shares).contains(
            events::user_name((#[trigger] evs[j]).uid, names),
        )
    &&& forall|i: int|
        0 <= i < shares.len() ==> detail::same_sizes(
            (#[trigger] shares[i]).rows,
            ingest::rows_by(evs, names, shares[i].name),
        ) && shares[i].rows.len() > 0
}

/// The files of all the shares' users among scan events.
pub open spec fn files_of_all(
    shares: Seq<Share>,
    evs: Seq<ScanModel>,
    names: Map<u32, Seq<char>>,
) -> int
    decreases shares.len(),
{
    if shares.len() == 0 {
        0
    } else {
        files_of_all(shares.drop_last(), evs, names) + user_files(evs, names, shares.last().name)
    }
}

/// The bytes of all the shares' users among scan events.
pub open spec fn bytes_of_all(
    shares: Seq<Share>,
    evs: Seq<ScanModel>,
    names: Map<u32, Seq<char>>,
) -> int
    decreases shares.len(),
{
    if shares.len() == 0 {
        0
    } else {
        bytes_of_all(shares.drop_last(), evs, names) + user_bytes(evs, names, shares.last().name)
    }
}

proof fn lemma_shares_sum(shares: Seq<Share>, evs: Seq<ScanModel>, names: Map<u32, Seq<char>>)
    requires
        forall|i: int|
            0 <= i < shares.len() ==> detail::same_sizes(
                (#[trigger] shares[i]).rows,
                ingest::rows_by(evs, names, shares[i].name),
            ),
    ensures
        share_files(shares) == files_of_all(shares, evs, names),
        share_bytes(shares) == bytes_of_all(shares, evs, names),
    decreases shares.len(),
{
    if shares.len() > 0 {
        let head = shares.drop_last();
        let s = shares[shares.len() - 1];
        assert forall|i: int| 0 <= i < head.len() implies detail::same_sizes(
            (#[trigger] head[i]).rows,
            ingest::rows_by(evs, names, head[i].name),
        ) by {
            assert(head[i] == shares[i]);
        }
        lemma_shares_sum(head, evs, names);
        assert(detail::same_sizes(s.rows, ingest::rows_by(evs, names, s.name)));
        lemma_same_sizes(s.rows, ingest::rows_by(evs, names, s.name));
        lemma_user_rows(evs, names, s.name);
    }
}

/// One more event counts once more, for its user.
proof fn lemma_one_event(shares: Seq<Share>, evs: Seq<ScanModel>, names: Map<u32, Seq<char>>)
    requires
        evs.len() > 0,
        share_names(shares).no_duplicates(),
    ensures
        ({
            let has = share_names(shares).contains(events::user_name(evs.last().uid, names));
            &&& files_of_all(shares, evs, names) == files_of_all(shares, evs.drop_last(), names)
                + (if has {
                1int
            } else {
                0
            })
            &&& bytes_of_all(shares, evs, names) == bytes_of_all(shares, evs.drop_last(), names)
                + (if has {
                evs.last().size as int
            } else {
                0
            })
        }),
    decreases shares.len(),
{
    let who = events::user_name(evs.last().uid, names);
    let ns = share_names(shares);
    if shares.len() > 0 {
        let head = shares.drop_last();
        let hs = share_names(head);
        assert(hs =~= ns.drop_last());
        assert(hs.no_duplicates()) by {
            assert forall|i: int, j: int| 0 <= i < hs.len() && 0 <= j < hs.len() && i
                != j implies hs[i] != hs[j] by {
                assert(ns[i] != ns[j]);
            }
        }
        lemma_one_event(head, evs, names);
        assert(ns[ns.len() - 1] == shares.last().name);
        if hs.contains(who) {
            let i = choose|i: int| 0 <= i < hs.len() && hs[i] == who;
            assert(ns[i] == who);
            assert(ns[i] != ns[ns.len() - 1]);
        }
        if ns.contains(who) && shares.last().name != who {
            let i = choose|i: int| 0 <= i < ns.len() && ns[i] == who;
            assert(hs[i] == who);
        }
    }
}

proof fn lemma_shares_are_all(shares: Seq<Share>, evs: Seq<ScanModel>, names: Map<u32, Seq<char>>)
    requires
        share_names(shares).no_duplicates(),
        forall|j: int|
            0 <= j < evs.len() ==> share_names(shares).contains(
                events::user_name((#[trigger] evs[j]).uid, names),
            ),
    ensures
        files_of_all(shares, evs, names) == evs.len(),
        bytes_of_all(shares, evs, names) == ingest::all_bytes(evs),
    decreases evs.len(),
{
    if evs.len() == 0 {
        lemma_no_events(shares, names);
        assert(evs =~= Seq::<ScanModel>::empty());
    } else {
        let head = evs.drop_last();
        assert forall|j: int| 0 <= j < head.len() implies share_names(shares).contains(
            events::user_name((#[trigger] head[j]).uid, names),
        ) by {
            assert(head[j] == evs[j]);
        }
        lemma_shares_are_all(shares, head, names);
        lemma_one_event(shares, evs, names);
        assert(evs[evs.len() - 1] == evs.last());
    }
}

proof fn lemma_no_events(shares: Seq<Share>, names: Map<u32, Seq<char>>)
    ensures
        files_of_all(shares, Seq::empty(), names) == 0,
        bytes_of_all(shares, Seq::empty(), names) == 0,
    decreases shares.len(),
{
    if shares.len() > 0 {
        lemma_no_events(shares.drop_last(), names);
    }
}

proof fn lemma_has_event(evs: Seq<ScanModel>, names: Map<u32, Seq<char>>, user: Seq<char>)
    requires
        user_files(evs, names, user) > 0,
    ensures
        exists|j: int|
            0 <= j < evs.len() && events::user_name((#[trigger] evs[j]).uid, names) == user,
    decreases evs.len(),
{
    if events::user_name(evs.last().uid, names) == user {
        assert(events::user_name(evs[evs.len() - 1].uid, names) == user);
    } else {
        lemma_has_event(evs.drop_last(), names, user);
        let head = evs.drop_last();
        let j = choose|j: int|
            0 <= j < head.len() && events::user_name((#[trigger] head[j]).uid, names) == user;
        assert(evs[j] == head[j]);
    }
}

/// Whether the scan recorded a file of a user.
pub open spec fn owns_files(evs: Seq<ScanModel>, names: Map<u32, Seq<char>>, user: Seq<char>) -> bool {
    exists|j: int| 0 <= j < evs.len() && events::user_name((#[trigger] evs[j]).uid, names) == user
}

/// Whether a user has a row.
pub open spec fn has_row(rows: Seq<UserRowModel>, user: Seq<char>) -> bool {
    exists|k: int| 0 <= k < rows.len() && (#[trigger] rows[k]).username == user
}

/// Whether a row gives the user's team and the number and bytes of all its files.
pub open spec fn tells_of(
    r: UserRowModel,
    teams: Map<Seq<char>, String>,
    evs: Seq<ScanModel>,
    names: Map<u32, Seq<char>>,
) -> bool {
    &&& r.team_id == report::team_of(teams, r.username)
    &&& r.total_files == user_files(evs, names, r.username)
    &&& r.total_size == user_bytes(evs, names, r.username)
}

proof fn lemma_row_tells(
    r: UserRowModel,
    s: Share,
    teams: Map<Seq<char>, String>,
    evs: Seq<ScanModel>,
    names: Map<u32, Seq<char>>,
)
    requires
        is_row_of(r, s, teams),
        detail::same_sizes(s.rows, ingest::rows_by(evs, names, s.name)),
        s.rows.len() > 0,
    ensures
        tells_of(r, teams, evs, names),
        owns_files(evs, names, r.username),
{
    lemma_same_sizes(s.rows, ingest::rows_by(evs, names, s.name));
    lemma_user_rows(evs, names, s.name);
    lemma_has_event(evs, names, s.name);
}

/// The report of a scan: its users table has exactly one row for each user that
/// the scan recorded a file of, with the user's name and team and the number and
/// bytes of all its files; and its totals are those of all records.
pub proof fn law_report_of_a_scan(
    b: DetailBuild,
    shares: Seq<Share>,
    rows: Seq<UserRowModel>,
    teams: Map<Seq<char>, String>,
    evs: Seq<ScanModel>,
    names: Map<u32, Seq<char>>,
)
    requires
        counted(b, shares),
        table_rows(b, rows, teams),
        shares_of(shares, evs, names),
    ensures
        rows.map_values(|r: UserRowModel| r.username).no_duplicates(),
        forall|user: Seq<char>| #[trigger]
            has_row(rows, user) <==> owns_files(evs, names, user),
        forall|k: int| 0 <= k < rows.len() ==> tells_of(#[trigger] rows[k], teams, evs, names),
        b.totals.by_dir.file_sum() == evs.len(),
        b.totals.by_dir.size_sum() == ingest::all_bytes(evs),
{
    law_one_row_for_each_user(b, shares, rows, teams);
    lemma_shares_sum(shares, evs, names);
    lemma_shares_are_all(shares, evs, names);
    lemma_rows_tell(shares, rows, teams, evs, names);
}

/// The totals of a report are those of all records of the scan.
pub proof fn law_totals_are_those_of_all_records(
    b: DetailBuild,
    shares: Seq<Share>,
    evs: Seq<ScanModel>,
    names: Map<u32, Seq<char>>,
)
    requires
        counted(b, shares),
        shares_of(shares, evs, names),
    ensures
        b.totals.by_dir.file_sum() == evs.len(),
        b.totals.by_dir.size_sum() == ingest::all_bytes(evs),
{
    lemma_shares_sum(shares, evs, names);
    lemma_shares_are_all(shares, evs, names);
}

proof fn lemma_rows_tell(
    shares: Seq<Share>,
    rows: Seq<UserRowModel>,
    teams: Map<Seq<char>, String>,
    evs: Seq<ScanModel>,
    names: Map<u32, Seq<char>>,
)
    requires
        one_row_each(rows, shares, teams),
        shares_of(shares, evs, names),
    ensures
        forall|user: Seq<char>| #[trigger]
            has_row(rows, user) <==> owns_files(evs, names, user),
        forall|k: int| 0 <= k < rows.len() ==> tells_of(#[trigger] rows[k], teams, evs, names),
{
    assert forall|k: int| 0 <= k < rows.len() implies tells_of(
        #[trigger] rows[k],
        teams,
        evs,
        names,
    ) && owns_files(evs, names, rows[k].username) by {
        let i = choose|i: int|
            0 <= i < shares.len() && is_row_of(rows[k], #[trigger] shares[i], teams);
        lemma_row_tells(rows[k], shares[i], teams, evs, names);
    }
    assert forall|user: Seq<char>| #[trigger] has_row(rows, user) <==> owns_files(
        evs,
        names,
        user,
    ) by {
        if has_row(rows, user) {
            let k = choose|k: int| 0 <= k < rows.len() && (#[trigger] rows[k]).username == user;
            assert(tells_of(rows[k], teams, evs, names));
        }
        if owns_files(evs, names, user) {
            let j = choose|j: int|
                0 <= j < evs.len() && events::user_name((#[trigger] evs[j]).uid, names) == user;
            let ns = share_names(shares);
            assert(ns.contains(user));
            let i = choose|i: int| 0 <= i < ns.len() && ns[i] == user;
            assert(shares[i].name == user);
            let k = choose|k: int|
                0 <= k < rows.len() && is_row_of(#[trigger] rows[k], shares[i], teams);
            assert(rows[k].username == user);
        }
    }
}

// ---------------------------------------------------------------------------
// The report of a target below another one
// ---------------------------------------------------------------------------

/// The number and the bytes of a user's files among the records in scope.
pub open spec fn user_in_scope(
    evs: Seq<ScanModel>,
    names: Map<u32, Seq<char>>,
    user: Seq<char>,
    prefix: Option<Seq<char>>,
) -> (int, int)
    decreases evs.len(),
{
    if evs.len() == 0 {
        (0, 0)
    } else {
        let (n, size) = user_in_scope(evs.drop_last(), names, user, prefix);
        let e = evs.last();
        if events::user_name(e.uid, names) == user && scope::in_scope(e.path, prefix) {
            (n + 1, size + e.size)
        } else {
            (n, size)
        }
    }
}

/// The number and the bytes of the records in scope.
pub open spec fn all_in_scope(evs: Seq<ScanModel>, prefix: Option<Seq<char>>) -> (int, int)
    decreases evs.len(),
{
    if evs.len() == 0 {
        (0, 0)
    } else {
        let (n, size) = all_in_scope(evs.drop_last(), prefix);
        if scope::in_scope(evs.last().path, prefix) {
            (n + 1, size + evs.last().size)
        } else {
            (n, size)
        }
    }
}

/// Whether the scan recorded a file of a user in scope.
pub open spec fn owns_files_in_scope(
    evs: Seq<ScanModel>,
    names: Map<u32, Seq<char>>,
    user: Seq<char>,
    prefix: Option<Seq<char>>,
) -> bool {
    exists|j: int|
        0 <= j < evs.len() && events::user_name((#[trigger] evs[j]).uid, names) == user
            && scope::in_scope(evs[j].path, prefix)
}

proof fn lemma_taken_counts(
    evs: Seq<ScanModel>,
    names: Map<u32, Seq<char>>,
    user: Seq<char>,
    prefix: Option<Seq<char>>,
)
    ensures
        user_in_scope(evs, names, user, prefix) == (
            user_files(scope::scans_in(evs, prefix), names, user),
            user_bytes(scope::scans_in(evs, prefix), names, user),
        ),
        all_in_scope(evs, prefix) == (
            scope::scans_in(evs, prefix).len() as int,
            ingest::all_bytes(scope::scans_in(evs, prefix)),
        ),
    decreases evs.len(),
{
    reveal(Seq::filter);
    if evs.len() > 0 {
        let rest = evs.drop_last();
        let before = scope::scans_in(rest, prefix);
        lemma_taken_counts(rest, names, user, prefix);
        assert(before.push(evs.last()).drop_last() =~= before);
        assert(before.push(evs.last()).last() == evs.last());
    }
}

/// The report of a target counts exactly the records below its prefix: its users
/// table has one row for each user that the scan recorded a file of there, with the
/// user's name and team and the number and bytes of its files there; and its totals
/// are those of the records there.
pub proof fn law_report_below_a_prefix(
    b: DetailBuild,
    shares: Seq<Share>,
    rows: Seq<UserRowModel>,
    teams: Map<Seq<char>, String>,
    evs: Seq<ScanModel>,
    names: Map<u32, Seq<char>>,
    prefix: Option<Seq<char>>,
)
    requires
        counted(b, shares),
        table_rows(b, rows, teams),
        shares_of(shares, scope::scans_in(evs, prefix), names),
    ensures
        rows.map_values(|r: UserRowModel| r.username).no_duplicates(),
        forall|user: Seq<char>| #[trigger]
            has_row(rows, user) <==> owns_files_in_scope(evs, names, user, prefix),
        forall|k: int|
            0 <= k < rows.len() ==> {
                let r = #[trigger] rows[k];
                &&& r.team_id == report::team_of(teams, r.username)
                &&& (r.total_files as int, r.total_size as int) == user_in_scope(
                    evs,
                    names,
                    r.username,
                    prefix,
                )
            },
        (b.totals.by_dir.file_sum(), b.totals.by_dir.size_sum()) == all_in_scope(evs, prefix),
{
    let kept = scope::scans_in(evs, prefix);
    law_report_of_a_scan(b, shares, rows, teams, kept, names);
    scope::law_taken_records(evs, prefix);
    lemma_taken_counts(evs, names, Seq::empty(), prefix);
    assert forall|user: Seq<char>| #[trigger] has_row(rows, user) <==> owns_files_in_scope(
        evs,
        names,
        user,
        prefix,
    ) by {
        if owns_files(kept, names, user) {
            let k = choose|k: int|
                0 <= k < kept.len() && events::user_name((#[trigger] kept[k]).uid, names) == user;
            assert(kept.contains(kept[k]));
            let j = choose|j: int| 0 <= j < evs.len() && evs[j] == kept[k];
            assert(events::user_name(evs[j].uid, names) == user);
        }
        if owns_files_in_scope(evs, names, user, prefix) {
            let j = choose|j: int|
                0 <= j < evs.len() && events::user_name((#[trigger] evs[j]).uid, names) == user
                    && scope::in_scope(evs[j].path, prefix);
            assert(evs.contains(evs[j]));
            assert(kept.contains(evs[j]));
            let k = choose|k: int| 0 <= k < kept.len() && kept[k] == evs[j];
            assert(events::user_name(kept[k].uid, names) == user);
        }
    }
    assert forall|k: int| 0 <= k < rows.len() implies ({
        let r = #[trigger] rows[k];
        &&& r.team_id == report::team_of(teams, r.username)
        &&& (r.total_files as int, r.total_size as int) == user_in_scope(
            evs,
            names,
            r.username,
            prefix,
        )
    }) by {
        assert(tells_of(rows[k], teams, kept, names));
        lemma_taken_counts(evs, names, rows[k].username, prefix);
    }
}

} // verus!
