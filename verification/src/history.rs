//! The daily history: what one snapshot records, how the table is widened,
//! when old snapshots go, and how usage grew between snapshots.

use crate::display;
use crate::interner::Interner;
use crate::interner;
use crate::order;
use crate::text;
use std::collections::HashMap;
use vstd::hash_map::StringHashMap;
use vstd::prelude::*;
use vstd::slice::slice_to_vec;

verus! {

broadcast use vstd::std_specs::hash::group_hash_axioms;

/// What a team or a user takes in one snapshot; `kind` is `team`, `user` or
/// `other`.
#[derive(Debug, PartialEq, Eq)]
pub struct UsageRow {
    pub name: String,
    pub team_id: Option<i64>,
    pub size: i64,
    pub kind: String,
}

/// The disk's figures in one snapshot, in bytes and in inodes.
#[derive(Debug, PartialEq, Eq)]
pub struct SnapshotMeta {
    pub path: String,
    pub total: i64,
    pub used: i64,
    pub available: i64,
    pub inodes_total: i64,
    pub inodes_used: i64,
    pub inodes_free: i64,
    pub inodes_scanned: i64,
}

impl Default for SnapshotMeta {
    fn default() -> (r: Self)
        ensures
            r.path@.len() == 0,
            r.total == 0,
            r.used == 0,
            r.available == 0,
            r.inodes_total == 0,
            r.inodes_used == 0,
            r.inodes_free == 0,
            r.inodes_scanned == 0,
    {
        SnapshotMeta {
            path: String::new(),
            total: 0,
            used: 0,
            available: 0,
            inodes_total: 0,
            inodes_used: 0,
            inodes_free: 0,
            inodes_scanned: 0,
        }
    }
}

#[verifier::ext_equal]
pub struct UsageModel {
    pub name: Seq<char>,
    pub team_id: Option<i64>,
    pub size: i64,
    pub kind: Seq<char>,
}

impl View for UsageRow {
    type V = UsageModel;

    open spec fn view(&self) -> UsageModel {
        UsageModel { name: self.name@, team_id: self.team_id, size: self.size, kind: self.kind@ }
    }
}

// ---------------------------------------------------------------------------
// The rows of a snapshot
// ---------------------------------------------------------------------------

/// The names and sizes of a list of users.
pub open spec fn usages(v: Seq<(String, i64)>) -> Seq<(Seq<char>, i64)> {
    Seq::new(v.len(), |i: int| (v[i].0@, v[i].1))
}

/// The team of a user, if the user is on one.
pub open spec fn team_of(teams: Map<Seq<char>, i64>, name: Seq<char>) -> Option<i64> {
    if teams.contains_key(name) {
        Some(teams[name])
    } else {
        None
    }
}

/// The row of one user: whoever is on a team is a `user`, the rest are `other`.
pub open spec fn user_usage(teams: Map<Seq<char>, i64>, row: (Seq<char>, i64)) -> UsageModel {
    let t = team_of(teams, row.0);
    UsageModel {
        name: row.0,
        team_id: t,
        size: row.1,
        kind: if t is Some {
            "user"@
        } else {
            "other"@
        },
    }
}

/// The teams that have a user in the list, in the order in which they appear.
pub open spec fn team_ids(teams: Map<Seq<char>, i64>, rows: Seq<(Seq<char>, i64)>) -> Seq<i64>
    decreases rows.len(),
{
    if rows.len() == 0 {
        Seq::empty()
    } else {
        let before = team_ids(teams, rows.drop_last());
        match team_of(teams, rows.last().0) {
            Some(t) => if before.contains(t) {
                before
            } else {
                before.push(t)
            },
            None => before,
        }
    }
}

/// What the users of team `t` take together.
pub open spec fn team_size(
    teams: Map<Seq<char>, i64>,
    rows: Seq<(Seq<char>, i64)>,
    t: i64,
) -> int
    decreases rows.len(),
{
    if rows.len() == 0 {
        0
    } else {
        let before = team_size(teams, rows.drop_last(), t);
        if team_of(teams, rows.last().0) == Some(t) {
            before + rows.last().1
        } else {
            before
        }
    }
}

/// The row of one team.
pub open spec fn team_usage(
    teams: Map<Seq<char>, i64>,
    names: Map<i64, String>,
    rows: Seq<(Seq<char>, i64)>,
    t: i64,
) -> UsageModel {
    UsageModel {
        name: if names.contains_key(t) {
            names[t]@
        } else {
            Seq::empty()
        },
        team_id: Some(t),
        size: team_size(teams, rows, t) as i64,
        kind: "team"@,
    }
}

/// Every team's size can be summed up from left to right.
pub open spec fn team_sizes_fit(
    teams: Map<Seq<char>, i64>,
    rows: Seq<(Seq<char>, i64)>,
) -> bool {
    forall|k: int, t: i64|
        0 <= k <= rows.len() ==> i64::MIN <= #[trigger] team_size(teams, rows.take(k), t)
            <= i64::MAX
}

/// The rows that a snapshot records.
pub struct SnapshotRows {
    pub teams: Vec<UsageRow>,
    pub users: Vec<UsageRow>,
}

fn find_id(ids: &Vec<i64>, t: i64) -> (r: Option<usize>)
    ensures
        r is None <==> !ids@.contains(t),
        r matches Some(i) ==> i < ids.len() && ids[i as int] == t,
{
    let mut i: usize = 0;
    while i < ids.len()
        invariant
            i <= ids.len(),
            forall|k: int| 0 <= k < i ==> ids[k] != t,
        decreases ids.len() - i,
    {
        if ids[i] == t {
            assert(ids@[i as int] == t);
            return Some(i);
        }
        i = i + 1;
    }
    None
}

proof fn lemma_team_ids(teams: Map<Seq<char>, i64>, rows: Seq<(Seq<char>, i64)>)
    ensures
        team_ids(teams, rows).no_duplicates(),
        forall|t: i64|
            !team_ids(teams, rows).contains(t) ==> #[trigger] team_size(teams, rows, t) == 0,
    decreases rows.len(),
{
    if rows.len() > 0 {
        lemma_team_ids(teams, rows.drop_last());
        let before = team_ids(teams, rows.drop_last());
        let now = team_ids(teams, rows);
        assert forall|t: i64| !now.contains(t) implies #[trigger] team_size(teams, rows, t)
            == 0 by {
            match team_of(teams, rows.last().0) {
                Some(u) => {
                    if before.contains(u) {
                    } else {
                        assert(now.last() == u);
                        assert(now[now.len() - 1] == u);
                        assert(before.contains(t) ==> now.contains(t)) by {
                            if before.contains(t) {
                                let k = choose|k: int| 0 <= k < before.len() && before[k] == t;
                                assert(now[k] == t);
                            }
                        }
                    }
                },
                None => {},
            }
            assert(team_size(teams, rows.drop_last(), t) == 0);
        }
    }
}

/// The rows of a snapshot: one for every user, and one for every team that has
/// one of them, with what its users take together.
pub fn snapshot_rows(
    listed: &Vec<(String, i64)>,
    teams: &StringHashMap<i64>,
    names: &HashMap<i64, String>,
) -> (r: SnapshotRows)
    requires
        team_sizes_fit(teams@, usages(listed@)),
    ensures
        r.users@.len() == listed.len(),
        forall|i: int|
            0 <= i < listed.len() ==> (#[trigger] r.users@[i])@ == user_usage(
                teams@,
                usages(listed@)[i],
            ),
        r.teams@.len() == team_ids(teams@, usages(listed@)).len(),
        forall|i: int|
            0 <= i < r.teams@.len() ==> (#[trigger] r.teams@[i])@ == team_usage(
                teams@,
                names@,
                usages(listed@),
                team_ids(teams@, usages(listed@))[i],
            ),
{
    let ghost rows = usages(listed@);
    let mut users: Vec<UsageRow> = Vec::new();
    let mut ids: Vec<i64> = Vec::new();
    let mut sizes: Vec<i64> = Vec::new();
    let mut i: usize = 0;
    proof {
        assert(rows.take(0) =~= Seq::<(Seq<char>, i64)>::empty());
    }
    while i < listed.len()
        invariant
            i <= listed.len(),
            rows == usages(listed@),
            team_sizes_fit(teams@, rows),
            users@.len() == i,
            forall|k: int|
                0 <= k < i ==> (#[trigger] users@[k])@ == user_usage(teams@, rows[k]),
            ids@ == team_ids(teams@, rows.take(i as int)),
            sizes.len() == ids.len(),
            forall|k: int|
                0 <= k < ids.len() ==> #[trigger] sizes[k] == team_size(
                    teams@,
                    rows.take(i as int),
                    ids[k],
                ),
        decreases listed.len() - i,
    {
        let name: &String = &listed[i].0;
        let size: i64 = listed[i].1;
        let ghost before = rows.take(i as int);
        let ghost now = rows.take(i + 1);
        proof {
            assert(now.drop_last() =~= before);
            assert(now.last() == (name@, size));
            lemma_team_ids(teams@, before);
        }
        let ghost ids0 = ids@;
        let ghost sizes0 = sizes@;
        match teams.get(name.as_str()) {
            Some(t) => {
                let t: i64 = *t;
                proof {
                    assert(team_of(teams@, name@) == Some(t));
                    assert(i64::MIN <= team_size(teams@, rows.take(i + 1), t) <= i64::MAX);
                }
                match find_id(&ids, t) {
                    Some(k) => {
                        sizes.set(k, sizes[k] + size);
                    },
                    None => {
                        ids.push(t);
                        sizes.push(size);
                    },
                }
                proof {
                    assert forall|k: int| 0 <= k < ids.len() implies #[trigger] sizes[k]
                        == team_size(teams@, now, ids[k]) by {
                        if k < ids0.len() {
                            assert(ids[k] == ids0[k]);
                            assert(sizes0[k] == team_size(teams@, before, ids0[k]));
                            if ids0.contains(t) {
                                let f = choose|f: int| 0 <= f < ids0.len() && ids0[f] == t;
                                assert(k != f ==> ids0[k] != ids0[f]);
                            }
                        } else {
                            assert(team_size(teams@, before, t) == 0);
                        }
                    }
                }
                users.push(
                    UsageRow {
                        name: name.clone(),
                        team_id: Some(t),
                        size,
                        kind: "user".to_string(),
                    },
                );
            },
            None => {
                users.push(
                    UsageRow {
                        name: name.clone(),
                        team_id: None,
                        size,
                        kind: "other".to_string(),
                    },
                );
            },
        }
        i = i + 1;
    }
    proof {
        assert(rows.take(i as int) =~= rows);
    }
    let mut out: Vec<UsageRow> = Vec::new();
    let mut k: usize = 0;
    while k < ids.len()
        invariant
            k <= ids.len(),
            out@.len() == k,
            sizes.len() == ids.len(),
            ids@ == team_ids(teams@, rows),
            forall|j: int|
                0 <= j < ids.len() ==> #[trigger] sizes[j] == team_size(teams@, rows, ids[j]),
            forall|j: int|
                0 <= j < k ==> (#[trigger] out@[j])@ == team_usage(teams@, names@, rows, ids[j]),
        decreases ids.len() - k,
    {
        let t: i64 = ids[k];
        let name: String = match names.get(&t) {
            Some(n) => n.clone(),
            None => String::new(),
        };
        assert(sizes[k as int] == team_size(teams@, rows, t));
        let row = UsageRow { name, team_id: Some(t), size: sizes[k], kind: "team".to_string() };
        assert(row@ =~= team_usage(teams@, names@, rows, t));
        out.push(row);
        k = k + 1;
    }
    SnapshotRows { teams: out, users }
}

// ---------------------------------------------------------------------------
// Days and columns
// ---------------------------------------------------------------------------

/// The number `yyyymmdd` of a broken-down local time, whose years count from
/// 1900 and whose months count from zero.
pub fn date_number(tm_year: i32, tm_mon: i32, tm_mday: i32) -> (r: i64)
    requires
        tm_year + 1900 <= i32::MAX,
        tm_mon < i32::MAX,
    ensures
        r == (tm_year + 1900) * 10000 + (tm_mon + 1) * 100 + tm_mday,
{
    let year: i64 = tm_year as i64 + 1900;
    let mon: i64 = tm_mon as i64 + 1;
    year * 10000 + mon * 100 + tm_mday as i64
}

/// Days are numbered in their order: what is earlier has the smaller number.
pub proof fn law_dates_in_order(
    y1: int,
    m1: int,
    d1: int,
    y2: int,
    m2: int,
    d2: int,
)
    requires
        1 <= m1 <= 12,
        1 <= m2 <= 12,
        1 <= d1 <= 31,
        1 <= d2 <= 31,
    ensures
        y1 * 10000 + m1 * 100 + d1 < y2 * 10000 + m2 * 100 + d2 <==> (y1 < y2 || (y1 == y2 && (m1
            < m2 || (m1 == m2 && d1 < d2)))),
{
}

/// Whether an age limit is set: none and what is not positive keep everything.
pub open spec fn purges(days: Option<i64>) -> bool {
    days matches Some(d) && d > 0
}

/// The time before whose day snapshots go, where an age limit is set.
pub fn purge_time(timestamp: i64, days: Option<i64>) -> (r: Option<i64>)
    requires
        purges(days) ==> days->0 * 86400 <= i64::MAX && timestamp - days->0 * 86400 >= i64::MIN,
    ensures
        r == (if purges(days) {
            Some((timestamp - days->0 * 86400) as i64)
        } else {
            None
        }),
{
    match days {
        Some(d) => if d > 0 {
            Some(timestamp - d * 86400)
        } else {
            None
        },
        None => None,
    }
}

/// The columns that the snapshot table got after it was first made.
pub open spec fn added_columns() -> Seq<Seq<char>> {
    seq![
        "inodes_total"@,
        "inodes_used"@,
        "inodes_free"@,
        "inodes_scanned"@,
        "scanned_size"@,
    ]
}

/// The columns that the snapshot table got after it was first made.
pub fn hist_snapshot_added_columns() -> (r: Vec<String>)
    ensures
        text::strs(r@) == added_columns(),
{
    let mut v: Vec<String> = Vec::new();
    v.push("inodes_total".to_string());
    v.push("inodes_used".to_string());
    v.push("inodes_free".to_string());
    v.push("inodes_scanned".to_string());
    v.push("scanned_size".to_string());
    assert(text::strs(v@) =~= added_columns());
    v
}

/// The added columns that a table with the columns `present` lacks.
pub open spec fn lacking(present: Seq<Seq<char>>) -> Seq<Seq<char>> {
    added_columns().filter(|c: Seq<char>| !present.contains(c))
}

/// The statement that adds a column.
pub open spec fn add_column_sql(c: Seq<char>) -> Seq<char> {
    "ALTER TABLE hist_snapshots ADD COLUMN "@ + c + " INTEGER"@
}

/// The statements that widen a snapshot table with the columns `present`: one
/// for each added column that it lacks.
pub fn migrate_hist_snapshots(present: &Vec<String>) -> (r: Vec<String>)
    ensures
        text::strs(r@) == lacking(text::strs(present@)).map_values(|c: Seq<char>| add_column_sql(c)),
{
    let ghost f = |c: Seq<char>| !text::strs(present@).contains(c);
    let ghost g = |c: Seq<char>| add_column_sql(c);
    let cols = hist_snapshot_added_columns();
    let ghost all = text::strs(cols@);
    let mut out: Vec<String> = Vec::new();
    let mut i: usize = 0;
    proof {
        reveal(Seq::filter);
        assert(all.take(0).filter(f).map_values(g) =~= Seq::<Seq<char>>::empty());
    }
    while i < cols.len()
        invariant
            i <= cols@.len(),
            all == text::strs(cols@),
            f == (|c: Seq<char>| !text::strs(present@).contains(c)),
            g == (|c: Seq<char>| add_column_sql(c)),
            text::strs(out@) == all.take(i as int).filter(f).map_values(g),
        decreases cols@.len() - i,
    {
        let ghost kept = all.take(i as int).filter(f);
        proof {
            reveal(Seq::filter);
            assert(all.take(i + 1).drop_last() =~= all.take(i as int));
            assert(all.take(i + 1).last() == cols@[i as int]@);
        }
        if !text::has_string(present, cols[i].as_str()) {
            let ghost before = text::strs(out@);
            let mut v = text::to_chars("ALTER TABLE hist_snapshots ADD COLUMN ");
            let c = text::to_chars(cols[i].as_str());
            text::append_chars(&mut v, &c);
            let t = text::to_chars(" INTEGER");
            text::append_chars(&mut v, &t);
            let s = text::from_chars(&v);
            out.push(s);
            proof {
                assert(text::strs(out@) =~= before.push(s@));
                assert(kept.push(cols@[i as int]@).map_values(g) =~= kept.map_values(g).push(s@));
            }
        }
        i = i + 1;
    }
    proof {
        assert(all.take(i as int) =~= all);
    }
    out
}

/// A widened table lacks no column, so widening again does nothing.
pub proof fn law_migration_is_idempotent(present: Seq<Seq<char>>)
    ensures
        lacking(present + lacking(present)).len() == 0,
        forall|c: Seq<char>|
            added_columns().contains(c) ==> #[trigger] (present + lacking(present)).contains(c),
{
    let wide = present + lacking(present);
    let f = |c: Seq<char>| !present.contains(c);
    let g = |c: Seq<char>| !wide.contains(c);
    assert forall|c: Seq<char>| added_columns().contains(c) implies #[trigger] wide.contains(
        c,
    ) by {
        if present.contains(c) {
            let i = choose|i: int| 0 <= i < present.len() && present[i] == c;
            assert(wide[i] == c);
        } else {
            let k = choose|k: int| 0 <= k < added_columns().len() && added_columns()[k] == c;
            added_columns().lemma_filter_contains(f, k);
            let i = choose|i: int| 0 <= i < lacking(present).len() && lacking(present)[i] == c;
            assert(wide[present.len() + i] == c);
        }
    }
    let left = added_columns().filter(g);
    if left.len() > 0 {
        added_columns().lemma_filter_pred(g, 0);
        assert(left.contains(left[0]));
        added_columns().lemma_filter_contains_rev(g, left[0]);
    }
}

// ---------------------------------------------------------------------------
// Growth
// ---------------------------------------------------------------------------

/// How many values are above the one before.
pub open spec fn ups(v: Seq<i64>) -> nat
    decreases v.len(),
{
    if v.len() < 2 {
        0
    } else if v[v.len() - 2] < v[v.len() - 1] {
        ups(v.drop_last()) + 1
    } else {
        ups(v.drop_last())
    }
}

/// How many values are below the one before.
pub open spec fn downs(v: Seq<i64>) -> nat
    decreases v.len(),
{
    if v.len() < 2 {
        0
    } else if v[v.len() - 2] > v[v.len() - 1] {
        downs(v.drop_last()) + 1
    } else {
        downs(v.drop_last())
    }
}

/// Whether `k` is more than the double nearest to `n * 0.7`. The double nearest
/// to 0.7 is 6305039478318694 over 2^53.
pub open spec fn mostly(k: nat, n: nat) -> bool {
    display::as_double(k) * 0x20_0000_0000_0000 > display::as_double(display::as_double(n) * 6305039478318694)
}

/// The direction of a series: `^` mostly up, `v` mostly down, `~` mixed, and `-`
/// where it is stable or shorter than three values.
pub open spec fn trend(v: Seq<i64>) -> Seq<char> {
    if v.len() < 3 || (forall|i: int| 0 <= i < v.len() ==> #[trigger] v[i] == v[0]) {
        "-"@
    } else if mostly(ups(v), (v.len() - 1) as nat) {
        "^"@
    } else if mostly(downs(v), (v.len() - 1) as nat) {
        "v"@
    } else {
        "~"@
    }
}

fn is_mostly(k: usize, n: usize) -> (r: bool)
    ensures
        r == mostly(k as nat, n as nat),
{
    let a = display::double_of(k as u128);
    let b = display::double_of(n as u128);
    let c = display::double_of(b * 6305039478318694);
    a * 0x20_0000_0000_0000 > c
}

/// The direction of a series.
pub fn trend_indicator(values: &[i64]) -> (r: &'static str)
    ensures
        r@ == trend(values@),
{
    if values.len() < 3 {
        return "-";
    }
    let mut same = true;
    let mut pos: usize = 0;
    let mut neg: usize = 0;
    let mut i: usize = 1;
    proof {
        assert(values@.take(1).len() == 1);
    }
    while i < values.len()
        invariant
            1 <= i <= values.len(),
            same == (forall|k: int| 0 <= k < i ==> #[trigger] values[k] == values[0]),
            pos == ups(values@.take(i as int)),
            neg == downs(values@.take(i as int)),
            pos < i,
            neg < i,
        decreases values.len() - i,
    {
        proof {
            let now = values@.take(i + 1);
            assert(now.drop_last() =~= values@.take(i as int));
            assert(now[now.len() - 1] == values[i as int]);
            assert(now[now.len() - 2] == values[i - 1]);
        }
        if values[i] != values[0] {
            same = false;
        }
        if values[i] > values[i - 1] {
            pos = pos + 1;
        }
        if values[i] < values[i - 1] {
            neg = neg + 1;
        }
        i = i + 1;
    }
    proof {
        assert(values@.take(i as int) =~= values@);
    }
    let n: usize = values.len() - 1;
    if same {
        "-"
    } else if is_mostly(pos, n) {
        "^"
    } else if is_mostly(neg, n) {
        "v"
    } else {
        "~"
    }
}

/// How a series grew: the absolute growth, what a percentage of it is relative
/// to, if to anything, and the direction.
pub struct Growth {
    pub abs: i64,
    pub base: Option<i64>,
    pub trend: &'static str,
}

/// The first value from `k` on that is not 0, or 0.
pub open spec fn first_nonzero(v: Seq<i64>, k: int) -> i64
    decreases v.len() - k,
{
    if k < 0 || k >= v.len() {
        0
    } else if v[k] != 0 {
        v[k]
    } else {
        first_nonzero(v, k + 1)
    }
}

/// What growth is counted from: the first value that is not 0.
pub open spec fn baseline(v: Seq<i64>) -> i64 {
    first_nonzero(v, 0)
}

/// The growth of a series.
pub open spec fn growth(v: Seq<i64>) -> int {
    if v.len() < 2 {
        0
    } else {
        v.last() - baseline(v)
    }
}

/// What a percentage of the growth is relative to.
pub open spec fn growth_base(v: Seq<i64>) -> Option<i64> {
    if v.len() >= 2 && baseline(v) > 0 {
        Some(baseline(v))
    } else {
        None
    }
}

/// The growth of a series of values in the order of time.
pub fn compute_growth(values: &[i64]) -> (r: Growth)
    requires
        i64::MIN <= growth(values@) <= i64::MAX,
    ensures
        r.abs == growth(values@),
        r.base == growth_base(values@),
        r.trend@ == (if values.len() < 2 {
            "-"@
        } else {
            trend(values@)
        }),
{
    if values.len() < 2 {
        return Growth { abs: 0, base: None, trend: "-" };
    }
    let mut first: i64 = 0;
    let mut i: usize = 0;
    while i < values.len() && first == 0
        invariant
            i <= values.len(),
            first == 0 ==> first_nonzero(values@, i as int) == first_nonzero(values@, 0),
            first != 0 ==> first == first_nonzero(values@, 0),
        decreases values.len() - i,
    {
        first = values[i];
        i = i + 1;
    }
    let last: i64 = values[values.len() - 1];
    let base: Option<i64> = if first > 0 {
        Some(first)
    } else {
        None
    };
    Growth { abs: last - first, base, trend: trend_indicator(values) }
}

/// A series whose values are all alike is stable.
pub proof fn law_flat_series(v: Seq<i64>)
    requires
        forall|i: int| 0 <= i < v.len() ==> #[trigger] v[i] == v[0],
    ensures
        trend(v) == "-"@,
        growth(v) == 0,
{
    if v.len() > 0 && v[0] == 0 {
        lemma_all_zero(v, 0);
    }
}

proof fn lemma_all_zero(v: Seq<i64>, k: int)
    requires
        0 <= k <= v.len(),
        forall|i: int| 0 <= i < v.len() ==> #[trigger] v[i] == 0,
    ensures
        first_nonzero(v, k) == 0,
    decreases v.len() - k,
{
    if k < v.len() {
        assert(v[k] == 0);
        lemma_all_zero(v, k + 1);
    }
}

/// At most one of the two directions prevails.
pub proof fn law_ups_and_downs(v: Seq<i64>)
    requires
        v.len() >= 1,
    ensures
        ups(v) + downs(v) <= v.len() - 1,
    decreases v.len(),
{
    if v.len() >= 2 {
        law_ups_and_downs(v.drop_last());
    }
}

/// Seven tenths of a small number, in doubles, divide small numbers as seven tenths
/// do.
proof fn lemma_mostly(k: nat, n: nat)
    requires
        k <= n < 80,
    ensures
        mostly(k, n) <==> 10 * k > 7 * n,
{
    let x = n * 6305039478318694;
    display::lemma_as_double(k);
    display::lemma_as_double(n);
    display::lemma_as_double(x);
    let d = display::as_double(x);
    assert(d <= x + 112 && x <= d + 112);
    if 10 * k == 7 * n {
        assert(d >= k * 0x20_0000_0000_0000) by {
            lemma_seven_tenths(k, n);
        }
    }
}

/// Where seven tenths of a number are whole, the double is not below them.
proof fn lemma_seven_tenths(k: nat, n: nat)
    requires
        10 * k == 7 * n,
        n < 80,
    ensures
        display::as_double(n * 6305039478318694) >= k * 0x20_0000_0000_0000,
{
    reveal_with_fuel(display::spacing, 8);
    let m = n / 10;
    let x = n * 6305039478318694;
    assert(n == 10 * m && k == 7 * m);
    assert(m == 0 || m == 1 || m == 2 || m == 3 || m == 4 || m == 5 || m == 6 || m == 7);
    if m == 1 {
        assert(x == 63050394783186940);
        assert(display::spacing(x) == 8);
        assert(display::nearest(x, 8) == 7881299347898368);
        assert(display::as_double(x) == 63050394783186944);
    }
    if m == 2 {
        assert(x == 126100789566373880);
        assert(display::spacing(x) == 16);
        assert(display::nearest(x, 16) == 7881299347898368);
        assert(display::as_double(x) == 126100789566373888);
    }
    if m == 3 {
        assert(x == 189151184349560820);
        assert(display::spacing(x) == 32);
        assert(display::nearest(x, 32) == 5910974510923776);
        assert(display::as_double(x) == 189151184349560832);
    }
    if m == 4 {
        assert(x == 252201579132747760);
        assert(display::spacing(x) == 32);
        assert(display::nearest(x, 32) == 7881299347898368);
        assert(display::as_double(x) == 252201579132747776);
    }
    if m == 5 {
        assert(x == 315251973915934700);
        assert(display::spacing(x) == 64);
        assert(display::nearest(x, 64) == 4925812092436480);
        assert(display::as_double(x) == 315251973915934720);
    }
    if m == 6 {
        assert(x == 378302368699121640);
        assert(display::spacing(x) == 64);
        assert(display::nearest(x, 64) == 5910974510923776);
        assert(display::as_double(x) == 378302368699121664);
    }
    if m == 7 {
        assert(x == 441352763482308580);
        assert(display::spacing(x) == 64);
        assert(display::nearest(x, 64) == 6896136929411072);
        assert(display::as_double(x) == 441352763482308608);
    }
}

/// A series of up to eighty values goes up where more than seven tenths of its
/// steps do, down where more than seven tenths do, and else both ways; one that is
/// shorter than three values, or flat, goes nowhere.
pub proof fn law_trend_of_short_series(v: Seq<i64>)
    requires
        v.len() <= 80,
    ensures
        trend(v) == (if v.len() < 3 || (forall|i: int|
            0 <= i < v.len() ==> #[trigger] v[i] == v[0]) {
            "-"@
        } else if 10 * ups(v) > 7 * (v.len() - 1) {
            "^"@
        } else if 10 * downs(v) > 7 * (v.len() - 1) {
            "v"@
        } else {
            "~"@
        }),
{
    if v.len() >= 3 {
        law_ups_and_downs(v);
        lemma_mostly(ups(v), (v.len() - 1) as nat);
        lemma_mostly(downs(v), (v.len() - 1) as nat);
    }
}

proof fn lemma_steps_from_front(v: Seq<i64>)
    requires
        v.len() >= 2,
    ensures
        ups(v) == ups(v.drop_first()) + (if v[0] < v[1] {
            1nat
        } else {
            0
        }),
        downs(v) == downs(v.drop_first()) + (if v[0] > v[1] {
            1nat
        } else {
            0
        }),
    decreases v.len(),
{
    let t = v.drop_first();
    if v.len() == 2 {
        assert(ups(v.drop_last()) == 0 && downs(v.drop_last()) == 0);
        assert(ups(t) == 0 && downs(t) == 0);
    } else {
        let h = v.drop_last();
        lemma_steps_from_front(h);
        assert(h[0] == v[0] && h[1] == v[1]);
        assert(v.drop_last().drop_first() =~= t.drop_last());
        assert(t[t.len() - 1] == v[v.len() - 1]);
        assert(t[t.len() - 2] == v[v.len() - 2]);
    }
}

proof fn lemma_reversed_steps(v: Seq<i64>)
    ensures
        ups(v.reverse()) == downs(v),
        downs(v.reverse()) == ups(v),
    decreases v.len(),
{
    let r = v.reverse();
    if v.len() >= 2 {
        lemma_reversed_steps(v.drop_first());
        lemma_steps_from_front(v);
        assert(r.drop_last() =~= v.drop_first().reverse());
        assert(r[r.len() - 1] == v[0]);
        assert(r[r.len() - 2] == v[1]);
    }
}

/// A direction seen from the other end.
pub open spec fn turned(direction: Seq<char>) -> Seq<char> {
    if direction == "^"@ {
        "v"@
    } else if direction == "v"@ {
        "^"@
    } else {
        direction
    }
}

/// The reversed series goes the other way.
pub proof fn law_reversed_series(v: Seq<i64>)
    requires
        v.len() <= 80,
    ensures
        trend(v.reverse()) == turned(trend(v)),
{
    let r = v.reverse();
    reveal_strlit("-");
    reveal_strlit("^");
    reveal_strlit("v");
    reveal_strlit("~");
    assert("-"@[0] != "^"@[0] && "-"@[0] != "v"@[0] && "~"@[0] != "^"@[0] && "~"@[0] != "v"@[0]
        && "^"@[0] != "v"@[0]);
    law_trend_of_short_series(v);
    law_trend_of_short_series(r);
    lemma_reversed_steps(v);
    if v.len() >= 3 {
        law_ups_and_downs(v);
        let flat = forall|i: int| 0 <= i < v.len() ==> #[trigger] v[i] == v[0];
        let back = forall|i: int| 0 <= i < r.len() ==> #[trigger] r[i] == r[0];
        if flat {
            assert forall|i: int| 0 <= i < r.len() implies #[trigger] r[i] == r[0] by {
                assert(r[i] == v[v.len() - 1 - i]);
                assert(r[0] == v[v.len() - 1]);
            }
        }
        if back {
            assert forall|i: int| 0 <= i < v.len() implies #[trigger] v[i] == v[0] by {
                assert(r[v.len() - 1 - i] == v[i]);
                assert(r[v.len() - 1] == v[0]);
            }
        }
    }
}

// ---------------------------------------------------------------------------
// Comparing snapshots
// ---------------------------------------------------------------------------

/// One user's sizes, a value for each snapshot.
pub struct SeriesRow {
    pub name: String,
    pub values: Vec<i64>,
}

/// One user's sizes and their growth.
pub struct GrowthRow {
    pub name: String,
    pub values: Vec<i64>,
    pub growth: Growth,
}

/// The users of each snapshot.
pub open spec fn day_usages(days: Seq<Vec<(String, i64)>>) -> Seq<Seq<(Seq<char>, i64)>> {
    Seq::new(days.len(), |i: int| usages(days[i]@))
}

/// What a user takes in one snapshot: the last row counts, and 0 where the user
/// is absent.
pub open spec fn day_size(rows: Seq<(Seq<char>, i64)>, name: Seq<char>) -> i64
    decreases rows.len(),
{
    if rows.len() == 0 {
        0
    } else if rows.last().0 == name {
        rows.last().1
    } else {
        day_size(rows.drop_last(), name)
    }
}

/// A user's sizes over the snapshots.
pub open spec fn series(days: Seq<Seq<(Seq<char>, i64)>>, name: Seq<char>) -> Seq<i64> {
    Seq::new(days.len(), |c: int| day_size(days[c], name))
}

/// Whether a user is in any snapshot.
pub open spec fn listed(days: Seq<Seq<(Seq<char>, i64)>>, name: Seq<char>) -> bool {
    exists|c: int, k: int|
        0 <= c < days.len() && 0 <= k < days[c].len() && (#[trigger] days[c][k]).0 == name
}

/// `rows` has one row for each user of any snapshot, by name.
pub open spec fn is_series_of(
    rows: Seq<SeriesRow>,
    days: Seq<Seq<(Seq<char>, i64)>>,
) -> bool {
    &&& forall|i: int, j: int|
        0 <= i < j < rows.len() ==> text::lex_lt((#[trigger] rows[i]).name@, (#[trigger] rows[j]).name@)
    &&& forall|i: int|
        0 <= i < rows.len() ==> listed(days, (#[trigger] rows[i]).name@) && rows[i].values@
            == series(days, rows[i].name@)
    &&& forall|n: Seq<char>| #[trigger]
        listed(days, n) ==> exists|i: int|
            0 <= i < rows.len() && (#[trigger] rows[i]).name@ == n
}

fn size_on_day(rows: &Vec<(String, i64)>, name: &str) -> (r: i64)
    ensures
        r == day_size(usages(rows@), name@),
{
    let ghost all = usages(rows@);
    let mut i: usize = rows.len();
    proof {
        assert(all.take(i as int) =~= all);
    }
    while i > 0
        invariant
            i <= rows.len(),
            all == usages(rows@),
            day_size(all.take(i as int), name@) == day_size(all, name@),
        decreases i,
    {
        proof {
            assert(all.take(i as int).drop_last() =~= all.take(i - 1));
            assert(all.take(i as int).last() == all[i - 1]);
        }
        if text::str_eq(rows[i - 1].0.as_str(), name) {
            return rows[i - 1].1;
        }
        i = i - 1;
    }
    0
}

/// Whether a user is in one of the first `c` snapshots, or in the first `k` rows
/// of the next.
spec fn listed_before(
    days: Seq<Seq<(Seq<char>, i64)>>,
    c: int,
    k: int,
    name: Seq<char>,
) -> bool {
    exists|a: int, b: int|
        0 <= a < days.len() && 0 <= b < days[a].len() && (a < c || (a == c && b < k)) && (
        #[trigger] days[a][b]).0 == name
}

fn names_of(days: &Vec<Vec<(String, i64)>>) -> (r: Interner)
    ensures
        r.wf(),
        forall|n: Seq<char>| #[trigger] r@.contains(n) <==> listed(day_usages(days@), n),
{
    let ghost all = day_usages(days@);
    let mut names = Interner::new();
    let mut c: usize = 0;
    while c < days.len()
        invariant
            c <= days.len(),
            all == day_usages(days@),
            names.wf(),
            forall|n: Seq<char>| #[trigger] names@.contains(n) <==> listed_before(
                all,
                c as int,
                0,
                n,
            ),
        decreases days.len() - c,
    {
        let day: &Vec<(String, i64)> = &days[c];
        let mut k: usize = 0;
        while k < day.len()
            invariant
                c < days.len(),
                k <= day.len(),
                *day == days@[c as int],
                all == day_usages(days@),
                names.wf(),
                forall|n: Seq<char>| #[trigger] names@.contains(n) <==> listed_before(
                    all,
                    c as int,
                    k as int,
                    n,
                ),
            decreases day.len() - k,
        {
            let ghost before = names@;
            names.intern(day[k].0.as_str());
            proof {
                let x = day@[k as int].0@;
                assert(all[c as int][k as int].0 == x);
                assert forall|n: Seq<char>| #[trigger] names@.contains(n) <==> listed_before(
                    all,
                    c as int,
                    k + 1,
                    n,
                ) by {
                    assert(before.push(x).contains(n) <==> (before.contains(n) || n == x)) by {
                        assert(before.push(x).last() == x);
                        if before.contains(n) {
                            let j = choose|j: int| 0 <= j < before.len() && before[j] == n;
                            assert(before.push(x)[j] == n);
                        }
                        if n == x {
                            assert(before.push(x)[before.len() as int] == n);
                        }
                        if before.push(x).contains(n) {
                            let j = choose|j: int|
                                0 <= j < before.push(x).len() && before.push(x)[j] == n;
                            if j < before.len() {
                                assert(before[j] == n);
                            }
                        }
                    }
                    assert(listed_before(all, c as int, k + 1, n) <==> (listed_before(
                        all,
                        c as int,
                        k as int,
                        n,
                    ) || n == x)) by {
                        if listed_before(all, c as int, k + 1, n) {
                            let (a, b) = choose|a: int, b: int|
                                0 <= a < all.len() && 0 <= b < all[a].len() && (a < c || (a == c
                                    && b < k + 1)) && (#[trigger] all[a][b]).0 == n;
                            if a == c && b == k {
                            } else {
                                assert(all[a][b].0 == n);
                            }
                        }
                    }
                }
            }
            k = k + 1;
        }
        proof {
            assert forall|n: Seq<char>| #[trigger] names@.contains(n) <==> listed_before(
                all,
                c + 1,
                0,
                n,
            ) by {
                if listed_before(all, c + 1, 0, n) {
                    let (a, b) = choose|a: int, b: int|
                        0 <= a < all.len() && 0 <= b < all[a].len() && (a < c + 1 || (a == c + 1
                            && b < 0)) && (#[trigger] all[a][b]).0 == n;
                    assert(all[a][b].0 == n);
                    assert(listed_before(all, c as int, k as int, n));
                }
                if listed_before(all, c as int, k as int, n) {
                    let (a, b) = choose|a: int, b: int|
                        0 <= a < all.len() && 0 <= b < all[a].len() && (a < c || (a == c && b
                            < k)) && (#[trigger] all[a][b]).0 == n;
                    assert(all[a][b].0 == n);
                }
            }
        }
        c = c + 1;
    }
    proof {
        assert forall|n: Seq<char>| #[trigger] names@.contains(n) <==> listed(all, n) by {
            if listed(all, n) {
                let (a, b) = choose|a: int, b: int|
                    0 <= a < all.len() && 0 <= b < all[a].len() && (#[trigger] all[a][b]).0 == n;
                assert(all[a][b].0 == n);
                assert(listed_before(all, c as int, 0, n));
            }
            if listed_before(all, c as int, 0, n) {
                let (a, b) = choose|a: int, b: int|
                    0 <= a < all.len() && 0 <= b < all[a].len() && (a < c || (a == c && b < 0)) && (
                    #[trigger] all[a][b]).0 == n;
                assert(all[a][b].0 == n);
            }
        }
    }
    names
}

fn values_of(days: &Vec<Vec<(String, i64)>>, name: &str) -> (r: Vec<i64>)
    ensures
        r@ == series(day_usages(days@), name@),
{
    let ghost all = day_usages(days@);
    let mut values: Vec<i64> = Vec::new();
    let mut c: usize = 0;
    while c < days.len()
        invariant
            c <= days.len(),
            all == day_usages(days@),
            values@.len() == c,
            forall|k: int| 0 <= k < c ==> #[trigger] values@[k] == day_size(all[k], name@),
        decreases days.len() - c,
    {
        values.push(size_on_day(&days[c], name));
        c = c + 1;
    }
    assert(values@ =~= series(all, name@));
    values
}

/// Each user's sizes over the snapshots, by name; 0 where the user is absent.
pub fn usage_series(days: &Vec<Vec<(String, i64)>>) -> (r: Vec<SeriesRow>)
    ensures
        is_series_of(r@, day_usages(days@)),
{
    let ghost all = day_usages(days@);
    let names = names_of(days);
    let p = interner::sorted_places(&names);
    let mut out: Vec<SeriesRow> = Vec::new();
    let mut x: usize = 0;
    while x < p.len()
        invariant
            x <= p@.len(),
            all == day_usages(days@),
            forall|y: int| 0 <= y < p@.len() ==> #[trigger] p@[y] < names@.len(),
            out@.len() == x,
            forall|y: int|
                0 <= y < x ==> (#[trigger] out@[y]).name@ == names@[p@[y] as int]
                    && out@[y].values@ == series(all, out@[y].name@),
        decreases p@.len() - x,
    {
        let name: &String = names.get(p[x]);
        let values = values_of(days, name.as_str());
        out.push(SeriesRow { name: name.clone(), values });
        x = x + 1;
    }
    proof {
        assert forall|i: int| 0 <= i < out@.len() implies listed(
            all,
            (#[trigger] out@[i]).name@,
        ) by {
            assert(names@.contains(names@[p@[i] as int]));
        }
        assert forall|i: int, j: int| 0 <= i < j < out@.len() implies text::lex_lt(
            (#[trigger] out@[i]).name@,
            (#[trigger] out@[j]).name@,
        ) by {
            assert(text::lex_lt(names@[p@[i] as int], names@[p@[j] as int]));
        }
        names.lemma_wf();
        assert forall|n: Seq<char>| #[trigger] listed(all, n) implies exists|i: int|
            0 <= i < out@.len() && (#[trigger] out@[i]).name@ == n by {
            assert(names@.contains(n));
            let v = choose|v: int| 0 <= v < names@.len() && names@[v] == n;
            assert(p@.contains(v as usize));
            let i = choose|i: int| 0 <= i < p@.len() && p@[i] == v as usize;
            assert(out@[i].name@ == n);
        }
    }
    out
}

/// The order of growth: what grew more comes first.
pub open spec fn grew_more(rows: Seq<SeriesRow>) -> spec_fn(int, int) -> bool {
    |i: int, j: int| growth(rows[i].values@) > growth(rows[j].values@)
}

/// `r` is what `p` lists of the rows, each with its growth.
pub open spec fn ranks(r: Seq<GrowthRow>, rows: Seq<SeriesRow>, p: Seq<usize>) -> bool {
    forall|k: int|
        0 <= k < r.len() ==> {
            let row = rows[p[k] as int];
            &&& (#[trigger] r[k]).name@ == row.name@
            &&& r[k].values@ == row.values@
            &&& r[k].growth.abs == growth(row.values@)
            &&& r[k].growth.base == growth_base(row.values@)
            &&& r[k].growth.trend@ == (if row.values@.len() < 2 {
                "-"@
            } else {
                trend(row.values@)
            })
        }
}

/// The rows by absolute growth, the largest first and ties in the given order,
/// at most `top` of them and at least one.
pub fn rank_growth(rows: &Vec<SeriesRow>, top: usize) -> (r: Vec<GrowthRow>)
    requires
        forall|i: int|
            0 <= i < rows.len() ==> i64::MIN <= growth((#[trigger] rows[i]).values@) <= i64::MAX,
    ensures
        r.len() == (if rows.len() <= 1 || rows.len() <= top {
            rows.len()
        } else if top == 0 {
            1
        } else {
            top
        }),
        exists|p: Seq<usize>| #[trigger]
            order::sorted_range(p, 0, rows.len() as int, grew_more(rows@)) && ranks(r@, rows@, p),
{
    let n: usize = rows.len();
    let mut abs: Vec<i64> = Vec::new();
    let mut i: usize = 0;
    while i < n
        invariant
            i <= n,
            n == rows.len(),
            forall|k: int|
                0 <= k < rows.len() ==> i64::MIN <= growth((#[trigger] rows[k]).values@)
                    <= i64::MAX,
            abs@.len() == i,
            forall|k: int| 0 <= k < i ==> #[trigger] abs@[k] == growth(rows[k].values@),
        decreases n - i,
    {
        assert(growth(rows[i as int].values@) <= i64::MAX);
        let g = compute_growth(&rows[i].values);
        abs.push(g.abs);
        i = i + 1;
    }
    let less = |a: usize, b: usize| -> (r: bool)
        requires
            a < abs@.len(),
            b < abs@.len(),
        ensures
            r == (abs@[a as int] > abs@[b as int]),
        { abs[a] > abs[b] };
    let ghost lt = grew_more(rows@);
    let p = order::sort_indices(n, &less, Ghost(lt));
    let cap: usize = if top == 0 {
        1
    } else {
        top
    };
    let m: usize = if n <= cap {
        n
    } else {
        cap
    };
    let mut out: Vec<GrowthRow> = Vec::new();
    let mut k: usize = 0;
    while k < m
        invariant
            k <= m <= n,
            n == rows.len(),
            p@.len() == n,
            forall|x: int| 0 <= x < p@.len() ==> 0 <= #[trigger] p@[x] < n,
            forall|j: int|
                0 <= j < rows.len() ==> i64::MIN <= growth((#[trigger] rows[j]).values@)
                    <= i64::MAX,
            out@.len() == k,
            ranks(out@, rows@, p@),
        decreases m - k,
    {
        let row: &SeriesRow = &rows[p[k]];
        assert(growth(rows[p@[k as int] as int].values@) <= i64::MAX);
        let growth = compute_growth(&row.values);
        let values = slice_to_vec(&row.values);
        out.push(GrowthRow { name: row.name.clone(), values, growth });
        k = k + 1;
    }
    out
}

/// The users of the snapshots by absolute growth. There is something to compare
/// only from two snapshots on, and where they list a user.
pub fn compare_history(days: &Vec<Vec<(String, i64)>>, top: usize) -> (r: Option<Vec<GrowthRow>>)
    requires
        forall|n: Seq<char>| #[trigger]
            listed(day_usages(days@), n) ==> i64::MIN <= growth(series(day_usages(days@), n))
                <= i64::MAX,
    ensures
        r is Some <==> days.len() >= 2 && exists|n: Seq<char>| #[trigger]
            listed(day_usages(days@), n),
        r matches Some(v) ==> exists|rows: Seq<SeriesRow>, p: Seq<usize>|
            {
                &&& #[trigger] is_series_of(rows, day_usages(days@))
                &&& rows.len() <= usize::MAX
                &&& #[trigger] order::sorted_range(p, 0, rows.len() as int, grew_more(rows))
                &&& ranks(v@, rows, p)
                &&& v.len() == (if rows.len() <= 1 || rows.len() <= top {
                    rows.len() as int
                } else if top == 0 {
                    1
                } else {
                    top as int
                })
            },
{
    if days.len() < 2 {
        return None;
    }
    let rows = usage_series(days);
    if rows.len() == 0 {
        return None;
    }
    proof {
        assert(listed(day_usages(days@), rows@[0].name@));
    }
    let v = rank_growth(&rows, top);
    Some(v)
}

/// Whether `g` is what a series grew by: its last value less the first that is not 0,
/// and nothing where there is no such value.
pub open spec fn grows_by(v: Seq<i64>, g: int) -> bool {
    &&& forall|f: int|
        0 <= f < v.len() && (#[trigger] v[f]) != 0 && (forall|i: int|
            0 <= i < f ==> #[trigger] v[i] == 0) ==> g == v[v.len() - 1] - v[f]
    &&& (forall|i: int| 0 <= i < v.len() ==> #[trigger] v[i] == 0) ==> g == 0
}

proof fn lemma_first_nonzero(v: Seq<i64>, k: int, f: int)
    requires
        0 <= k <= f < v.len(),
        v[f] != 0,
        forall|i: int| k <= i < f ==> #[trigger] v[i] == 0,
    ensures
        first_nonzero(v, k) == v[f],
    decreases f - k,
{
    if k < f {
        assert(v[k] == 0);
        lemma_first_nonzero(v, k + 1, f);
    }
}

/// A series of two values or more grows by its last value less its first value that is
/// not 0, and the percentage is of that first value, where it is above 0; a shorter one
/// does not grow.
pub proof fn law_growth_is_from_the_first_value(v: Seq<i64>)
    ensures
        v.len() >= 2 ==> grows_by(v, growth(v)),
        v.len() < 2 ==> growth(v) == 0 && growth_base(v) is None,
        forall|f: int|
            0 <= f < v.len() && v.len() >= 2 && (#[trigger] v[f]) != 0 && (forall|i: int|
                0 <= i < f ==> #[trigger] v[i] == 0) ==> growth_base(v) == (if v[f] > 0 {
                Some(v[f])
            } else {
                None
            }),
        (forall|i: int| 0 <= i < v.len() ==> #[trigger] v[i] == 0) ==> growth_base(v) is None,
{
    assert forall|f: int|
        0 <= f < v.len() && (#[trigger] v[f]) != 0 && (forall|i: int|
            0 <= i < f ==> #[trigger] v[i] == 0) implies baseline(v) == v[f] by {
        lemma_first_nonzero(v, 0, f);
    }
    if forall|i: int| 0 <= i < v.len() ==> #[trigger] v[i] == 0 {
        lemma_all_zero(v, 0);
    }
}

/// What a user takes in a snapshot is what the last row of the user says, and nothing
/// where it has none.
pub proof fn law_last_row_of_a_day_counts(
    rows: Seq<(Seq<char>, i64)>,
    name: Seq<char>,
    k: int,
)
    ensures
        0 <= k < rows.len() && rows[k].0 == name && (forall|j: int|
            k < j < rows.len() ==> (#[trigger] rows[j]).0 != name) ==> day_size(rows, name)
            == rows[k].1,
        (forall|j: int| 0 <= j < rows.len() ==> (#[trigger] rows[j]).0 != name) ==> day_size(
            rows,
            name,
        ) == 0,
    decreases rows.len(),
{
    if rows.len() > 0 {
        let head = rows.drop_last();
        law_last_row_of_a_day_counts(head, name, k);
        if 0 <= k < rows.len() - 1 && rows[k].0 == name && (forall|j: int|
            k < j < rows.len() ==> (#[trigger] rows[j]).0 != name) {
            assert(rows[rows.len() - 1].0 != name);
            assert(head[k] == rows[k]);
            assert forall|j: int| k < j < head.len() implies (#[trigger] head[j]).0 != name by {
                assert(head[j] == rows[j]);
            }
        }
        if forall|j: int| 0 <= j < rows.len() ==> (#[trigger] rows[j]).0 != name {
            assert(rows[rows.len() - 1].0 != name);
            assert forall|j: int| 0 <= j < head.len() implies (#[trigger] head[j]).0 != name by {
                assert(head[j] == rows[j]);
            }
        }
    }
}

/// Comparing snapshots lists users by what they grew by, the largest first and those
/// that grew alike by name: each row holds the user's size in each snapshot and the
/// growth from the first of them that is not 0 to the last. Nobody is listed twice, and
/// users are left out only where `top` of them, or one where that is 0, are listed.
pub proof fn law_comparison_ranks_by_growth(
    days: Seq<Seq<(Seq<char>, i64)>>,
    top: usize,
    v: Seq<GrowthRow>,
)
    requires
        days.len() >= 2,
        exists|rows: Seq<SeriesRow>, p: Seq<usize>|
            {
                &&& #[trigger] is_series_of(rows, days)
                &&& rows.len() <= usize::MAX
                &&& #[trigger] order::sorted_range(p, 0, rows.len() as int, grew_more(rows))
                &&& ranks(v, rows, p)
                &&& v.len() == (if rows.len() <= 1 || rows.len() <= top {
                    rows.len() as int
                } else if top == 0 {
                    1
                } else {
                    top as int
                })
            },
    ensures
        forall|i: int, j: int|
            0 <= i < j < v.len() ==> (#[trigger] v[i]).growth.abs >= (#[trigger] v[j]).growth.abs,
        forall|i: int, j: int|
            0 <= i < j < v.len() && (#[trigger] v[i]).growth.abs == (#[trigger] v[j]).growth.abs
                ==> text::lex_lt(v[i].name@, v[j].name@),
        forall|i: int, j: int|
            0 <= i < j < v.len() ==> (#[trigger] v[i]).name@ != (#[trigger] v[j]).name@,
        forall|i: int|
            0 <= i < v.len() ==> listed(days, (#[trigger] v[i]).name@) && v[i].values@.len()
                == days.len() && grows_by(v[i].values@, v[i].growth.abs as int),
        forall|i: int, c: int|
            0 <= i < v.len() && 0 <= c < days.len() ==> #[trigger] v[i].values@[c] == day_size(
                days[c],
                v[i].name@,
            ),
        top > 0 ==> v.len() <= top,
        top == 0 ==> v.len() <= 1,
        (v.len() < top || v.len() == 0) ==> forall|n: Seq<char>| #[trigger]
            listed(days, n) ==> exists|i: int|
                0 <= i < v.len() && (#[trigger] v[i]).name@ == n,
{
    let (rows, p) = choose|rows: Seq<SeriesRow>, p: Seq<usize>|
        {
            &&& #[trigger] is_series_of(rows, days)
            &&& rows.len() <= usize::MAX
            &&& #[trigger] order::sorted_range(p, 0, rows.len() as int, grew_more(rows))
            &&& ranks(v, rows, p)
            &&& v.len() == (if rows.len() <= 1 || rows.len() <= top {
                rows.len() as int
            } else if top == 0 {
                1
            } else {
                top as int
            })
        };
    let lt = grew_more(rows);
    assert forall|i: int| 0 <= i < v.len() implies {
        let row = rows[p[i] as int];
        &&& 0 <= p[i] < rows.len()
        &&& (#[trigger] v[i]).name@ == row.name@
        &&& v[i].values@ == series(days, row.name@)
        &&& v[i].growth.abs == growth(row.values@)
        &&& listed(days, v[i].name@)
        &&& grows_by(v[i].values@, v[i].growth.abs as int)
    } by {
        law_growth_is_from_the_first_value(rows[p[i] as int].values@);
    }
    assert forall|i: int, j: int| 0 <= i < j < v.len() implies (#[trigger] v[i]).growth.abs >= (
    #[trigger] v[j]).growth.abs && v[i].name@ != v[j].name@ && (v[i].growth.abs == v[j].growth.abs
        ==> text::lex_lt(v[i].name@, v[j].name@)) by {
        assert(order::before(lt, p[i] as int, p[j] as int));
        let (a, b) = (p[i] as int, p[j] as int);
        assert(a != b);
        if a < b {
            assert(text::lex_lt(rows[a].name@, rows[b].name@));
        } else {
            assert(text::lex_lt(rows[b].name@, rows[a].name@));
        }
        text::lemma_lex_asym(rows[a].name@, rows[a].name@);
    }
    if v.len() < top || v.len() == 0 {
        assert forall|n: Seq<char>| #[trigger] listed(days, n) implies exists|i: int|
            0 <= i < v.len() && (#[trigger] v[i]).name@ == n by {
            let k = choose|k: int| 0 <= k < rows.len() && (#[trigger] rows[k]).name@ == n;
            lemma_place_of(p, rows.len() as int, lt, k);
            let x = choose|x: int| 0 <= x < p.len() && p[x] == k;
            assert(v[x].name@ == n);
        }
    }
}

/// A user that a comparison leaves out, and whose sizes in the snapshots are `s`, grew by
/// no more than any that it lists.
pub proof fn law_left_out_users_grew_less(
    days: Seq<Seq<(Seq<char>, i64)>>,
    top: usize,
    v: Seq<GrowthRow>,
    name: Seq<char>,
    s: Seq<i64>,
    g: int,
    i: int,
)
    requires
        days.len() >= 2,
        exists|rows: Seq<SeriesRow>, p: Seq<usize>|
            {
                &&& #[trigger] is_series_of(rows, days)
                &&& rows.len() <= usize::MAX
                &&& #[trigger] order::sorted_range(p, 0, rows.len() as int, grew_more(rows))
                &&& ranks(v, rows, p)
                &&& v.len() == (if rows.len() <= 1 || rows.len() <= top {
                    rows.len() as int
                } else if top == 0 {
                    1
                } else {
                    top as int
                })
            },
        listed(days, name),
        forall|j: int| 0 <= j < v.len() ==> (#[trigger] v[j]).name@ != name,
        s.len() == days.len(),
        forall|c: int| 0 <= c < s.len() ==> #[trigger] s[c] == day_size(days[c], name),
        grows_by(s, g),
        0 <= i < v.len(),
    ensures
        v[i].growth.abs >= g,
{
    let (rows, p) = choose|rows: Seq<SeriesRow>, p: Seq<usize>|
        {
            &&& #[trigger] is_series_of(rows, days)
            &&& rows.len() <= usize::MAX
            &&& #[trigger] order::sorted_range(p, 0, rows.len() as int, grew_more(rows))
            &&& ranks(v, rows, p)
            &&& v.len() == (if rows.len() <= 1 || rows.len() <= top {
                rows.len() as int
            } else if top == 0 {
                1
            } else {
                top as int
            })
        };
    let lt = grew_more(rows);
    let k = choose|k: int| 0 <= k < rows.len() && (#[trigger] rows[k]).name@ == name;
    assert(s =~= series(days, name));
    assert(rows[k].values@ == s);
    law_growth_is_from_the_first_value(s);
    lemma_one_growth(s, g, growth(s));
    lemma_place_of(p, rows.len() as int, lt, k);
    let x = choose|x: int| 0 <= x < p.len() && p[x] == k;
    if x < v.len() {
        assert(v[x].name@ == name);
    }
    assert(order::before(lt, p[i] as int, p[x] as int));
    assert(v[i].growth.abs == growth(rows[p[i] as int].values@));
}

proof fn lemma_place_of(p: Seq<usize>, n: int, lt: spec_fn(int, int) -> bool, k: int)
    requires
        order::sorted_range(p, 0, n, lt),
        0 <= k < n <= usize::MAX,
    ensures
        exists|x: int| 0 <= x < p.len() && p[x] == k,
{
    assert(p.contains(k as usize));
    let x = choose|x: int| 0 <= x < p.len() && p[x] == k as usize;
    assert(p[x] == k);
}

proof fn lemma_one_growth(v: Seq<i64>, g: int, h: int)
    requires
        grows_by(v, g),
        grows_by(v, h),
    ensures
        g == h,
{
    if exists|i: int| 0 <= i < v.len() && #[trigger] v[i] != 0 {
        let i = choose|i: int| 0 <= i < v.len() && #[trigger] v[i] != 0;
        let f = lemma_a_first(v, i);
        assert(g == v[v.len() - 1] - v[f]);
        assert(h == v[v.len() - 1] - v[f]);
    }
}

proof fn lemma_a_first(v: Seq<i64>, i: int) -> (f: int)
    requires
        0 <= i < v.len(),
        v[i] != 0,
    ensures
        0 <= f <= i,
        v[f] != 0,
        forall|k: int| 0 <= k < f ==> #[trigger] v[k] == 0,
    decreases i,
{
    if exists|k: int| 0 <= k < i && #[trigger] v[k] != 0 {
        let k = choose|k: int| 0 <= k < i && #[trigger] v[k] != 0;
        lemma_a_first(v, k)
    } else {
        i
    }
}

// ---------------------------------------------------------------------------
// Laws on snapshots
// ---------------------------------------------------------------------------

/// The sizes of the users of a list that are on a team.
pub open spec fn teamed_size(teams: Map<Seq<char>, i64>, rows: Seq<(Seq<char>, i64)>) -> int
    decreases rows.len(),
{
    if rows.len() == 0 {
        0
    } else {
        teamed_size(teams, rows.drop_last()) + (if teams.contains_key(rows.last().0) {
            rows.last().1 as int
        } else {
            0
        })
    }
}

/// The sizes of the first `n` team rows.
pub open spec fn team_rows_size(rows: Seq<UsageModel>, n: int) -> int
    decreases n,
{
    if n <= 0 {
        0
    } else {
        team_rows_size(rows, n - 1) + rows[n - 1].size
    }
}

proof fn lemma_team_ids_members(teams: Map<Seq<char>, i64>, rows: Seq<(Seq<char>, i64)>)
    ensures
        team_ids(teams, rows).no_duplicates(),
        forall|t: i64| #[trigger]
            team_ids(teams, rows).contains(t) <==> exists|k: int|
                0 <= k < rows.len() && teams.contains_key((#[trigger] rows[k]).0)
                    && teams[rows[k].0] == t,
    decreases rows.len(),
{
    if rows.len() > 0 {
        let head = rows.drop_last();
        let before = team_ids(teams, head);
        let all = team_ids(teams, rows);
        lemma_team_ids_members(teams, head);
        let e = rows.last();
        assert forall|t: i64| #[trigger] all.contains(t) <==> exists|k: int|
            0 <= k < rows.len() && teams.contains_key((#[trigger] rows[k]).0) && teams[rows[k].0]
                == t by {
            assert(all.contains(t) <==> before.contains(t) || (teams.contains_key(e.0)
                && teams[e.0] == t)) by {
                if before.contains(t) {
                    let i = choose|i: int| 0 <= i < before.len() && before[i] == t;
                    assert(all[i] == t);
                }
                if teams.contains_key(e.0) && teams[e.0] == t && !before.contains(t) {
                    assert(all[before.len() as int] == t);
                }
                if all.contains(t) {
                    let i = choose|i: int| 0 <= i < all.len() && all[i] == t;
                    if i < before.len() {
                        assert(before[i] == t);
                    }
                }
            }
            if before.contains(t) {
                let k = choose|k: int|
                    0 <= k < head.len() && teams.contains_key((#[trigger] head[k]).0)
                        && teams[head[k].0] == t;
                assert(rows[k] == head[k]);
            }
            if teams.contains_key(e.0) && teams[e.0] == t {
                assert(rows[rows.len() - 1] == e);
            }
            if exists|k: int|
                0 <= k < rows.len() && teams.contains_key((#[trigger] rows[k]).0)
                    && teams[rows[k].0] == t {
                let k = choose|k: int|
                    0 <= k < rows.len() && teams.contains_key((#[trigger] rows[k]).0)
                        && teams[rows[k].0] == t;
                if k < head.len() {
                    assert(head[k] == rows[k]);
                }
            }
        }
    }
}

proof fn lemma_teams_sum(
    teams: Map<Seq<char>, i64>,
    rows: Seq<(Seq<char>, i64)>,
    ids: Seq<i64>,
    n: int,
)
    requires
        0 <= n <= ids.len(),
        ids.no_duplicates(),
        rows.len() > 0,
    ensures
        ids_size(teams, rows, ids, n) == ids_size(teams, rows.drop_last(), ids, n) + (if (
        teams.contains_key(rows.last().0) && ids.take(n).contains(teams[rows.last().0])) {
            rows.last().1 as int
        } else {
            0
        }),
    decreases n,
{
    let e = rows.last();
    if n > 0 {
        lemma_teams_sum(teams, rows, ids, n - 1);
        let t = ids[n - 1];
        let x = teams[e.0];
        let h = ids.take(n - 1);
        let g = ids.take(n);
        assert(ids.take(n).contains(x) <==> ids.take(n - 1).contains(x) || t == x) by {
            if ids.take(n).contains(x) {
                let i = choose|i: int| 0 <= i < g.len() && g[i] == x;
                if i < n - 1 {
                    assert(ids.take(n - 1)[i] == x);
                }
            }
            if ids.take(n - 1).contains(x) {
                let i = choose|i: int| 0 <= i < h.len() && h[i] == x;
                assert(ids.take(n)[i] == x);
            }
            assert(ids.take(n)[n - 1] == t);
        }
        if t == x {
            assert(!ids.take(n - 1).contains(x)) by {
                if ids.take(n - 1).contains(x) {
                    let i = choose|i: int| 0 <= i < h.len() && h[i] == x;
                    assert(ids[i] == ids[n - 1]);
                }
            }
        }
    } else {
        assert(ids.take(0) =~= Seq::<i64>::empty());
    }
}

/// What the users of the first `n` teams of a list take.
spec fn ids_size(
    teams: Map<Seq<char>, i64>,
    rows: Seq<(Seq<char>, i64)>,
    ids: Seq<i64>,
    n: int,
) -> int
    decreases n,
{
    if n <= 0 {
        0
    } else {
        ids_size(teams, rows, ids, n - 1) + team_size(teams, rows, ids[n - 1])
    }
}

proof fn lemma_all_teams(teams: Map<Seq<char>, i64>, rows: Seq<(Seq<char>, i64)>, ids: Seq<i64>)
    requires
        ids.no_duplicates(),
        forall|k: int|
            0 <= k < rows.len() && teams.contains_key((#[trigger] rows[k]).0) ==> ids.contains(
                teams[rows[k].0],
            ),
    ensures
        ids_size(teams, rows, ids, ids.len() as int) == teamed_size(teams, rows),
    decreases rows.len(),
{
    if rows.len() == 0 {
        lemma_no_rows(teams, rows, ids, ids.len() as int);
    } else {
        let head = rows.drop_last();
        assert forall|k: int|
            0 <= k < head.len() && teams.contains_key((#[trigger] head[k]).0) implies ids.contains(
            teams[head[k].0],
        ) by {
            assert(head[k] == rows[k]);
        }
        lemma_all_teams(teams, head, ids);
        lemma_teams_sum(teams, rows, ids, ids.len() as int);
        assert(ids.take(ids.len() as int) =~= ids);
        assert(rows[rows.len() - 1] == rows.last());
    }
}

proof fn lemma_no_rows(
    teams: Map<Seq<char>, i64>,
    rows: Seq<(Seq<char>, i64)>,
    ids: Seq<i64>,
    n: int,
)
    requires
        rows.len() == 0,
    ensures
        ids_size(teams, rows, ids, n) == 0,
    decreases n,
{
    if n > 0 {
        lemma_no_rows(teams, rows, ids, n - 1);
    }
}

proof fn lemma_rows_sum(
    teams: Map<Seq<char>, i64>,
    names: Map<i64, String>,
    rows: Seq<(Seq<char>, i64)>,
    got: Seq<UsageModel>,
    n: int,
)
    requires
        team_sizes_fit(teams, rows),
        0 <= n <= got.len(),
        got.len() == team_ids(teams, rows).len(),
        forall|i: int|
            0 <= i < got.len() ==> #[trigger] got[i] == team_usage(
                teams,
                names,
                rows,
                team_ids(teams, rows)[i],
            ),
    ensures
        team_rows_size(got, n) == ids_size(teams, rows, team_ids(teams, rows), n),
    decreases n,
{
    if n > 0 {
        lemma_rows_sum(teams, names, rows, got, n - 1);
        let t = team_ids(teams, rows)[n - 1];
        assert(rows.take(rows.len() as int) =~= rows);
        assert(i64::MIN <= team_size(teams, rows.take(rows.len() as int), t) <= i64::MAX);
        assert(got[n - 1] == team_usage(teams, names, rows, t));
    }
}

/// A snapshot's teams: each team that a listed user is on has exactly one row, under its
/// own name and number, and the rows together hold what all users on a team take.
pub proof fn law_team_rows_add_up(
    teams: Map<Seq<char>, i64>,
    names: Map<i64, String>,
    rows: Seq<(Seq<char>, i64)>,
    got: Seq<UsageModel>,
)
    requires
        team_sizes_fit(teams, rows),
        got.len() == team_ids(teams, rows).len(),
        forall|i: int|
            0 <= i < got.len() ==> #[trigger] got[i] == team_usage(
                teams,
                names,
                rows,
                team_ids(teams, rows)[i],
            ),
    ensures
        team_rows_size(got, got.len() as int) == teamed_size(teams, rows),
        forall|i: int, j: int|
            0 <= i < j < got.len() ==> (#[trigger] got[i]).team_id != (#[trigger] got[j]).team_id,
        forall|i: int|
            0 <= i < got.len() ==> {
                &&& (#[trigger] got[i]).kind == "team"@
                &&& got[i].team_id is Some
                &&& names.contains_key(got[i].team_id->0) ==> got[i].name
                    == names[got[i].team_id->0]@
                &&& !names.contains_key(got[i].team_id->0) ==> got[i].name.len() == 0
                &&& exists|k: int|
                    0 <= k < rows.len() && teams.contains_key((#[trigger] rows[k]).0)
                        && teams[rows[k].0] == got[i].team_id->0
            },
        forall|k: int|
            0 <= k < rows.len() && teams.contains_key((#[trigger] rows[k]).0) ==> exists|i: int|
                0 <= i < got.len() && (#[trigger] got[i]).team_id == Some(teams[rows[k].0]),
{
    let ids = team_ids(teams, rows);
    lemma_team_ids_members(teams, rows);
    assert forall|k: int|
        0 <= k < rows.len() && teams.contains_key((#[trigger] rows[k]).0) implies ids.contains(
        teams[rows[k].0],
    ) by {}
    lemma_all_teams(teams, rows, ids);
    lemma_rows_sum(teams, names, rows, got, got.len() as int);
    assert forall|i: int| 0 <= i < got.len() implies ids.contains(ids[i]) && (
    #[trigger] got[i]).team_id == Some(ids[i]) by {
        assert(ids[i] == ids[i]);
    }
    assert forall|k: int|
        0 <= k < rows.len() && teams.contains_key((#[trigger] rows[k]).0) implies exists|i: int|
        0 <= i < got.len() && (#[trigger] got[i]).team_id == Some(teams[rows[k].0]) by {
        assert(ids.contains(teams[rows[k].0]));
        let i = choose|i: int| 0 <= i < ids.len() && ids[i] == teams[rows[k].0];
        assert(got[i].team_id == Some(teams[rows[k].0]));
    }
}

/// A snapshot's users keep their names and sizes; those on a team are of the kind `user`
/// with their team, the others of the kind `other` without one.
pub proof fn law_user_rows_keep_sizes(teams: Map<Seq<char>, i64>, row: (Seq<char>, i64))
    ensures
        user_usage(teams, row).name == row.0,
        user_usage(teams, row).size == row.1,
        teams.contains_key(row.0) ==> user_usage(teams, row).kind == "user"@ && user_usage(
            teams,
            row,
        ).team_id == Some(teams[row.0]),
        !teams.contains_key(row.0) ==> user_usage(teams, row).kind == "other"@ && user_usage(
            teams,
            row,
        ).team_id is None,
{
}

/// Of two users whose first values are not 0, the one whose last value exceeds the first
/// by more comes first, whatever stands between the two.
pub proof fn law_the_way_between_does_not_matter(rows: Seq<SeriesRow>, i: int, j: int)
    requires
        rows[i].values@.len() >= 2,
        rows[j].values@.len() >= 2,
        rows[i].values@[0] != 0,
        rows[j].values@[0] != 0,
    ensures
        grew_more(rows)(i, j) <==> rows[i].values@.last() - rows[i].values@[0]
            > rows[j].values@.last() - rows[j].values@[0],
{
    lemma_first_nonzero(rows[i].values@, 0, 0);
    lemma_first_nonzero(rows[j].values@, 0, 0);
}

} // verus!
