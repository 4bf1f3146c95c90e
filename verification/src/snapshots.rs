//! The history of a target: one snapshot a day, of which the latest scan of the
//! day counts, until it is purged.

use crate::history::SnapshotMeta;
use crate::history::SnapshotRows;
use vstd::prelude::*;

verus! {

/// A snapshot that is there: its key, and its day as `yyyymmdd`.
#[derive(PartialEq, Eq, Structural, Copy, Clone, Debug)]
pub struct DayRow {
    pub id: i64,
    pub scan_date: i64,
}

/// What is written for a scan: the snapshots that make way for it, and the new
/// one.
pub struct SnapshotWrite {
    pub replaced: Vec<i64>,
    pub scan_date: i64,
    pub scanned_at: i64,
    pub meta: SnapshotMeta,
    pub rows: SnapshotRows,
}

/// The keys of the snapshots of a day.
pub open spec fn on_day(l: Seq<DayRow>, date: int) -> Seq<i64>
    decreases l.len(),
{
    if l.len() == 0 {
        Seq::empty()
    } else {
        let r = on_day(l.drop_last(), date);
        if l.last().scan_date == date {
            r.push(l.last().id)
        } else {
            r
        }
    }
}

/// The keys of the snapshots of days before `cutoff`.
pub open spec fn before_day(l: Seq<DayRow>, cutoff: int) -> Seq<i64>
    decreases l.len(),
{
    if l.len() == 0 {
        Seq::empty()
    } else {
        let r = before_day(l.drop_last(), cutoff);
        if l.last().scan_date < cutoff {
            r.push(l.last().id)
        } else {
            r
        }
    }
}

/// The snapshots that are left where those with the keys `gone` are deleted.
pub open spec fn kept(l: Seq<DayRow>, gone: Seq<i64>) -> Seq<DayRow>
    decreases l.len(),
{
    if l.len() == 0 {
        Seq::empty()
    } else {
        let r = kept(l.drop_last(), gone);
        if gone.contains(l.last().id) {
            r
        } else {
            r.push(l.last())
        }
    }
}

/// No two snapshots have the same key.
pub open spec fn keys_differ(l: Seq<DayRow>) -> bool {
    forall|i: int, j: int|
        0 <= i < j < l.len() ==> (#[trigger] l[i]).id != (#[trigger] l[j]).id
}

/// No two snapshots are of the same day.
pub open spec fn one_a_day(l: Seq<DayRow>) -> bool {
    forall|i: int, j: int|
        0 <= i < j < l.len() ==> (#[trigger] l[i]).scan_date != (#[trigger] l[j]).scan_date
}

/// The history after a scan on the day `date`, whose snapshot got the key `id`.
pub open spec fn after_scan(l: Seq<DayRow>, date: i64, id: i64) -> Seq<DayRow> {
    kept(l, on_day(l, date as int)).push(DayRow { id, scan_date: date })
}

/// The history after a purge.
pub open spec fn after_purge(l: Seq<DayRow>, cutoff: i64) -> Seq<DayRow> {
    kept(l, before_day(l, cutoff as int))
}

/// What a scan at `timestamp`, on the day `date`, writes into a history: its
/// snapshot, in place of an earlier one of that day.
pub fn upsert_snapshot(
    listed: &Vec<DayRow>,
    date: i64,
    timestamp: i64,
    meta: SnapshotMeta,
    rows: SnapshotRows,
) -> (r: SnapshotWrite)
    ensures
        r.replaced@ == on_day(listed@, date as int),
        r.scan_date == date,
        r.scanned_at == timestamp,
        r.meta == meta,
        r.rows == rows,
{
    let mut replaced: Vec<i64> = Vec::new();
    let mut i: usize = 0;
    while i < listed.len()
        invariant
            i <= listed@.len(),
            replaced@ == on_day(listed@.take(i as int), date as int),
        decreases listed@.len() - i,
    {
        proof {
            assert(listed@.take(i + 1).drop_last() =~= listed@.take(i as int));
        }
        if listed[i].scan_date == date {
            replaced.push(listed[i].id);
        }
        i = i + 1;
    }
    assert(listed@.take(i as int) =~= listed@);
    SnapshotWrite { replaced, scan_date: date, scanned_at: timestamp, meta, rows }
}

/// The snapshots to delete where those of days before `cutoff` are to go.
pub fn purge_older_than(listed: &Vec<DayRow>, cutoff: i64) -> (r: Vec<i64>)
    ensures
        r@ == before_day(listed@, cutoff as int),
{
    let mut gone: Vec<i64> = Vec::new();
    let mut i: usize = 0;
    while i < listed.len()
        invariant
            i <= listed@.len(),
            gone@ == before_day(listed@.take(i as int), cutoff as int),
        decreases listed@.len() - i,
    {
        proof {
            assert(listed@.take(i + 1).drop_last() =~= listed@.take(i as int));
        }
        if listed[i].scan_date < cutoff {
            gone.push(listed[i].id);
        }
        i = i + 1;
    }
    assert(listed@.take(i as int) =~= listed@);
    gone
}

// ---------------------------------------------------------------------------
// Lemmas
// ---------------------------------------------------------------------------

proof fn lemma_on_day(l: Seq<DayRow>, date: int, id: i64)
    ensures
        on_day(l, date).contains(id) <==> exists|i: int|
            0 <= i < l.len() && (#[trigger] l[i]).id == id && l[i].scan_date == date,
    decreases l.len(),
{
    if l.len() > 0 {
        let front = l.drop_last();
        let r = on_day(front, date);
        lemma_on_day(front, date, id);
        if on_day(l, date).contains(id) {
            let k = choose|k: int| 0 <= k < on_day(l, date).len() && on_day(l, date)[k] == id;
            if k < r.len() {
                assert(r[k] == id);
                let i = choose|i: int|
                    0 <= i < front.len() && (#[trigger] front[i]).id == id && front[i].scan_date
                        == date;
                assert(l[i] == front[i]);
            } else {
                assert(l[l.len() - 1].id == id);
            }
        }
        if exists|i: int|
            0 <= i < l.len() && (#[trigger] l[i]).id == id && l[i].scan_date == date {
            let i = choose|i: int|
                0 <= i < l.len() && (#[trigger] l[i]).id == id && l[i].scan_date == date;
            if i < front.len() {
                assert(front[i] == l[i]);
                let k = choose|k: int| 0 <= k < r.len() && r[k] == id;
                assert(on_day(l, date)[k] == id);
            } else {
                assert(on_day(l, date)[r.len() as int] == id);
            }
        }
    }
}

proof fn lemma_before_day(l: Seq<DayRow>, cutoff: int, id: i64)
    ensures
        before_day(l, cutoff).contains(id) <==> exists|i: int|
            0 <= i < l.len() && (#[trigger] l[i]).id == id && l[i].scan_date < cutoff,
    decreases l.len(),
{
    if l.len() > 0 {
        let front = l.drop_last();
        let r = before_day(front, cutoff);
        lemma_before_day(front, cutoff, id);
        if before_day(l, cutoff).contains(id) {
            let k = choose|k: int|
                0 <= k < before_day(l, cutoff).len() && before_day(l, cutoff)[k] == id;
            if k < r.len() {
                assert(r[k] == id);
                let i = choose|i: int|
                    0 <= i < front.len() && (#[trigger] front[i]).id == id && front[i].scan_date
                        < cutoff;
                assert(l[i] == front[i]);
            } else {
                assert(l[l.len() - 1].id == id);
            }
        }
        if exists|i: int|
            0 <= i < l.len() && (#[trigger] l[i]).id == id && l[i].scan_date < cutoff {
            let i = choose|i: int|
                0 <= i < l.len() && (#[trigger] l[i]).id == id && l[i].scan_date < cutoff;
            if i < front.len() {
                assert(front[i] == l[i]);
                let k = choose|k: int| 0 <= k < r.len() && r[k] == id;
                assert(before_day(l, cutoff)[k] == id);
            } else {
                assert(before_day(l, cutoff)[r.len() as int] == id);
            }
        }
    }
}

/// What is kept stands in its old order: there is an increasing map of places.
proof fn lemma_kept(l: Seq<DayRow>, gone: Seq<i64>)
    ensures
        kept(l, gone).len() <= l.len(),
        forall|x: DayRow| #[trigger]
            kept(l, gone).contains(x) <==> l.contains(x) && !gone.contains(x.id),
        keys_differ(l) ==> keys_differ(kept(l, gone)),
        one_a_day(l) ==> one_a_day(kept(l, gone)),
    decreases l.len(),
{
    if l.len() > 0 {
        let front = l.drop_last();
        let r = kept(front, gone);
        lemma_kept(front, gone);
        let s = kept(l, gone);
        assert forall|x: DayRow| #[trigger] s.contains(x) <==> l.contains(x) && !gone.contains(
            x.id,
        ) by {
            if s.contains(x) {
                let k = choose|k: int| 0 <= k < s.len() && s[k] == x;
                if k < r.len() {
                    assert(r[k] == x);
                    assert(r.contains(x));
                    let i = choose|i: int| 0 <= i < front.len() && front[i] == x;
                    assert(l[i] == x);
                } else {
                    assert(l[l.len() - 1] == x);
                }
            }
            if l.contains(x) && !gone.contains(x.id) {
                let i = choose|i: int| 0 <= i < l.len() && l[i] == x;
                if i < front.len() {
                    assert(front[i] == x);
                    assert(front.contains(x));
                    assert(r.contains(x));
                    let k = choose|k: int| 0 <= k < r.len() && r[k] == x;
                    assert(s[k] == x);
                } else {
                    assert(s[r.len() as int] == x);
                }
            }
        }
        if keys_differ(l) {
            assert(keys_differ(front)) by {
                assert forall|i: int, j: int| 0 <= i < j < front.len() implies (
                #[trigger] front[i]).id != (#[trigger] front[j]).id by {
                    assert(front[i] == l[i] && front[j] == l[j]);
                }
            }
            assert forall|i: int, j: int| 0 <= i < j < s.len() implies (#[trigger] s[i]).id != (
            #[trigger] s[j]).id by {
                assert(r[i] == s[i]);
                if j < r.len() {
                    assert(r[j] == s[j]);
                } else {
                    assert(r.contains(s[i]));
                    let k = choose|k: int| 0 <= k < front.len() && front[k] == s[i];
                    assert(l[k] == s[i] && l[l.len() - 1] == s[j]);
                }
            }
        }
        if one_a_day(l) {
            assert(one_a_day(front)) by {
                assert forall|i: int, j: int| 0 <= i < j < front.len() implies (
                #[trigger] front[i]).scan_date != (#[trigger] front[j]).scan_date by {
                    assert(front[i] == l[i] && front[j] == l[j]);
                }
            }
            assert forall|i: int, j: int| 0 <= i < j < s.len() implies (#[trigger] s[i]).scan_date
                != (#[trigger] s[j]).scan_date by {
                assert(r[i] == s[i]);
                if j < r.len() {
                    assert(r[j] == s[j]);
                } else {
                    assert(r.contains(s[i]));
                    let k = choose|k: int| 0 <= k < front.len() && front[k] == s[i];
                    assert(l[k] == s[i] && l[l.len() - 1] == s[j]);
                }
            }
        }
    }
}

/// Nothing goes where no key is to go.
proof fn lemma_kept_all(l: Seq<DayRow>, gone: Seq<i64>)
    requires
        forall|i: int| 0 <= i < l.len() ==> !gone.contains((#[trigger] l[i]).id),
    ensures
        kept(l, gone) == l,
    decreases l.len(),
{
    if l.len() > 0 {
        let front = l.drop_last();
        assert forall|i: int| 0 <= i < front.len() implies !gone.contains(
            (#[trigger] front[i]).id,
        ) by {
            assert(front[i] == l[i]);
        }
        lemma_kept_all(front, gone);
        assert(l[l.len() - 1] == l.last());
        assert(front.push(l.last()) =~= l);
    }
}

proof fn lemma_kept_other_days(l: Seq<DayRow>, date: int)
    requires
        keys_differ(l),
    ensures
        forall|x: DayRow| #[trigger]
            kept(l, on_day(l, date)).contains(x) <==> l.contains(x) && x.scan_date != date,
{
    let gone = on_day(l, date);
    lemma_kept(l, gone);
    assert forall|x: DayRow| #[trigger] kept(l, gone).contains(x) <==> l.contains(x) && x.scan_date
        != date by {
        lemma_on_day(l, date, x.id);
        if l.contains(x) {
            let i = choose|i: int| 0 <= i < l.len() && l[i] == x;
            if gone.contains(x.id) {
                let j = choose|j: int|
                    0 <= j < l.len() && (#[trigger] l[j]).id == x.id && l[j].scan_date == date;
                assert(i == j);
            } else if x.scan_date == date {
                assert(l[i].id == x.id);
            }
        }
    }
}

// ---------------------------------------------------------------------------
// Laws
// ---------------------------------------------------------------------------

/// A history has one snapshot a day, however often the target is scanned. A scan
/// leaves the other days as they are, and its own day has its snapshot.
pub proof fn law_one_snapshot_a_day(l: Seq<DayRow>, date: i64, id: i64)
    requires
        keys_differ(l),
        one_a_day(l),
    ensures
        one_a_day(after_scan(l, date, id)),
        forall|x: DayRow|
            x.scan_date != date ==> (#[trigger] after_scan(l, date, id).contains(x)
                <==> l.contains(x)),
        forall|x: DayRow|
            x.scan_date == date ==> (#[trigger] after_scan(l, date, id).contains(x) <==> x.id
                == id),
{
    let gone = on_day(l, date as int);
    let rest = kept(l, gone);
    let s = after_scan(l, date, id);
    let new = DayRow { id, scan_date: date };
    lemma_kept(l, gone);
    lemma_kept_other_days(l, date as int);
    assert forall|i: int, j: int| 0 <= i < j < s.len() implies (#[trigger] s[i]).scan_date != (
    #[trigger] s[j]).scan_date by {
        assert(s[i] == rest[i]);
        assert(rest.contains(s[i]));
        if j < rest.len() {
            assert(s[j] == rest[j]);
        }
    }
    assert forall|x: DayRow| #[trigger] s.contains(x) <==> rest.contains(x) || x == new by {
        if rest.contains(x) {
            let k = choose|k: int| 0 <= k < rest.len() && rest[k] == x;
            assert(s[k] == x);
        }
        if x == new {
            assert(s[rest.len() as int] == x);
        }
        if s.contains(x) {
            let k = choose|k: int| 0 <= k < s.len() && s[k] == x;
            if k < rest.len() {
                assert(rest[k] == x);
            }
        }
    }
}

/// The later of two scans of a day takes the place of the earlier: the history is
/// the one that the later scan alone would have left.
pub proof fn law_rescan_replaces(l: Seq<DayRow>, date: i64, first: i64, second: i64)
    requires
        keys_differ(l),
        forall|i: int| 0 <= i < l.len() ==> (#[trigger] l[i]).id != first,
    ensures
        after_scan(after_scan(l, date, first), date, second) == after_scan(l, date, second),
{
    let d = date as int;
    let rest = kept(l, on_day(l, d));
    let s = after_scan(l, date, first);
    let new = DayRow { id: first, scan_date: date };
    lemma_kept(l, on_day(l, d));
    lemma_kept_other_days(l, d);
    assert(s.drop_last() =~= rest);
    assert(s.last() == new);
    // Of the rest nothing is of that day, so only the earlier snapshot goes.
    let gone = on_day(s, d);
    assert(gone == on_day(rest, d).push(first));
    assert forall|i: int| 0 <= i < rest.len() implies !gone.contains((#[trigger] rest[i]).id) by {
        let x = rest[i];
        assert(rest.contains(x));
        assert(l.contains(x));
        let k = choose|k: int| 0 <= k < l.len() && l[k] == x;
        assert(l[k].id != first);
        lemma_on_day(rest, d, x.id);
        if gone.contains(x.id) {
            let g = choose|g: int| 0 <= g < gone.len() && gone[g] == x.id;
            if g < on_day(rest, d).len() {
                assert(on_day(rest, d)[g] == x.id);
                let j = choose|j: int|
                    0 <= j < rest.len() && (#[trigger] rest[j]).id == x.id && rest[j].scan_date
                        == d;
                assert(rest.contains(rest[j]));
            }
        }
    }
    lemma_kept_all(rest, gone);
    assert(gone.contains(first)) by {
        assert(gone[on_day(rest, d).len() as int] == first);
    }
    assert(kept(s, gone) == rest);
}

/// A purge deletes the days before its limit and no others, and a second one with
/// that limit finds nothing to delete.
pub proof fn law_purge_keeps_recent_days(l: Seq<DayRow>, cutoff: i64)
    requires
        keys_differ(l),
    ensures
        forall|x: DayRow| #[trigger]
            after_purge(l, cutoff).contains(x) <==> l.contains(x) && x.scan_date >= cutoff,
        after_purge(after_purge(l, cutoff), cutoff) == after_purge(l, cutoff),
        one_a_day(l) ==> one_a_day(after_purge(l, cutoff)),
{
    let c = cutoff as int;
    let gone = before_day(l, c);
    let s = after_purge(l, cutoff);
    lemma_kept(l, gone);
    assert forall|x: DayRow| #[trigger] s.contains(x) <==> l.contains(x) && x.scan_date
        >= cutoff by {
        lemma_before_day(l, c, x.id);
        if l.contains(x) {
            let i = choose|i: int| 0 <= i < l.len() && l[i] == x;
            if gone.contains(x.id) {
                let j = choose|j: int|
                    0 <= j < l.len() && (#[trigger] l[j]).id == x.id && l[j].scan_date < c;
                assert(i == j);
            } else if x.scan_date < cutoff {
                assert(l[i].id == x.id);
            }
        }
    }
    let again = before_day(s, c);
    assert forall|i: int| 0 <= i < s.len() implies !again.contains((#[trigger] s[i]).id) by {
        lemma_before_day(s, c, s[i].id);
        if again.contains(s[i].id) {
            let j = choose|j: int|
                0 <= j < s.len() && (#[trigger] s[j]).id == s[i].id && s[j].scan_date < c;
            assert(s.contains(s[j]));
        }
    }
    lemma_kept_all(s, again);
}

} // verus!
