//! What of a scan a report takes. A target below another one is walked with it, and
//! its report takes the records below the target's own path.

use crate::events::DirAggEvent;
use crate::events::DirAggModel;
use crate::events::DirOwnerEvent;
use crate::events::DirOwnerModel;
use crate::events::PermissionEvent;
use crate::events::PermissionModel;
use crate::events::ScanEvent;
use crate::events::ScanModel;
use crate::events;
use crate::ingest;
use crate::paths;
use crate::text;
use vstd::prelude::*;

verus! {

/// Whether a report takes the record of a path: every one where there is no prefix,
/// else the prefix and what is below it.
pub open spec fn in_scope(path: Seq<char>, prefix: Option<Seq<char>>) -> bool {
    prefix matches Some(p) ==> paths::path_below(path, p)
}

/// Whether a report takes the record of a path.
pub fn below_prefix(path: &str, prefix: &Option<String>) -> (r: bool)
    ensures
        r == in_scope(path@, text::opt(*prefix)),
{
    match prefix {
        Some(p) => paths::path_starts_with(path, p.as_str()),
        None => true,
    }
}

proof fn lemma_filter_all<A>(s: Seq<A>, f: spec_fn(A) -> bool)
    requires
        forall|i: int| 0 <= i < s.len() ==> f(#[trigger] s[i]),
    ensures
        s.filter(f) == s,
    decreases s.len(),
{
    reveal(Seq::filter);
    if s.len() > 0 {
        let rest = s.drop_last();
        assert forall|i: int| 0 <= i < rest.len() implies f(#[trigger] rest[i]) by {
            assert(rest[i] == s[i]);
        }
        lemma_filter_all(rest, f);
        assert(f(s[s.len() - 1]));
    }
    assert(s.filter(f) =~= s);
}

/// Those of the files of a scan that a report takes.
pub open spec fn scans_in(evs: Seq<ScanModel>, prefix: Option<Seq<char>>) -> Seq<ScanModel> {
    evs.filter(|e: ScanModel| in_scope(e.path, prefix))
}

/// Those of the files of a scan that a report takes.
pub fn keep_scans(evs: Vec<ScanEvent>, prefix: &Option<String>) -> (r: Vec<ScanEvent>)
    ensures
        events::scan_views(r@) == scans_in(events::scan_views(evs@), text::opt(*prefix)),
{
    let ghost all = events::scan_views(evs@);
    let ghost f = |e: ScanModel| in_scope(e.path, text::opt(*prefix));
    if prefix.is_none() {
        proof {
            lemma_filter_all(all, f);
        }
        return evs;
    }
    let mut r: Vec<ScanEvent> = Vec::new();
    let mut i: usize = 0;
    proof {
        reveal(Seq::filter);
        assert(events::scan_views(r@) =~= all.take(0).filter(f));
    }
    while i < evs.len()
        invariant
            i <= evs@.len(),
            all == events::scan_views(evs@),
            f == (|e: ScanModel| in_scope(e.path, text::opt(*prefix))),
            events::scan_views(r@) == all.take(i as int).filter(f),
        decreases evs@.len() - i,
    {
        let e: &ScanEvent = &evs[i];
        let ghost before = events::scan_views(r@);
        proof {
            reveal(Seq::filter);
            assert(all.take(i + 1).drop_last() =~= all.take(i as int));
            assert(all.take(i + 1).last() == e@);
        }
        if below_prefix(e.path.as_str(), prefix) {
            r.push(ScanEvent { uid: e.uid, size: e.size, path: e.path.clone() });
            assert(events::scan_views(r@) =~= before.push(e@));
        }
        i = i + 1;
    }
    assert(all.take(i as int) =~= all);
    r
}

/// Those of the directory sizes of a scan that a report takes.
pub open spec fn dir_aggs_in(evs: Seq<DirAggModel>, prefix: Option<Seq<char>>) -> Seq<DirAggModel> {
    evs.filter(|e: DirAggModel| in_scope(e.path, prefix))
}

/// Those of the directory sizes of a scan that a report takes.
pub fn keep_dir_aggs(evs: Vec<DirAggEvent>, prefix: &Option<String>) -> (r: Vec<DirAggEvent>)
    ensures
        events::dir_agg_views(r@) == dir_aggs_in(events::dir_agg_views(evs@), text::opt(*prefix)),
{
    let ghost all = events::dir_agg_views(evs@);
    let ghost f = |e: DirAggModel| in_scope(e.path, text::opt(*prefix));
    if prefix.is_none() {
        proof {
            lemma_filter_all(all, f);
        }
        return evs;
    }
    let mut r: Vec<DirAggEvent> = Vec::new();
    let mut i: usize = 0;
    proof {
        reveal(Seq::filter);
        assert(events::dir_agg_views(r@) =~= all.take(0).filter(f));
    }
    while i < evs.len()
        invariant
            i <= evs@.len(),
            all == events::dir_agg_views(evs@),
            f == (|e: DirAggModel| in_scope(e.path, text::opt(*prefix))),
            events::dir_agg_views(r@) == all.take(i as int).filter(f),
        decreases evs@.len() - i,
    {
        let e: &DirAggEvent = &evs[i];
        let ghost before = events::dir_agg_views(r@);
        proof {
            reveal(Seq::filter);
            assert(all.take(i + 1).drop_last() =~= all.take(i as int));
            assert(all.take(i + 1).last() == e@);
        }
        if below_prefix(e.path.as_str(), prefix) {
            r.push(DirAggEvent { uid: e.uid, size: e.size, path: e.path.clone() });
            assert(events::dir_agg_views(r@) =~= before.push(e@));
        }
        i = i + 1;
    }
    assert(all.take(i as int) =~= all);
    r
}

/// Those of the owners of directories of a scan that a report takes.
pub open spec fn owners_in(evs: Seq<DirOwnerModel>, prefix: Option<Seq<char>>) -> Seq<DirOwnerModel> {
    evs.filter(|e: DirOwnerModel| in_scope(e.path, prefix))
}

/// Those of the owners of directories of a scan that a report takes.
pub fn keep_owners(evs: Vec<DirOwnerEvent>, prefix: &Option<String>) -> (r: Vec<DirOwnerEvent>)
    ensures
        events::dir_owner_views(r@) == owners_in(events::dir_owner_views(evs@), text::opt(*prefix)),
{
    let ghost all = events::dir_owner_views(evs@);
    let ghost f = |e: DirOwnerModel| in_scope(e.path, text::opt(*prefix));
    if prefix.is_none() {
        proof {
            lemma_filter_all(all, f);
        }
        return evs;
    }
    let mut r: Vec<DirOwnerEvent> = Vec::new();
    let mut i: usize = 0;
    proof {
        reveal(Seq::filter);
        assert(events::dir_owner_views(r@) =~= all.take(0).filter(f));
    }
    while i < evs.len()
        invariant
            i <= evs@.len(),
            all == events::dir_owner_views(evs@),
            f == (|e: DirOwnerModel| in_scope(e.path, text::opt(*prefix))),
            events::dir_owner_views(r@) == all.take(i as int).filter(f),
        decreases evs@.len() - i,
    {
        let e: &DirOwnerEvent = &evs[i];
        let ghost before = events::dir_owner_views(r@);
        proof {
            reveal(Seq::filter);
            assert(all.take(i + 1).drop_last() =~= all.take(i as int));
            assert(all.take(i + 1).last() == e@);
        }
        if below_prefix(e.path.as_str(), prefix) {
            r.push(DirOwnerEvent { uid: e.uid, path: e.path.clone() });
            assert(events::dir_owner_views(r@) =~= before.push(e@));
        }
        i = i + 1;
    }
    assert(all.take(i as int) =~= all);
    r
}

/// Those of the permission issues of a scan that a report takes.
pub open spec fn issues_in(evs: Seq<PermissionModel>, prefix: Option<Seq<char>>) -> Seq<PermissionModel> {
    evs.filter(|e: PermissionModel| in_scope(e.path, prefix))
}

/// Those of the permission issues of a scan that a report takes.
pub fn keep_issues(evs: Vec<PermissionEvent>, prefix: &Option<String>) -> (r: Vec<PermissionEvent>)
    ensures
        events::permission_views(r@) == issues_in(events::permission_views(evs@), text::opt(*prefix)),
{
    let ghost all = events::permission_views(evs@);
    let ghost f = |e: PermissionModel| in_scope(e.path, text::opt(*prefix));
    if prefix.is_none() {
        proof {
            lemma_filter_all(all, f);
        }
        return evs;
    }
    let mut r: Vec<PermissionEvent> = Vec::new();
    let mut i: usize = 0;
    proof {
        reveal(Seq::filter);
        assert(events::permission_views(r@) =~= all.take(0).filter(f));
    }
    while i < evs.len()
        invariant
            i <= evs@.len(),
            all == events::permission_views(evs@),
            f == (|e: PermissionModel| in_scope(e.path, text::opt(*prefix))),
            events::permission_views(r@) == all.take(i as int).filter(f),
        decreases evs@.len() - i,
    {
        let e: &PermissionEvent = &evs[i];
        let ghost before = events::permission_views(r@);
        proof {
            reveal(Seq::filter);
            assert(all.take(i + 1).drop_last() =~= all.take(i as int));
            assert(all.take(i + 1).last() == e@);
        }
        if below_prefix(e.path.as_str(), prefix) {
            r.push(
                PermissionEvent {
                    uid: e.uid,
                    kind: e.kind.clone(),
                    errcode: e.errcode.clone(),
                    path: e.path.clone(),
                },
            );
            assert(events::permission_views(r@) =~= before.push(e@));
        }
        i = i + 1;
    }
    assert(all.take(i as int) =~= all);
    r
}

/// The files that a report takes of a file of records.
pub open spec fn taken_scans(file: Seq<u8>, prefix: Option<Seq<char>>) -> Seq<ScanModel> {
    scans_in(events::scan_events_of(file), prefix)
}

/// The directory sizes that a report takes of a file of records.
pub open spec fn taken_dir_aggs(file: Seq<u8>, prefix: Option<Seq<char>>) -> Seq<DirAggModel> {
    dir_aggs_in(events::dir_aggs_of(file), prefix)
}

// ---------------------------------------------------------------------------
// Laws
// ---------------------------------------------------------------------------

/// What a report takes of two files of records is what it takes of the one and then
/// of the other.
pub proof fn law_files_are_taken_one_by_one(
    a: Seq<ScanModel>,
    b: Seq<ScanModel>,
    prefix: Option<Seq<char>>,
)
    ensures
        scans_in(a + b, prefix) == scans_in(a, prefix) + scans_in(b, prefix),
    decreases b.len(),
{
    reveal(Seq::filter);
    if b.len() == 0 {
        assert(a + b =~= a);
        assert(scans_in(a, prefix) + scans_in(b, prefix) =~= scans_in(a, prefix));
    } else {
        let rest = b.drop_last();
        law_files_are_taken_one_by_one(a, rest, prefix);
        assert((a + b).drop_last() =~= a + rest);
        assert((a + b).last() == b.last());
        assert(scans_in(a + b, prefix) =~= scans_in(a, prefix) + scans_in(b, prefix));
    }
}

/// A record is taken exactly if it is in scope, and taking records again takes the
/// same.
pub proof fn law_taken_records(evs: Seq<ScanModel>, prefix: Option<Seq<char>>)
    ensures
        forall|e: ScanModel| #[trigger]
            scans_in(evs, prefix).contains(e) <==> evs.contains(e) && in_scope(e.path, prefix),
        scans_in(scans_in(evs, prefix), prefix) == scans_in(evs, prefix),
        prefix is None ==> scans_in(evs, prefix) == evs,
    decreases evs.len(),
{
    let f = |e: ScanModel| in_scope(e.path, prefix);
    reveal(Seq::filter);
    let now = scans_in(evs, prefix);
    if evs.len() > 0 {
        let rest = evs.drop_last();
        let before = scans_in(rest, prefix);
        law_taken_records(rest, prefix);
        assert forall|e: ScanModel| #[trigger] now.contains(e) <==> evs.contains(e) && in_scope(
            e.path,
            prefix,
        ) by {
            assert(before.contains(e) <==> rest.contains(e) && in_scope(e.path, prefix));
            if now.contains(e) {
                let k = choose|k: int| 0 <= k < now.len() && now[k] == e;
                if k < before.len() {
                    assert(before[k] == e);
                    let j = choose|j: int| 0 <= j < rest.len() && rest[j] == e;
                    assert(evs[j] == e);
                } else {
                    assert(evs[evs.len() - 1] == e);
                }
            }
            if evs.contains(e) && in_scope(e.path, prefix) {
                let j = choose|j: int| 0 <= j < evs.len() && evs[j] == e;
                if j < rest.len() {
                    assert(rest[j] == e);
                    let k = choose|k: int| 0 <= k < before.len() && before[k] == e;
                    assert(now[k] == e);
                } else {
                    assert(now[now.len() - 1] == e);
                }
            }
        }
    }
    assert forall|i: int| 0 <= i < now.len() implies f(#[trigger] now[i]) by {
        assert(now.contains(now[i]));
    }
    lemma_filter_all(now, f);
    if prefix is None {
        lemma_filter_all(evs, f);
    }
}

/// The directory sizes that a report takes are those of the directories in scope,
/// unchanged.
pub proof fn law_taken_sizes(
    evs: Seq<DirAggModel>,
    prefix: Option<Seq<char>>,
    dir: Seq<char>,
    uid: u32,
)
    ensures
        ingest::agg_bytes(dir_aggs_in(evs, prefix), dir, uid) == (if in_scope(dir, prefix) {
            ingest::agg_bytes(evs, dir, uid)
        } else {
            0
        }),
    decreases evs.len(),
{
    reveal(Seq::filter);
    if evs.len() > 0 {
        let rest = evs.drop_last();
        law_taken_sizes(rest, prefix, dir, uid);
        let before = dir_aggs_in(rest, prefix);
        assert(before.push(evs.last()).drop_last() =~= before);
    }
}

} // verus!
