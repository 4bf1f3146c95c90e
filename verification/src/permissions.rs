//! The report of what could not be read: its rows in their order, and what it
//! says of itself.

use crate::db;
use crate::events::IssueRow;
use crate::events::PermissionEvent;
use crate::events::PermissionModel;
use crate::events;
use crate::order;
use crate::text;
use std::collections::HashMap;
use vstd::prelude::*;

verus! {

/// An issue comes before another by uid, then path, then error, then kind.
pub open spec fn issue_lt(a: PermissionModel, b: PermissionModel) -> bool {
    a.uid < b.uid || (a.uid == b.uid && (text::lex_lt(a.path, b.path) || (a.path == b.path && (text::lex_lt(
        a.errcode,
        b.errcode,
    ) || (a.errcode == b.errcode && text::lex_lt(a.kind, b.kind))))))
}

/// The order of the issues at two places.
pub open spec fn issue_order(v: Seq<PermissionModel>) -> spec_fn(int, int) -> bool {
    |i: int, j: int| issue_lt(v[i], v[j])
}

proof fn lemma_issue_asym(a: PermissionModel, b: PermissionModel)
    ensures
        issue_lt(a, b) ==> !issue_lt(b, a),
{
    text::lemma_lex_asym(a.path, b.path);
    text::lemma_lex_asym(b.path, a.path);
    text::lemma_lex_asym(a.errcode, b.errcode);
    text::lemma_lex_asym(b.errcode, a.errcode);
    text::lemma_lex_asym(a.kind, b.kind);
    text::lemma_lex_asym(b.kind, a.kind);
}

proof fn lemma_issue_split(a: PermissionModel, b: PermissionModel, c: PermissionModel)
    requires
        issue_lt(a, c),
    ensures
        issue_lt(a, b) || issue_lt(b, c),
{
    text::lemma_lex_total(a.path, b.path);
    text::lemma_lex_total(b.path, c.path);
    text::lemma_lex_total(a.errcode, b.errcode);
    text::lemma_lex_total(b.errcode, c.errcode);
    text::lemma_lex_asym(a.path, b.path);
    text::lemma_lex_asym(b.path, a.path);
    text::lemma_lex_asym(a.errcode, b.errcode);
    if text::lex_lt(a.path, c.path) {
        text::lemma_lex_split(a.path, b.path, c.path);
    }
    if text::lex_lt(a.errcode, c.errcode) {
        text::lemma_lex_split(a.errcode, b.errcode, c.errcode);
    }
    if text::lex_lt(a.kind, c.kind) {
        text::lemma_lex_split(a.kind, b.kind, c.kind);
    }
}

proof fn lemma_issue_order(v: Seq<PermissionModel>)
    ensures
        order::weak_order(issue_order(v), v.len() as int),
{
    let lt = issue_order(v);
    assert forall|i: int, j: int|
        0 <= i < v.len() && 0 <= j < v.len() && #[trigger] lt(i, j) implies !lt(j, i) by {
        lemma_issue_asym(v[i], v[j]);
    }
    assert forall|i: int, j: int, k: int|
        #![trigger lt(i, k), lt(i, j)]
        #![trigger lt(i, k), lt(j, k)]
        0 <= i < v.len() && 0 <= j < v.len() && 0 <= k < v.len() && lt(i, k) implies lt(i, j)
        || lt(j, k) by {
        lemma_issue_split(v[i], v[j], v[k]);
    }
}

fn comes_before(a: &PermissionEvent, b: &PermissionEvent) -> (r: bool)
    ensures
        r == issue_lt(a@, b@),
{
    if a.uid != b.uid {
        return a.uid < b.uid;
    }
    if !text::str_eq(a.path.as_str(), b.path.as_str()) {
        return text::chars_lt(&text::to_chars(a.path.as_str()), &text::to_chars(b.path.as_str()));
    }
    proof {
        text::lemma_lex_asym(a.path@, b.path@);
        text::lemma_lex_asym(a.errcode@, a.errcode@);
    }
    if !text::str_eq(a.errcode.as_str(), b.errcode.as_str()) {
        return text::chars_lt(&text::to_chars(a.errcode.as_str()), &text::to_chars(b.errcode.as_str()));
    }
    text::chars_lt(&text::to_chars(a.kind.as_str()), &text::to_chars(b.kind.as_str()))
}

/// Whether rows are those of issues, taken in the order `p`.
pub open spec fn issues_in(
    rows: Seq<IssueRow>,
    evs: Seq<PermissionModel>,
    uids: Map<u32, Seq<char>>,
    p: Seq<usize>,
) -> bool {
    &&& rows.len() == evs.len()
    &&& forall|k: int|
        0 <= k < rows.len() ==> (#[trigger] rows[k])@ == events::issue_of(evs[p[k] as int], uids)
}

/// The rows of the issues: by uid, path, error and kind.
pub fn issue_rows(evs: &Vec<PermissionEvent>, uids: &HashMap<u32, String>) -> (r: Vec<IssueRow>)
    ensures
        exists|p: Seq<usize>| #[trigger]
            order::sorted_range(p, 0, evs@.len() as int, issue_order(events::permission_views(evs@))) && issues_in(
                r@,
                events::permission_views(evs@),
                events::names_of(uids@),
                p,
            ),
{
    let n: usize = evs.len();
    let ghost all = events::permission_views(evs@);
    let less = |i: usize, j: usize| -> (b: bool)
        requires
            i < evs@.len(),
            j < evs@.len(),
        ensures
            b == issue_lt(evs@[i as int]@, evs@[j as int]@),
        { comes_before(&evs[i], &evs[j]) };
    let ghost lt = issue_order(all);
    proof {
        lemma_issue_order(all);
    }
    let p = order::sort_indices(n, &less, Ghost(lt));
    let mut out: Vec<IssueRow> = Vec::new();
    let mut k: usize = 0;
    while k < p.len()
        invariant
            k <= p@.len(),
            p@.len() == evs@.len(),
            all == events::permission_views(evs@),
            forall|x: int| 0 <= x < p@.len() ==> 0 <= #[trigger] p@[x] < evs@.len(),
            out@.len() == k,
            forall|x: int|
                0 <= x < k ==> (#[trigger] out@[x])@ == events::issue_of(
                    all[p@[x] as int],
                    events::names_of(uids@),
                ),
        decreases p@.len() - k,
    {
        assert(all[p@[k as int] as int] == evs@[p@[k as int] as int]@);
        out.push(events::issue_row(&evs[p[k]], uids));
        k = k + 1;
    }
    assert(order::sorted_range(p@, 0, evs@.len() as int, issue_order(all)));
    assert(issues_in(out@, all, events::names_of(uids@), p@));
    out
}

/// The `meta` table of the report of issues.
pub fn issues_meta(timestamp: i64, directory: &str, total: usize) -> (r: Vec<(String, String)>)
    ensures
        db::meta_views(r@) == seq![
            ("date"@, text::dec_int(timestamp as int)),
            ("directory"@, directory@),
            ("total"@, text::dec(total as nat)),
            ("schema_version"@, "1"@),
        ],
{
    let mut out: Vec<(String, String)> = Vec::new();
    out.push(("date".to_owned(), text::dec_int_string(timestamp)));
    out.push(("directory".to_owned(), directory.to_owned()));
    out.push(("total".to_owned(), text::dec_string(total as u64)));
    out.push(("schema_version".to_owned(), "1".to_owned()));
    assert(db::meta_views(out@) =~= seq![
        ("date"@, text::dec_int(timestamp as int)),
        ("directory"@, directory@),
        ("total"@, text::dec(total as nat)),
        ("schema_version"@, "1"@),
    ]);
    out
}

/// The report of issues has one row for each issue that was recorded and no other: each
/// row tells the user, the kind, the error and the path of its own issue, no issue has
/// two, and the rows stand by uid, then path, then error, then kind. The user is the one
/// that the uid leads to; for uid 0 without a name none is known, and any other goes by
/// its number.
pub proof fn law_every_issue_has_its_row(
    rows: Seq<IssueRow>,
    evs: Seq<PermissionModel>,
    uids: Map<u32, Seq<char>>,
    p: Seq<usize>,
)
    requires
        order::sorted_range(p, 0, evs.len() as int, issue_order(evs)),
        issues_in(rows, evs, uids, p),
        evs.len() <= usize::MAX,
    ensures
        rows.len() == evs.len(),
        p.no_duplicates(),
        forall|k: int|
            0 <= k < rows.len() ==> {
                let e = evs[p[k] as int];
                &&& 0 <= p[k] < evs.len()
                &&& (#[trigger] rows[k]).item_type@ == e.kind
                &&& rows[k].error@ == e.errcode
                &&& rows[k].path@ == e.path
                &&& uids.contains_key(e.uid) ==> rows[k].user@ == uids[e.uid]
                &&& !uids.contains_key(e.uid) && e.uid == 0 ==> rows[k].user@ == "__unknown__"@
                &&& !uids.contains_key(e.uid) && e.uid != 0 ==> rows[k].user@ == "uid-"@
                    + text::dec(e.uid as nat)
            },
        forall|i: usize| i < evs.len() ==> #[trigger] p.contains(i),
        forall|k: int, l: int|
            0 <= k < l < rows.len() ==> {
                let a = evs[#[trigger] p[k] as int];
                let b = evs[#[trigger] p[l] as int];
                &&& a.uid <= b.uid
                &&& a.uid == b.uid ==> a.path == b.path || text::lex_lt(a.path, b.path)
                &&& a.uid == b.uid && a.path == b.path ==> a.errcode == b.errcode || text::lex_lt(
                    a.errcode,
                    b.errcode,
                )
                &&& a.uid == b.uid && a.path == b.path && a.errcode == b.errcode ==> a.kind
                    == b.kind || text::lex_lt(a.kind, b.kind)
            },
{
    let lt = issue_order(evs);
    lemma_issue_order(evs);
    order::lemma_sorted_distinct(p, evs.len() as int, lt);
    assert forall|k: int, l: int| 0 <= k < l < rows.len() implies ({
        let a = evs[#[trigger] p[k] as int];
        let b = evs[#[trigger] p[l] as int];
        &&& a.uid <= b.uid
        &&& a.uid == b.uid ==> a.path == b.path || text::lex_lt(a.path, b.path)
        &&& a.uid == b.uid && a.path == b.path ==> a.errcode == b.errcode || text::lex_lt(
            a.errcode,
            b.errcode,
        )
        &&& a.uid == b.uid && a.path == b.path && a.errcode == b.errcode ==> a.kind == b.kind
            || text::lex_lt(a.kind, b.kind)
    }) by {
        let a = evs[p[k] as int];
        let b = evs[p[l] as int];
        assert(order::before(lt, p[k] as int, p[l] as int));
        text::lemma_lex_total(a.path, b.path);
        text::lemma_lex_total(a.errcode, b.errcode);
        text::lemma_lex_total(a.kind, b.kind);
        text::lemma_lex_asym(a.path, b.path);
        text::lemma_lex_asym(a.errcode, b.errcode);
        text::lemma_lex_asym(a.kind, b.kind);
    }
}

} // verus!
