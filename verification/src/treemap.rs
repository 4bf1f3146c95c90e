//! The treemap report: the directory tree with sizes, counts and owners, down
//! to a level.

use crate::db::DirRow;
use crate::db::OwnerRow;
use crate::db::TreemapInput;
use crate::db;
use crate::interner;
use crate::path_tree::DirRowDraft;
use crate::path_tree::PathTree;
use crate::path_tree;
use crate::paths;
use crate::tally::DirTally;
use crate::tally::Tally;
use crate::tally;
use crate::text;
use crate::tree_sums;
use crate::users::UserTable;
use crate::users;
use vstd::prelude::*;
use vstd::string::*;

verus! {

/// The version of the aggregates that the treemap is built from.
pub const TREEMAP_AGG_VERSION: u32 = 2;

/// A directory of the tree.
#[derive(Clone, Copy, PartialEq, Eq, Structural, Debug)]
pub struct SerializableDirRow {
    pub id: i64,
    pub parent_id: Option<i64>,
    pub name_id: i64,
    pub depth: i64,
}

/// What the treemap is built from.
pub struct TreemapAggregates {
    pub version: u32,
    pub names: Vec<String>,
    pub dirs_in_order: Vec<SerializableDirRow>,
    /// Bytes by directory and user, in that order.
    pub owner_weights: Vec<(i64, i64, i64)>,
    /// The owner of each directory, by number; -1 where it is not known.
    pub dir_owner_uid: Vec<i64>,
    pub subtree_size: Vec<i64>,
    pub subtree_files: Vec<i64>,
    pub direct_dir_count: Vec<i64>,
    pub direct_file_count: Vec<i64>,
    pub total_size_by_dir: Vec<i64>,
    /// Every number with its user, by number.
    pub uid_to_username: Vec<(i64, String)>,
}

// ---------------------------------------------------------------------------
// Aggregates
// ---------------------------------------------------------------------------

/// The entries of a tally by directory and user.
pub open spec fn flat_weights(lists: Seq<Vec<Tally>>, n: int) -> Seq<(i64, i64, i64)>
    decreases n,
{
    if n <= 0 {
        Seq::empty()
    } else {
        flat_weights(lists, n - 1) + lists[n - 1]@.map_values(
            |t: Tally| ((n - 1) as i64, t.uid, t.size),
        )
    }
}

/// The entries of a tally by directory and user.
pub fn weight_list(weights: &DirTally) -> (r: Vec<(i64, i64, i64)>)
    requires
        weights@.len() <= i64::MAX,
    ensures
        r@ == flat_weights(weights@, weights@.len() as int),
{
    let ghost lists = weights@;
    let mut out: Vec<(i64, i64, i64)> = Vec::new();
    let mut d: usize = 0;
    while d < weights.len()
        invariant
            d <= lists.len(),
            lists == weights@,
            lists.len() <= i64::MAX,
            out@ == flat_weights(lists, d as int),
        decreases lists.len() - d,
    {
        let list = weights.list(d);
        let ghost before = out@;
        let ghost f = |t: Tally| (d as i64, t.uid, t.size);
        let ghost rows = list@.map_values(f);
        let mut j: usize = 0;
        proof {
            assert(before + rows.take(0) =~= before);
        }
        while j < list.len()
            invariant
                j <= list@.len(),
                d < lists.len(),
                lists.len() <= i64::MAX,
                f == (|t: Tally| (d as i64, t.uid, t.size)),
                rows == list@.map_values(f),
                out@ == before + rows.take(j as int),
            decreases list@.len() - j,
        {
            let t: Tally = list[j];
            out.push((d as i64, t.uid, t.size));
            proof {
                assert(rows.take(j + 1) =~= rows.take(j as int).push(f(t)));
                assert(before + rows.take(j + 1) =~= (before + rows.take(j as int)).push(f(t)));
            }
            j = j + 1;
        }
        proof {
            assert(rows.take(j as int) =~= rows);
        }
        d = d + 1;
    }
    out
}

/// The bytes directly in each directory.
pub fn direct_sizes(t: &DirTally) -> (r: Vec<i64>)
    requires
        t.wf(),
    ensures
        r@.len() == t@.len(),
        forall|d: int| 0 <= d < r@.len() ==> #[trigger] r@[d] == tally::sizes_sum(t@[d]@),
        forall|d: int| 0 <= d < r@.len() ==> #[trigger] r@[d] >= 0,
        tree_sums::sum64(r@) == t.size_sum(),
{
    let ghost lists = t@;
    let mut out: Vec<i64> = Vec::new();
    let mut d: usize = 0;
    proof {
        t.lemma_wf();
        assert(lists.take(0) =~= Seq::<Vec<Tally>>::empty());
    }
    while d < t.len()
        invariant
            d <= lists.len(),
            lists == t@,
            t.wf(),
            t.size_sum() <= i64::MAX,
            t.size_sum() == tally::all_sizes(lists),
            forall|k: int| 0 <= k < lists.len() ==> tally::tallies_ok((#[trigger] lists[k])@),
            out@.len() == d,
            forall|k: int| 0 <= k < d ==> #[trigger] out@[k] == tally::sizes_sum(lists[k]@),
            forall|k: int| 0 <= k < d ==> #[trigger] out@[k] >= 0,
            tree_sums::sum64(out@) == tally::all_sizes(lists.take(d as int)),
        decreases lists.len() - d,
    {
        let list = t.list(d);
        proof {
            tally::lemma_all_bound(lists, d as int);
        }
        let v: i64 = list_size(list);
        let ghost before = out@;
        out.push(v);
        proof {
            assert(out@.drop_last() =~= before);
            assert(lists.take(d + 1).drop_last() =~= lists.take(d as int));
        }
        d = d + 1;
    }
    proof {
        assert(lists.take(d as int) =~= lists);
    }
    out
}

fn list_size(list: &Vec<Tally>) -> (r: i64)
    requires
        tally::tallies_ok(list@),
        tally::sizes_sum(list@) <= i64::MAX,
    ensures
        r == tally::sizes_sum(list@),
{
    let mut v: i64 = 0;
    let mut j: usize = 0;
    proof {
        assert(list@.take(0) =~= Seq::<Tally>::empty());
    }
    while j < list.len()
        invariant
            j <= list@.len(),
            tally::tallies_ok(list@),
            tally::sizes_sum(list@) <= i64::MAX,
            v == tally::sizes_sum(list@.take(j as int)),
        decreases list@.len() - j,
    {
        proof {
            tally::lemma_tally_prefix(list@, j + 1);
            assert(list@.take(j + 1).drop_last() =~= list@.take(j as int));
            tally::lemma_tally_prefix(list@, j as int);
        }
        v = v + list[j].size;
        j = j + 1;
    }
    proof {
        assert(list@.take(j as int) =~= list@);
    }
    v
}

/// The files directly in each directory.
pub fn direct_files(t: &DirTally) -> (r: Vec<i64>)
    requires
        t.wf(),
    ensures
        r@.len() == t@.len(),
        forall|d: int| 0 <= d < r@.len() ==> #[trigger] r@[d] == tally::files_sum(t@[d]@),
        forall|d: int| 0 <= d < r@.len() ==> #[trigger] r@[d] >= 0,
        tree_sums::sum64(r@) == t.file_sum(),
{
    let ghost lists = t@;
    let mut out: Vec<i64> = Vec::new();
    let mut d: usize = 0;
    proof {
        t.lemma_wf();
        assert(lists.take(0) =~= Seq::<Vec<Tally>>::empty());
    }
    while d < t.len()
        invariant
            d <= lists.len(),
            lists == t@,
            t.wf(),
            t.file_sum() <= i64::MAX,
            t.file_sum() == tally::all_files(lists),
            forall|k: int| 0 <= k < lists.len() ==> tally::tallies_ok((#[trigger] lists[k])@),
            out@.len() == d,
            forall|k: int| 0 <= k < d ==> #[trigger] out@[k] == tally::files_sum(lists[k]@),
            forall|k: int| 0 <= k < d ==> #[trigger] out@[k] >= 0,
            tree_sums::sum64(out@) == tally::all_files(lists.take(d as int)),
        decreases lists.len() - d,
    {
        let list = t.list(d);
        proof {
            tally::lemma_all_bound(lists, d as int);
        }
        let v: i64 = list_files(list);
        let ghost before = out@;
        out.push(v);
        proof {
            assert(out@.drop_last() =~= before);
            assert(lists.take(d + 1).drop_last() =~= lists.take(d as int));
        }
        d = d + 1;
    }
    proof {
        assert(lists.take(d as int) =~= lists);
    }
    out
}

fn list_files(list: &Vec<Tally>) -> (r: i64)
    requires
        tally::tallies_ok(list@),
        tally::files_sum(list@) <= i64::MAX,
    ensures
        r == tally::files_sum(list@),
{
    let mut v: i64 = 0;
    let mut j: usize = 0;
    proof {
        assert(list@.take(0) =~= Seq::<Tally>::empty());
    }
    while j < list.len()
        invariant
            j <= list@.len(),
            tally::tallies_ok(list@),
            tally::files_sum(list@) <= i64::MAX,
            v == tally::files_sum(list@.take(j as int)),
        decreases list@.len() - j,
    {
        proof {
            tally::lemma_tally_prefix(list@, j + 1);
            assert(list@.take(j + 1).drop_last() =~= list@.take(j as int));
            tally::lemma_tally_prefix(list@, j as int);
        }
        v = v + list[j].files;
        j = j + 1;
    }
    proof {
        assert(list@.take(j as int) =~= list@);
    }
    v
}

/// A directory of the tree with its id.
pub open spec fn agg_dir(d: DirRowDraft, i: int) -> SerializableDirRow {
    SerializableDirRow {
        id: i as i64,
        parent_id: match d.parent_id {
            Some(p) => Some(p as i64),
            None => None,
        },
        name_id: d.name_id as i64,
        depth: d.depth as i64,
    }
}

fn agg_dirs(dirs: &Vec<DirRowDraft>) -> (r: Vec<SerializableDirRow>)
    requires
        dirs@.len() <= i64::MAX,
    ensures
        r@.len() == dirs@.len(),
        forall|i: int| 0 <= i < r@.len() ==> #[trigger] r@[i] == agg_dir(dirs@[i], i),
{
    let mut out: Vec<SerializableDirRow> = Vec::new();
    let mut i: usize = 0;
    while i < dirs.len()
        invariant
            i <= dirs@.len(),
            dirs@.len() <= i64::MAX,
            out@.len() == i,
            forall|k: int| 0 <= k < i ==> #[trigger] out@[k] == agg_dir(dirs@[k], k),
        decreases dirs@.len() - i,
    {
        let d = &dirs[i];
        let parent_id: Option<i64> = match d.parent_id {
            Some(p) => Some(p as i64),
            None => None,
        };
        out.push(
            SerializableDirRow {
                id: i as i64,
                parent_id,
                name_id: d.name_id as i64,
                depth: d.depth as i64,
            },
        );
        i = i + 1;
    }
    out
}

fn clone_strings(v: &Vec<String>) -> (r: Vec<String>)
    ensures
        text::strs(r@) == text::strs(v@),
{
    let mut out: Vec<String> = Vec::new();
    let mut i: usize = 0;
    while i < v.len()
        invariant
            i <= v@.len(),
            text::strs(out@) == text::strs(v@).take(i as int),
        decreases v@.len() - i,
    {
        let ghost before = text::strs(out@);
        let s = v[i].clone();
        out.push(s);
        proof {
            assert(text::strs(out@) =~= before.push(s@));
            assert(text::strs(v@).take(i + 1) =~= text::strs(v@).take(i as int).push(s@));
        }
        i = i + 1;
    }
    proof {
        assert(text::strs(v@).take(i as int) =~= text::strs(v@));
    }
    out
}

fn widen(v: &Vec<usize>) -> (r: Vec<i64>)
    requires
        forall|i: int| 0 <= i < v@.len() ==> #[trigger] v@[i] <= i64::MAX,
    ensures
        r@.len() == v@.len(),
        forall|i: int| 0 <= i < r@.len() ==> #[trigger] r@[i] == v@[i],
{
    let mut out: Vec<i64> = Vec::new();
    let mut i: usize = 0;
    while i < v.len()
        invariant
            i <= v@.len(),
            forall|k: int| 0 <= k < v@.len() ==> #[trigger] v@[k] <= i64::MAX,
            out@.len() == i,
            forall|k: int| 0 <= k < i ==> #[trigger] out@[k] == v@[k],
        decreases v@.len() - i,
    {
        out.push(v[i] as i64);
        i = i + 1;
    }
    out
}

proof fn lemma_kid_count(dirs: Seq<DirRowDraft>, i: int, n: int)
    requires
        0 <= n,
    ensures
        0 <= tree_sums::kid_count(dirs, i, n) <= n,
    decreases n,
{
    if n > 0 {
        lemma_kid_count(dirs, i, n - 1);
    }
}

/// A tree that is listed breadth first has its parents first.
pub proof fn lemma_tree_parents_first(tree: PathTree)
    requires
        tree.wf(),
    ensures
        tree_sums::parents_first(tree.dirs_in_order@),
{
}

impl TreemapAggregates {
    /// These are the figures of a tree, of what its users take directly in each
    /// directory, and of what their files add up to.
    pub open spec fn are_of(
        &self,
        tree: PathTree,
        weights: DirTally,
        totals: DirTally,
        owners: Seq<i64>,
        users: UserTable,
    ) -> bool {
        &&& self.version == TREEMAP_AGG_VERSION
        &&& text::strs(self.names@) == text::strs(tree.names@)
        &&& self.dirs_in_order@.len() == tree.paths@.len()
        &&& forall|i: int|
            0 <= i < self.dirs_in_order@.len() ==> #[trigger] self.dirs_in_order@[i] == agg_dir(
                tree.dirs_in_order@[i],
                i,
            )
        &&& self.owner_weights@ == flat_weights(weights@, weights@.len() as int)
        &&& self.dir_owner_uid@ == owners
        &&& self.total_size_by_dir@.len() == tree.paths@.len()
        &&& forall|i: int|
            0 <= i < self.total_size_by_dir@.len() ==> #[trigger] self.total_size_by_dir@[i] == tally::sizes_sum(
                weights@[i]@,
            )
        &&& self.direct_file_count@.len() == tree.paths@.len()
        &&& forall|i: int|
            0 <= i < self.direct_file_count@.len() ==> #[trigger] self.direct_file_count@[i] == tally::files_sum(
                totals@[i]@,
            )
        &&& self.direct_dir_count@.len() == tree.paths@.len()
        &&& forall|i: int|
            0 <= i < self.direct_dir_count@.len() ==> #[trigger] self.direct_dir_count@[i] == tree_sums::kid_count(
                tree.dirs_in_order@,
                i,
                tree.paths@.len() as int,
            )
        &&& self.subtree_size@.len() == tree.paths@.len()
        &&& forall|i: int|
            0 <= i < self.subtree_size@.len() ==> #[trigger] self.subtree_size@[i] == tree_sums::subtree_sum(
                tree.dirs_in_order@,
                self.total_size_by_dir@,
                i,
            )
        &&& self.subtree_files@.len() == tree.paths@.len()
        &&& forall|i: int|
            0 <= i < self.subtree_files@.len() ==> #[trigger] self.subtree_files@[i] == tree_sums::subtree_sum(
                tree.dirs_in_order@,
                self.direct_file_count@,
                i,
            )
        &&& self.subtree_size@[0] == weights.size_sum()
        &&& self.subtree_files@[0] == totals.file_sum()
        &&& forall|i: int, j: int|
            0 <= i < j < self.uid_to_username@.len() ==> (#[trigger] self.uid_to_username@[i]).0 < (
            #[trigger] self.uid_to_username@[j]).0
        &&& forall|i: int|
            0 <= i < self.uid_to_username@.len() ==> users.names().contains_key(
                (#[trigger] self.uid_to_username@[i]).0,
            ) && self.uid_to_username@[i].1@ == users.names()[self.uid_to_username@[i].0]
        &&& forall|u: i64| #[trigger]
            users.names().contains_key(u) ==> exists|i: int|
                0 <= i < self.uid_to_username@.len() && (#[trigger] self.uid_to_username@[i]).0 == u
    }
}

/// The aggregates of a finished detail report: `weights` is what the users take
/// directly in each directory, `totals` what their files add up to.
pub fn build_aggregates(
    tree: &PathTree,
    weights: &DirTally,
    totals: &DirTally,
    owners: Vec<i64>,
    users: &UserTable,
) -> (r: TreemapAggregates)
    requires
        tree.wf(),
        tree.paths@.len() <= i64::MAX,
        weights.wf(),
        weights@.len() == tree.paths@.len(),
        totals.wf(),
        totals@.len() == tree.paths@.len(),
        owners@.len() == tree.paths@.len(),
    ensures
        r.are_of(*tree, *weights, *totals, owners@, *users),
{
    proof {
        lemma_tree_parents_first(*tree);
        weights.lemma_wf();
        totals.lemma_wf();
    }
    let sizes = direct_sizes(weights);
    let files = direct_files(totals);
    let subtree_size = tree_sums::subtree_totals(&tree.dirs_in_order, &sizes);
    let subtree_files = tree_sums::subtree_totals(&tree.dirs_in_order, &files);
    let counts = tree_sums::direct_dir_counts(&tree.dirs_in_order);
    proof {
        assert forall|i: int| 0 <= i < counts@.len() implies #[trigger] counts@[i] <= i64::MAX by {
            lemma_kid_count(tree.dirs_in_order@, i, tree.dirs_in_order@.len() as int);
        }
    }
    TreemapAggregates {
        version: TREEMAP_AGG_VERSION,
        names: clone_strings(&tree.names),
        dirs_in_order: agg_dirs(&tree.dirs_in_order),
        owner_weights: weight_list(weights),
        dir_owner_uid: owners,
        subtree_size,
        subtree_files,
        direct_dir_count: widen(&counts),
        direct_file_count: files,
        total_size_by_dir: sizes,
        uid_to_username: users.entries(),
    }
}

/// The text of a version mismatch.
pub open spec fn version_message(found: int) -> Seq<char> {
    "aggregates version mismatch: file="@ + text::dec(found as nat) + " expected="@ + text::dec(
        TREEMAP_AGG_VERSION as nat,
    )
}

/// Checks the version of aggregates that were read.
pub fn load_aggregates(agg: TreemapAggregates) -> (r: Result<TreemapAggregates, String>)
    ensures
        r is Ok <==> agg.version == TREEMAP_AGG_VERSION,
        r matches Ok(a) ==> a == agg,
        r matches Err(e) ==> e@ == version_message(agg.version as int),
{
    if agg.version == TREEMAP_AGG_VERSION {
        Ok(agg)
    } else {
        let mut e: String = "aggregates version mismatch: file=".to_owned();
        e.append(text::dec_string(agg.version as u64).as_str());
        e.append(" expected=");
        e.append(text::dec_string(TREEMAP_AGG_VERSION as u64).as_str());
        Err(e)
    }
}

// ---------------------------------------------------------------------------
// Rows
// ---------------------------------------------------------------------------

/// What a list holds for an id; zero where it holds nothing.
pub open spec fn at(v: Seq<i64>, id: i64) -> i64 {
    if 0 <= id < v.len() {
        v[id as int]
    } else {
        0i64
    }
}

fn vec_at(v: &Vec<i64>, id: i64) -> (r: i64)
    ensures
        r == at(v@, id),
{
    if 0 <= id && (id as u64) < v.len() as u64 {
        v[id as usize]
    } else {
        0
    }
}

/// The owner of a directory: the one that is known, else the user with the
/// smallest number.
pub open spec fn treemap_owner(agg: TreemapAggregates, id: i64) -> i64 {
    let fallback = if agg.uid_to_username@.len() > 0 {
        agg.uid_to_username@[0].0
    } else {
        0i64
    };
    if !(0 <= id < agg.dirs_in_order@.len()) {
        0i64
    } else if id < agg.dir_owner_uid@.len() && agg.dir_owner_uid@[id as int] >= 0 {
        agg.dir_owner_uid@[id as int]
    } else {
        fallback
    }
}

/// Whether a directory is listed: the root is, and what is not deeper than
/// `max_level`; zero means any depth.
pub open spec fn listed(d: SerializableDirRow, max_level: usize) -> bool {
    d.id == 0 || max_level == 0 || d.depth <= max_level as i64
}

/// The row of a directory.
pub open spec fn treemap_row(agg: TreemapAggregates, d: SerializableDirRow) -> DirRow {
    DirRow {
        id: d.id,
        parent_id: d.parent_id,
        name_id: d.name_id,
        total_size: at(agg.subtree_size@, d.id),
        file_count: at(agg.direct_file_count@, d.id),
        dir_count: at(agg.direct_dir_count@, d.id),
        owner_uid: treemap_owner(agg, d.id),
        has_files: if at(agg.direct_file_count@, d.id) > 0 || at(agg.total_size_by_dir@, d.id) > 0 {
            1i64
        } else {
            0i64
        },
    }
}

/// The rows of the directories that are listed.
pub open spec fn treemap_rows(
    agg: TreemapAggregates,
    max_level: usize,
    n: int,
) -> Seq<DirRow>
    decreases n,
{
    if n <= 0 {
        Seq::empty()
    } else {
        let before = treemap_rows(agg, max_level, n - 1);
        let d = agg.dirs_in_order@[n - 1];
        if listed(d, max_level) {
            before.push(treemap_row(agg, d))
        } else {
            before
        }
    }
}

/// The `meta` table of the treemap.
pub open spec fn treemap_meta(
    root: Seq<char>,
    timestamp: int,
    max_level: nat,
    size: int,
    dirs: nat,
) -> Seq<(Seq<char>, Seq<char>)> {
    seq![
        ("scan_root"@, paths::normal_root(root)),
        ("scan_timestamp"@, text::dec_int(timestamp)),
        ("max_level"@, text::dec(max_level)),
        ("total_size"@, text::dec_int(size)),
        ("total_dirs"@, text::dec(dirs)),
        ("schema_version"@, "1"@),
    ]
}

/// What the treemap database is built from: the owners by number, the
/// directories down to `max_level`, and the `meta` table.
pub fn build_treemap_db_impl(
    agg: &TreemapAggregates,
    treemap_root: &str,
    max_level: usize,
    timestamp: i64,
) -> (r: TreemapInput)
    ensures
        text::strs(r.names@) == text::strs(agg.names@),
        r.owners@.len() == agg.uid_to_username@.len(),
        forall|i: int|
            0 <= i < r.owners@.len() ==> (#[trigger] r.owners@[i]).uid == agg.uid_to_username@[i].0
                && r.owners@[i].username@ == agg.uid_to_username@[i].1@,
        r.dirs@ == treemap_rows(*agg, max_level, agg.dirs_in_order@.len() as int),
        db::meta_views(r.meta@) == treemap_meta(
            treemap_root@,
            timestamp as int,
            max_level as nat,
            at(agg.subtree_size@, 0) as int,
            agg.dirs_in_order@.len(),
        ),
{
    let mut owners: Vec<OwnerRow> = Vec::new();
    let mut i: usize = 0;
    while i < agg.uid_to_username.len()
        invariant
            i <= agg.uid_to_username@.len(),
            owners@.len() == i,
            forall|k: int|
                0 <= k < i ==> (#[trigger] owners@[k]).uid == agg.uid_to_username@[k].0
                    && owners@[k].username@ == agg.uid_to_username@[k].1@,
        decreases agg.uid_to_username@.len() - i,
    {
        owners.push(
            OwnerRow {
                uid: agg.uid_to_username[i].0,
                username: agg.uid_to_username[i].1.clone(),
            },
        );
        i = i + 1;
    }
    let fallback: i64 = if agg.uid_to_username.len() > 0 {
        agg.uid_to_username[0].0
    } else {
        0
    };
    let n: usize = agg.dirs_in_order.len();
    let mut dirs: Vec<DirRow> = Vec::new();
    let mut k: usize = 0;
    while k < n
        invariant
            k <= n,
            n == agg.dirs_in_order@.len(),
            fallback == (if agg.uid_to_username@.len() > 0 {
                agg.uid_to_username@[0].0
            } else {
                0i64
            }),
            dirs@ == treemap_rows(*agg, max_level, k as int),
        decreases n - k,
    {
        let d: SerializableDirRow = agg.dirs_in_order[k];
        if d.id == 0 || max_level == 0 || d.depth <= max_level as i64 {
            let file_count: i64 = vec_at(&agg.direct_file_count, d.id);
            let own_size: i64 = vec_at(&agg.total_size_by_dir, d.id);
            let owner_uid: i64 = if !(0 <= d.id && (d.id as u64) < n as u64) {
                0
            } else if (d.id as u64) < agg.dir_owner_uid.len() as u64 && agg.dir_owner_uid[d.id as usize]
                >= 0 {
                agg.dir_owner_uid[d.id as usize]
            } else {
                fallback
            };
            let row = DirRow {
                id: d.id,
                parent_id: d.parent_id,
                name_id: d.name_id,
                total_size: vec_at(&agg.subtree_size, d.id),
                file_count,
                dir_count: vec_at(&agg.direct_dir_count, d.id),
                owner_uid,
                has_files: if file_count > 0 || own_size > 0 {
                    1
                } else {
                    0
                },
            };
            proof {
                assert(row == treemap_row(*agg, d));
            }
            dirs.push(row);
        }
        k = k + 1;
    }
    let size: i64 = vec_at(&agg.subtree_size, 0);
    let mut meta: Vec<(String, String)> = Vec::new();
    meta.push(("scan_root".to_owned(), paths::normalize_root(treemap_root)));
    meta.push(("scan_timestamp".to_owned(), text::dec_int_string(timestamp)));
    meta.push(("max_level".to_owned(), text::dec_string(max_level as u64)));
    meta.push(("total_size".to_owned(), text::dec_int_string(size)));
    meta.push(("total_dirs".to_owned(), text::dec_string(n as u64)));
    meta.push(("schema_version".to_owned(), "1".to_owned()));
    proof {
        assert(db::meta_views(meta@) =~= treemap_meta(
            treemap_root@,
            timestamp as int,
            max_level as nat,
            size as int,
            n as nat,
        ));
    }
    TreemapInput { names: clone_strings(&agg.names), owners, dirs, meta }
}

/// A directory is listed exactly if its depth is within the level, or it is the
/// root.
pub proof fn law_treemap_lists_levels(
    agg: TreemapAggregates,
    max_level: usize,
    n: int,
    row: DirRow,
)
    requires
        0 <= n <= agg.dirs_in_order@.len(),
    ensures
        treemap_rows(agg, max_level, n).contains(row) <==> exists|k: int|
            0 <= k < n && listed(#[trigger] agg.dirs_in_order@[k], max_level) && treemap_row(
                agg,
                agg.dirs_in_order@[k],
            ) == row,
    decreases n,
{
    if n > 0 {
        law_treemap_lists_levels(agg, max_level, n - 1, row);
        let before = treemap_rows(agg, max_level, n - 1);
        let all = treemap_rows(agg, max_level, n);
        let d = agg.dirs_in_order@[n - 1];
        if all.contains(row) {
            let i = choose|i: int| 0 <= i < all.len() && all[i] == row;
            if i < before.len() {
                assert(before[i] == row);
                assert(before.contains(row));
            } else {
                assert(listed(agg.dirs_in_order@[n - 1], max_level));
            }
        }
        if before.contains(row) {
            let i = choose|i: int| 0 <= i < before.len() && before[i] == row;
            assert(all[i] == row);
        }
        if listed(d, max_level) && treemap_row(agg, d) == row {
            assert(all[before.len() as int] == row);
        }
    }
}

/// A directory of the treemap belongs to its own owner where that is known, and
/// else to the known user with the smallest number.
pub proof fn law_treemap_owners(
    agg: TreemapAggregates,
    tree: PathTree,
    weights: DirTally,
    totals: DirTally,
    owners: Seq<i64>,
    users: UserTable,
    id: i64,
)
    requires
        agg.are_of(tree, weights, totals, owners, users),
        owners.len() == tree.paths@.len(),
        0 <= id < owners.len(),
    ensures
        owners[id as int] >= 0 ==> treemap_owner(agg, id) == owners[id as int],
        owners[id as int] < 0 && (exists|u: i64| #[trigger] users.names().contains_key(u)) ==> {
            &&& users.names().contains_key(treemap_owner(agg, id))
            &&& forall|u: i64| #[trigger]
                users.names().contains_key(u) ==> treemap_owner(agg, id) <= u
        },
{
    let list = agg.uid_to_username@;
    if exists|u: i64| #[trigger] users.names().contains_key(u) {
        let u = choose|u: i64| #[trigger] users.names().contains_key(u);
        let k = choose|k: int| 0 <= k < list.len() && (#[trigger] list[k]).0 == u;
        assert(0 <= k < list.len() && list[k].0 == u);
        assert(users.names().contains_key(list[0].0));
        assert forall|v: i64| #[trigger] users.names().contains_key(v) implies list[0].0 <= v by {
            let j = choose|j: int| 0 <= j < list.len() && (#[trigger] list[j]).0 == v;
            assert(0 <= j < list.len() && list[j].0 == v);
        }
    }
}

proof fn lemma_rows_of_levels(agg: TreemapAggregates, max_level: usize, n: int)
    requires
        0 <= n <= agg.dirs_in_order@.len(),
    ensures
        forall|i: int|
            0 <= i < treemap_rows(agg, max_level, n).len() ==> exists|k: int|
                0 <= k < n && treemap_row(agg, #[trigger] agg.dirs_in_order@[k]) == (
                #[trigger] treemap_rows(agg, max_level, n)[i]),
        max_level == 0 ==> treemap_rows(agg, max_level, n).len() == n && forall|i: int|
            0 <= i < n ==> #[trigger] treemap_rows(agg, max_level, n)[i] == treemap_row(
                agg,
                agg.dirs_in_order@[i],
            ),
    decreases n,
{
    if n > 0 {
        lemma_rows_of_levels(agg, max_level, n - 1);
        let before = treemap_rows(agg, max_level, n - 1);
        let all = treemap_rows(agg, max_level, n);
        assert forall|i: int| 0 <= i < all.len() implies exists|k: int|
            0 <= k < n && treemap_row(agg, #[trigger] agg.dirs_in_order@[k]) == (
            #[trigger] all[i]) by {
            if i < before.len() {
                assert(all[i] == before[i]);
                let k = choose|k: int|
                    0 <= k < n - 1 && treemap_row(agg, #[trigger] agg.dirs_in_order@[k])
                        == before[i];
                assert(treemap_row(agg, agg.dirs_in_order@[k]) == all[i]);
            } else {
                assert(treemap_row(agg, agg.dirs_in_order@[n - 1]) == all[i]);
            }
        }
        if max_level == 0 {
            assert forall|i: int| 0 <= i < n implies #[trigger] all[i] == treemap_row(
                agg,
                agg.dirs_in_order@[i],
            ) by {
                if i < n - 1 {
                    assert(all[i] == before[i]);
                }
            }
        }
    }
}

proof fn lemma_numbers_fit(tree: PathTree, i: int)
    requires
        tree.wf(),
        tree.paths@.len() <= i64::MAX,
        0 <= i < tree.paths@.len(),
    ensures
        tree.dirs_in_order@[i].name_id <= i64::MAX,
        tree.dirs_in_order@[i].depth <= i,
        i > 0 ==> (tree.dirs_in_order@[i].parent_id matches Some(p) && p < i),
        i == 0 ==> tree.dirs_in_order@[i].parent_id is None,
    decreases i,
{
    let named = tree.paths@.map_values(|p: Seq<char>| path_tree::dir_name(tree.root@, p));
    interner::lemma_firsts(named);
    assert(tree.dirs_in_order@[i].name_id < text::strs(tree.names@).len());
    if i > 0 {
        let p = tree.dirs_in_order@[i].parent_id->0;
        lemma_numbers_fit(tree, p as int);
    }
}

/// Every row of the treemap is that of a directory of the tree: its name is the last
/// segment of the directory's path, the root's own where that is `/`; its parent is the
/// directory that holds it, and only the root has none. Following the parents and
/// putting the names together leads to the path. It gives the files and the directories
/// that lie directly in it, tells whether anything lies directly in it, and names its
/// owner where that is known.
pub proof fn law_treemap_rows_lead_to_paths(
    agg: TreemapAggregates,
    tree: PathTree,
    weights: DirTally,
    totals: DirTally,
    owners: Seq<i64>,
    users: UserTable,
    max_level: usize,
    rows: Seq<DirRow>,
    i: int,
)
    requires
        agg.are_of(tree, weights, totals, owners, users),
        tree.wf(),
        tree.paths@.len() <= i64::MAX,
        rows == treemap_rows(agg, max_level, agg.dirs_in_order@.len() as int),
        0 <= i < rows.len(),
    ensures
        0 <= rows[i].id < tree.paths@.len(),
        0 <= rows[i].name_id < agg.names@.len(),
        tree.paths@[rows[i].id as int] == paths::slash() && rows[i].id == 0
            ==> agg.names@[rows[i].name_id as int]@ == paths::slash(),
        tree.paths@[rows[i].id as int] != paths::slash()
            ==> agg.names@[rows[i].name_id as int]@ == paths::base_name(
            tree.paths@[rows[i].id as int],
        ),
        rows[i].id == 0 <==> tree.paths@[rows[i].id as int] == tree.root@,
        rows[i].id == 0 <==> rows[i].parent_id is None,
        rows[i].parent_id matches Some(p) ==> 0 <= p < rows[i].id && tree.paths@[p as int]
            == paths::parent_of(tree.paths@[rows[i].id as int]),
        rows[i].file_count == tally::files_sum(totals@[rows[i].id as int]@),
        rows[i].has_files == 1 <==> tally::files_sum(totals@[rows[i].id as int]@) > 0
            || tally::sizes_sum(weights@[rows[i].id as int]@) > 0,
        rows[i].has_files == 0 || rows[i].has_files == 1,
        rows[i].id < owners.len() && owners[rows[i].id as int] >= 0 ==> rows[i].owner_uid
            == owners[rows[i].id as int],
{
    let n = agg.dirs_in_order@.len() as int;
    lemma_rows_of_levels(agg, max_level, n);
    let k = choose|k: int| 0 <= k < n && treemap_row(agg, #[trigger] agg.dirs_in_order@[k]) == rows[i];
    lemma_numbers_fit(tree, k);
    assert(agg.dirs_in_order@[k] == agg_dir(tree.dirs_in_order@[k], k));
    assert(rows[i].id == k);
    let d = tree.dirs_in_order@[k];
    assert(text::strs(agg.names@)[d.name_id as int] == path_tree::dir_name(
        tree.root@,
        tree.paths@[k],
    ));
    assert(text::strs(agg.names@)[d.name_id as int] == agg.names@[d.name_id as int]@);
    assert(tree.paths@[0] == tree.root@);
    assert(agg.direct_file_count@[k] == tally::files_sum(totals@[k]@));
    assert(agg.total_size_by_dir@[k] == tally::sizes_sum(weights@[k]@));
}

/// The total sizes of the rows that have `id` for their parent, among the first `n`.
pub open spec fn sizes_under(rows: Seq<DirRow>, id: i64, n: int) -> int
    decreases n,
{
    if n <= 0 {
        0
    } else {
        sizes_under(rows, id, n - 1) + (if rows[n - 1].parent_id == Some(id) {
            rows[n - 1].total_size as int
        } else {
            0
        })
    }
}

/// The number of rows that have `id` for their parent, among the first `n`.
pub open spec fn rows_under(rows: Seq<DirRow>, id: i64, n: int) -> int
    decreases n,
{
    if n <= 0 {
        0
    } else {
        rows_under(rows, id, n - 1) + (if rows[n - 1].parent_id == Some(id) {
            1int
        } else {
            0
        })
    }
}

proof fn lemma_under(
    dirs: Seq<DirRowDraft>,
    direct: Seq<i64>,
    rows: Seq<DirRow>,
    i: int,
    c: int,
)
    requires
        tree_sums::parents_first(dirs),
        rows.len() == dirs.len(),
        dirs.len() <= i64::MAX,
        dirs.len() <= usize::MAX,
        0 <= i < dirs.len(),
        0 <= c <= dirs.len(),
        forall|k: int|
            0 <= k < dirs.len() ==> (#[trigger] rows[k]).total_size == tree_sums::subtree_sum(
                dirs,
                direct,
                k,
            ) && (rows[k].parent_id is Some <==> dirs[k].parent_id is Some) && (
            rows[k].parent_id is Some ==> rows[k].parent_id->0 == dirs[k].parent_id->0),
    ensures
        c <= i + 1 ==> sizes_under(rows, i as i64, c) == 0,
        i < c ==> sizes_under(rows, i as i64, c) + tree_sums::kids_sum(dirs, direct, i, c)
            == tree_sums::kids_sum(dirs, direct, i, i + 1),
        rows_under(rows, i as i64, c) == tree_sums::kid_count(dirs, i, c),
    decreases c,
{
    if c > 0 {
        lemma_under(dirs, direct, rows, i, c - 1);
        let r = rows[c - 1];
        let d = dirs[c - 1];
        if d.parent_id is Some {
            assert(c - 1 >= 1);
            assert(d.parent_id->0 < c - 1);
        }
        assert(r.parent_id == Some(i as i64) <==> d.parent_id == Some(i as usize));
    }
}

/// In a treemap of all levels the size of a directory is what lies directly in it
/// together with the sizes of the directories that it is the parent of, and it counts
/// as many directories as it is the parent of.
pub proof fn law_treemap_sizes_add_up(
    agg: TreemapAggregates,
    tree: PathTree,
    weights: DirTally,
    totals: DirTally,
    owners: Seq<i64>,
    users: UserTable,
    rows: Seq<DirRow>,
    i: int,
)
    requires
        agg.are_of(tree, weights, totals, owners, users),
        tree.wf(),
        tree.paths@.len() <= i64::MAX,
        rows == treemap_rows(agg, 0, agg.dirs_in_order@.len() as int),
        0 <= i < tree.paths@.len(),
    ensures
        rows.len() == tree.paths@.len(),
        rows[i].id == i,
        rows[i].total_size == tally::sizes_sum(weights@[i]@) + sizes_under(
            rows,
            i as i64,
            rows.len() as int,
        ),
        rows[i].dir_count == rows_under(rows, i as i64, rows.len() as int),
        rows[0].total_size == weights.size_sum(),
{
    let n = agg.dirs_in_order@.len() as int;
    let dirs = tree.dirs_in_order@;
    let direct = agg.total_size_by_dir@;
    lemma_rows_of_levels(agg, 0, n);
    lemma_tree_parents_first(tree);
    assert forall|k: int| 0 <= k < dirs.len() implies (#[trigger] rows[k]).total_size
        == tree_sums::subtree_sum(dirs, direct, k) && (rows[k].parent_id is Some
        <==> dirs[k].parent_id is Some) && (rows[k].parent_id is Some ==> rows[k].parent_id->0
        == dirs[k].parent_id->0) && rows[k].id == k by {
        lemma_numbers_fit(tree, k);
        assert(agg.dirs_in_order@[k] == agg_dir(dirs[k], k));
        assert(agg.subtree_size@[k] == tree_sums::subtree_sum(dirs, direct, k));
    }
    assert(tree.dirs_in_order.len() == dirs.len());
    lemma_under(dirs, direct, rows, i, n);
    assert(rows[i].id == i);
    assert(direct[i] == tally::sizes_sum(weights@[i]@));
    assert(agg.direct_dir_count@[i] == tree_sums::kid_count(dirs, i, n));
}

/// A level only leaves rows out: those of the directories more than `max_level` steps
/// below the root. What is said of the others stays the same.
pub proof fn law_treemap_levels_only_leave_out(
    agg: TreemapAggregates,
    tree: PathTree,
    weights: DirTally,
    totals: DirTally,
    owners: Seq<i64>,
    users: UserTable,
    max_level: usize,
    row: DirRow,
)
    requires
        agg.are_of(tree, weights, totals, owners, users),
        tree.wf(),
        tree.paths@.len() <= i64::MAX,
        0 < max_level <= i64::MAX,
    ensures
        ({
            let n = agg.dirs_in_order@.len() as int;
            treemap_rows(agg, max_level, n).contains(row) <==> treemap_rows(agg, 0, n).contains(row)
                && path_tree::climb(tree.root@, tree.paths@[row.id as int]).len() <= max_level + 1
        }),
{
    let n = agg.dirs_in_order@.len() as int;
    law_treemap_lists_levels(agg, max_level, n, row);
    law_treemap_lists_levels(agg, 0, n, row);
    assert forall|k: int| 0 <= k < n implies (listed(#[trigger] agg.dirs_in_order@[k], max_level)
        <==> path_tree::climb(tree.root@, tree.paths@[k]).len() <= max_level + 1)
        && agg.dirs_in_order@[k].id == k by {
        lemma_numbers_fit(tree, k);
        lemma_steps(tree, k);
        assert(agg.dirs_in_order@[k] == agg_dir(tree.dirs_in_order@[k], k));
    }
    if treemap_rows(agg, 0, n).contains(row) {
        let k = choose|k: int|
            0 <= k < n && listed(#[trigger] agg.dirs_in_order@[k], 0) && treemap_row(
                agg,
                agg.dirs_in_order@[k],
            ) == row;
        assert(row.id == k);
    }
    if treemap_rows(agg, max_level, n).contains(row) {
        let k = choose|k: int|
            0 <= k < n && listed(#[trigger] agg.dirs_in_order@[k], max_level) && treemap_row(
                agg,
                agg.dirs_in_order@[k],
            ) == row;
        assert(row.id == k);
        assert(listed(agg.dirs_in_order@[k], 0));
    }
}

proof fn lemma_steps(tree: PathTree, i: int)
    requires
        tree.wf(),
        0 <= i < tree.paths@.len(),
    ensures
        path_tree::climb(tree.root@, tree.paths@[i]).len() == tree.dirs_in_order@[i].depth + 1,
    decreases i,
{
    let p = tree.paths@[i];
    assert(tree.paths@[0] == tree.root@);
    if i > 0 {
        let j = tree.dirs_in_order@[i].parent_id->0 as int;
        assert(tree.dirs_in_order@[i].parent_id is Some);
        lemma_steps(tree, j);
        assert(tree.paths@[j] == paths::parent_of(p));
        if p == paths::slash() {
            lemma_slash_has_no_other_parent();
            assert(tree.paths@[j] == tree.paths@[i]);
        }
    }
}

proof fn lemma_slash_has_no_other_parent()
    ensures
        paths::parent_of(paths::slash()) == paths::slash(),
{
    paths::lemma_parent_shorter(paths::slash());
}

// ---------------------------------------------------------------------------
// Compression
// ---------------------------------------------------------------------------

/// What `zstd` makes of bytes at level 3.
pub uninterp spec fn zstd_frame(bytes: Seq<u8>) -> Option<Seq<u8>>;

/// What `zstd` reads from compressed bytes.
pub uninterp spec fn zstd_content(bytes: Seq<u8>) -> Option<Seq<u8>>;

/// `zstd::encode_all` at level 3: the bytes as one frame, from which
/// `zstd::decode_all` reads them back.
#[verifier::external_body]
fn zstd_pack(bytes: &[u8]) -> (r: Option<Vec<u8>>)
    ensures
        r is Some <==> zstd_frame(bytes@) is Some,
        r matches Some(v) ==> zstd_frame(bytes@) == Some(v@) && zstd_content(v@) == Some(bytes@),
{
    zstd::encode_all(bytes, 3).ok()
}

/// `zstd::decode_all`: the content of a frame, if the bytes are one.
#[verifier::external_body]
fn zstd_unpack(bytes: &[u8]) -> (r: Option<Vec<u8>>)
    ensures
        r is Some <==> zstd_content(bytes@) is Some,
        r matches Some(v) ==> zstd_content(bytes@) == Some(v@),
{
    zstd::decode_all(bytes).ok()
}

/// The bytes of aggregates as they are kept on disk. Unpacking gives them back.
pub fn persist_aggregates(bytes: &[u8]) -> (r: Option<Vec<u8>>)
    ensures
        r is Some <==> zstd_frame(bytes@) is Some,
        r matches Some(v) ==> zstd_frame(bytes@) == Some(v@) && zstd_content(v@) == Some(bytes@),
{
    zstd_pack(bytes)
}

/// The bytes of aggregates from what is kept on disk.
pub fn unpack_aggregates(bytes: &[u8]) -> (r: Option<Vec<u8>>)
    ensures
        r is Some <==> zstd_content(bytes@) is Some,
        r matches Some(v) ==> zstd_content(bytes@) == Some(v@),
{
    zstd_unpack(bytes)
}

/// The `meta` table of a treemap gives the bytes of the root with all below it, the number
/// of all directories, the root, the time and how deep the treemap goes.
pub proof fn law_meta_of_a_treemap(
    root: Seq<char>,
    timestamp: int,
    max_level: nat,
    size: int,
    dirs: nat,
)
    ensures
        ({
            let meta = treemap_meta(root, timestamp, max_level, size, dirs);
            &&& meta.contains(("scan_root"@, paths::normal_root(root)))
            &&& meta.contains(("scan_timestamp"@, text::dec_int(timestamp)))
            &&& meta.contains(("max_level"@, text::dec(max_level)))
            &&& meta.contains(("total_size"@, text::dec_int(size)))
            &&& meta.contains(("total_dirs"@, text::dec(dirs)))
            &&& meta.contains(("schema_version"@, "1"@))
            &&& meta.len() == 6
        }),
{
    let meta = treemap_meta(root, timestamp, max_level, size, dirs);
    assert(meta[0] == ("scan_root"@, paths::normal_root(root)));
    assert(meta[1] == ("scan_timestamp"@, text::dec_int(timestamp)));
    assert(meta[2] == ("max_level"@, text::dec(max_level)));
    assert(meta[3] == ("total_size"@, text::dec_int(size)));
    assert(meta[4] == ("total_dirs"@, text::dec(dirs)));
    assert(meta[5] == ("schema_version"@, "1"@));
}

} // verus!
