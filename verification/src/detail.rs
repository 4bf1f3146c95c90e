//! The detail report from what a scan wrote to the rows of its tables: the tree
//! and its owners first, then every user's files, then the tables.

use crate::db::DetailDirRow;
use crate::db::FileRow;
use crate::db::UserRow;
use crate::db;
use crate::events::DirOwnerEvent;
use crate::events::DirOwnerModel;
use crate::events;
use crate::ingest::DirSizes;
use crate::path_tree::PathTree;
use crate::paths;
use crate::report::FileTotals;
use crate::report::OwnerWeights;
use crate::report;
use crate::spill::CompactRow;
use crate::spill::NumberError;
use crate::spill::Numbering;
use crate::spill::RowModel;
use crate::spill;
use crate::tally::Tally;
use crate::tally;
use crate::text;
use crate::treemap::TreemapAggregates;
use crate::treemap;
use crate::users::FIRST_SYNTHETIC_UID;
use crate::users::TableModel;
use crate::users::UserTable;
use crate::users;
use std::collections::HashMap;
use vstd::hash_map::StringHashMap;
use vstd::prelude::*;
use vstd::string::*;

verus! {

/// A detail report that is being built.
pub struct DetailBuild {
    pub root: String,
    pub tree: PathTree,
    pub users: UserTable,
    /// The owner of each directory, by number.
    pub owners: Vec<i64>,
    pub weights: OwnerWeights,
    pub totals: FileTotals,
    pub numbering: Numbering,
}

/// Why the files of a user could not be added.
#[derive(PartialEq, Eq, Structural, Copy, Clone, Debug)]
pub enum AddError {
    /// The file does not hold rows.
    Damaged,
    /// A row names a directory that the tree does not have.
    UnknownDir,
    /// The files or their bytes are more than a number can hold.
    TooMuch,
}

/// The tables of a detail report.
pub struct DetailTables {
    pub dirs: Vec<DetailDirRow>,
    pub users: Vec<UserRow>,
    pub file_names: Vec<String>,
    pub meta: Vec<(String, String)>,
}

/// What rows of one user change of the totals: the user has a place wherever a row
/// of it stands, and nobody else gets one.
pub open spec fn rows_counted(a: FileTotals, b: FileTotals, uid: i64, rows: Seq<CompactRow>) -> bool {
    &&& b.by_dir@.len() == a.by_dir@.len()
    &&& forall|u: i64| #[trigger]
        tally::has_uid(b.by_user@[0]@, u) <==> tally::has_uid(a.by_user@[0]@, u) || (u == uid
            && rows.len() > 0)
    &&& forall|d: int, u: i64|
        0 <= d < a.by_dir@.len() ==> (#[trigger] tally::has_uid(b.by_dir@[d]@, u)
            <==> tally::has_uid(a.by_dir@[d]@, u) || (u == uid && report::rows_count(rows, d) > 0))
    &&& b.by_dir.size_sum() == a.by_dir.size_sum() + report::rows_total(rows)
    &&& b.by_dir.file_sum() == a.by_dir.file_sum() + rows.len()
    &&& forall|d: int, u: i64|
        0 <= d < a.by_dir@.len() ==> #[trigger] b.by_dir.size_at(d, u) == a.by_dir.size_at(d, u)
            + (if u == uid {
            report::rows_size(rows, d)
        } else {
            0
        })
    &&& forall|d: int, u: i64|
        0 <= d < a.by_dir@.len() ==> #[trigger] b.by_dir.files_at(d, u) == a.by_dir.files_at(d, u)
            + (if u == uid {
            report::rows_count(rows, d)
        } else {
            0
        })
    &&& forall|u: i64| #[trigger]
        b.by_user.size_at(0, u) == a.by_user.size_at(0, u) + (if u == uid {
            report::rows_total(rows)
        } else {
            0
        })
    &&& forall|u: i64| #[trigger]
        b.by_user.files_at(0, u) == a.by_user.files_at(0, u) + (if u == uid {
            rows.len() as int
        } else {
            0
        })
}

/// Whether every row names a directory of a tree of `n`.
pub open spec fn dirs_known(rows: Seq<CompactRow>, n: int) -> bool {
    forall|i: int| 0 <= i < rows.len() ==> (#[trigger] rows[i]).dir_id < n
}

/// Whether the totals can hold what rows add.
pub open spec fn totals_hold(t: FileTotals, rows: Seq<CompactRow>) -> bool {
    &&& t.by_dir.size_sum() + report::rows_total(rows) <= i64::MAX
    &&& t.by_dir.file_sum() + rows.len() <= i64::MAX
}

/// How adding a file ends, before any row of it is counted.
pub open spec fn add_error(t: FileTotals, file: Option<Seq<CompactRow>>) -> Option<AddError> {
    match file {
        None => Some(AddError::Damaged),
        Some(rows) => if !dirs_known(rows, t.by_dir@.len() as int) {
            Some(AddError::UnknownDir)
        } else if !totals_hold(t, rows) {
            Some(AddError::TooMuch)
        } else {
            None
        },
    }
}

/// The path under which each directory of a tree is listed.
pub open spec fn listed_paths(tree: PathTree) -> Seq<Seq<char>> {
    Seq::new(
        tree.paths@.len(),
        |i: int|
            report::listed_path(tree.root@, tree.dirs_in_order@, text::strs(tree.names@), i),
    )
}

fn all_dirs_known(rows: &Vec<CompactRow>, n: usize) -> (r: bool)
    ensures
        r == dirs_known(rows@, n as int),
{
    let mut i: usize = 0;
    while i < rows.len()
        invariant
            i <= rows@.len(),
            forall|k: int| 0 <= k < i ==> (#[trigger] rows@[k]).dir_id < n,
        decreases rows@.len() - i,
    {
        if rows[i].dir_id as usize >= n {
            assert(rows@[i as int].dir_id >= n);
            return false;
        }
        i = i + 1;
    }
    true
}

fn bytes_of(rows: &Vec<CompactRow>) -> (r: u128)
    ensures
        r == report::rows_total(rows@),
{
    let mut sum: u128 = 0;
    let mut i: usize = 0;
    let n: usize = rows.len();
    while i < n
        invariant
            i <= n,
            n == rows@.len(),
            sum == report::rows_total(rows@.take(i as int)),
            sum <= i * u64::MAX,
        decreases rows@.len() - i,
    {
        proof {
            assert(rows@.take(i + 1).drop_last() =~= rows@.take(i as int));
            assert(rows@.take(i + 1).last() == rows@[i as int]);
            assert((i + 1) * u64::MAX == i * u64::MAX + u64::MAX) by (nonlinear_arith);
            assert(i * u64::MAX <= u64::MAX * u64::MAX) by (nonlinear_arith)
                requires
                    i <= u64::MAX,
            ;
        }
        sum = sum + rows[i].size as u128;
        i = i + 1;
    }
    assert(rows@.take(i as int) =~= rows@);
    sum
}

/// The users that a report knows before any file is counted: those who own a
/// directory of the tree, then those who have something in one.
pub open spec fn first_users(
    ids: Map<Seq<char>, usize>,
    sizes: DirSizes,
    owners: Seq<DirOwnerModel>,
    uids: Map<u32, Seq<char>>,
) -> Seq<Seq<char>> {
    report::owner_names(owners, ids, uids) + report::size_names(
        sizes,
        ids,
        uids,
        sizes.dir_names().len() as int,
    )
}

/// `b` is `a` once the user `name` was begun, who goes by `uid`: it has a place in
/// the report even without files.
pub open spec fn user_begun(a: DetailBuild, b: DetailBuild, name: Seq<char>, uid: i64) -> bool {
    &&& b.same_frame(&a)
    &&& b.users.model() == users::learned(a.users.model(), name)
    &&& b.users.numbers()[name] == uid
    &&& b.totals.by_dir == a.totals.by_dir
    &&& forall|u: i64| #[trigger]
        tally::has_uid(b.totals.by_user@[0]@, u) <==> tally::has_uid(a.totals.by_user@[0]@, u) || u
            == uid
    &&& forall|u: i64| #[trigger]
        b.totals.by_user.size_at(0, u) == a.totals.by_user.size_at(0, u)
    &&& forall|u: i64| #[trigger]
        b.totals.by_user.files_at(0, u) == a.totals.by_user.files_at(0, u)
}

/// `b` is `a` once the rows of one of a user's files were counted.
pub open spec fn file_added(a: DetailBuild, b: DetailBuild, uid: i64, rows: Seq<CompactRow>) -> bool {
    &&& b.same_frame(&a)
    &&& b.users == a.users
    &&& rows_counted(a.totals, b.totals, uid, rows)
}

impl DetailBuild {
    pub open spec fn wf(&self) -> bool {
        let n = self.tree.paths@.len();
        &&& self.tree.wf()
        &&& self.tree.root@ == self.root@
        &&& n <= u32::MAX
        &&& self.users.wf()
        &&& self.owners@.len() == n
        &&& self.weights.weights.wf()
        &&& self.weights.weights@.len() == n
        &&& self.weights.dir_counts.wf()
        &&& self.weights.dir_counts@.len() == 1
        &&& self.totals.wf()
        &&& self.totals.by_dir@.len() == n
        &&& self.numbering.wf()
    }

    /// Everything but the totals is alike.
    pub open spec fn same_frame(&self, other: &DetailBuild) -> bool {
        &&& self.root == other.root
        &&& self.tree == other.tree
        &&& self.owners == other.owners
        &&& self.weights == other.weights
        &&& self.numbering == other.numbering
    }

    /// Begins a report on the directory `dir`: the tree of the directories that
    /// hold something, who owns each of them, and what each user takes directly in
    /// it. Without a report where there are more directories than rows can name.
    pub fn start(
        dir: &str,
        sizes: &DirSizes,
        owners: &Vec<DirOwnerEvent>,
        uids: &HashMap<u32, String>,
    ) -> (r: Option<DetailBuild>)
        requires
            sizes.wf(),
            FIRST_SYNTHETIC_UID + owners@.len() + report::entry_count(
                *sizes,
                sizes.dir_names().len() as int,
            ) <= i64::MAX,
        ensures
            match r {
                Some(b) => {
                    &&& b.wf()
                    &&& b.tree.is_tree_of(paths::normal_root(dir@), sizes.dir_names().to_set())
                    &&& forall|d: int|
                        0 <= d < b.owners@.len() ==> #[trigger] b.owners@[d] == report::owner_number(
                            report::last_owner(events::dir_owner_views(owners@), b.tree.paths@[d]),
                            b.users,
                            events::names_of(uids@),
                        )
                    &&& forall|d: int, u: i64|
                        0 <= d < b.tree.paths@.len() ==> #[trigger] b.weights.weights.size_at(d, u)
                            == report::weight_at(
                            *sizes,
                            b.tree.paths@[d],
                            b.users,
                            events::names_of(uids@),
                            u,
                        )
                    &&& forall|d: int, u: i64|
                        0 <= d < b.tree.paths@.len() ==> (#[trigger] tally::has_uid(
                            b.weights.weights@[d]@,
                            u,
                        ) <==> b.weights.weights.size_at(d, u) > 0)
                    &&& exists|t: TableModel| #[trigger]
                        users::table_of(t, events::names_of(uids@)) && b.users.model()
                            == users::learned_all(
                            t,
                            first_users(
                                b.tree.dir_id_of@,
                                *sizes,
                                events::dir_owner_views(owners@),
                                events::names_of(uids@),
                            ),
                        )
                    &&& forall|u: i64| #[trigger]
                        b.weights.dir_counts.files_at(0, u) == report::dir_entries(
                            *sizes,
                            b.tree.dir_id_of@,
                            b.users,
                            events::names_of(uids@),
                            u,
                            sizes.dir_names().len() as int,
                        )
                    &&& b.totals.by_dir.size_sum() == 0
                    &&& b.totals.by_dir.file_sum() == 0
                    &&& forall|d: int|
                        0 <= d < b.tree.paths@.len() ==> (#[trigger] b.totals.by_dir@[d])@
                            == Seq::<Tally>::empty()
                    &&& b.totals.by_user@[0]@ == Seq::<Tally>::empty()
                    &&& b.numbering@.names == Seq::<Seq<char>>::empty()
                    &&& b.numbering@.exts == seq![Seq::<char>::empty()]
                },
                None => exists|t: PathTree| #[trigger]
                    t.is_tree_of(paths::normal_root(dir@), sizes.dir_names().to_set()) && t.paths@.len()
                        > u32::MAX,
            },
    {
        let root = paths::normalize_root(dir);
        let dirs = sizes.dir_list();
        let tree = PathTree::build(root.as_str(), &dirs);
        let n: usize = tree.dirs_in_order.len();
        if n > u32::MAX as usize {
            return None;
        }
        let mut users = UserTable::new(uids);
        proof {
            report::lemma_entry_count(*sizes, 0, sizes.dir_names().len() as int);
        }
        let ghost first = users.model();
        let owner_uids = report::dir_owner_uids(owners, &tree, uids, &mut users);
        let ghost known = users;
        let weights = report::owner_weights(sizes, &tree, uids, &mut users);
        proof {
            users::lemma_learned_append(
                first,
                report::owner_names(
                    events::dir_owner_views(owners@),
                    tree.dir_id_of@,
                    events::names_of(uids@),
                ),
                report::size_names(
                    *sizes,
                    tree.dir_id_of@,
                    events::names_of(uids@),
                    sizes.dir_names().len() as int,
                ),
            );
            assert(users::table_of(first, events::names_of(uids@)));
            let names = events::names_of(uids@);
            let all = events::dir_owner_views(owners@);
            assert forall|d: int| 0 <= d < owner_uids@.len() implies #[trigger] owner_uids@[d]
                == report::owner_number(report::last_owner(all, tree.paths@[d]), users, names) by {
                assert(owner_uids@[d] == report::owner_number(
                    report::last_owner(all, tree.paths@[d]),
                    known,
                    names,
                ));
                if report::last_owner(all, tree.paths@[d]) is Some {
                    let u = report::last_owner(all, tree.paths@[d])->0;
                    assert(known.model().numbers.contains_key(events::user_name(u, names)));
                }
            }
        }
        let totals = FileTotals::new(n);
        Some(
            DetailBuild {
                root,
                tree,
                users,
                owners: owner_uids,
                weights,
                totals,
                numbering: Numbering::new(),
            },
        )
    }

    /// Turns a spill file into one whose rows have numbers in the place of their
    /// strings.
    pub fn reencode(&mut self, file: &[u8]) -> (r: Result<Vec<u8>, NumberError>)
        requires
            old(self).wf(),
        ensures
            final(self).wf(),
            final(self).root == old(self).root,
            final(self).tree == old(self).tree,
            final(self).users == old(self).users,
            final(self).owners == old(self).owners,
            final(self).weights == old(self).weights,
            final(self).totals == old(self).totals,
            spill::renumbered(
                spill::bytes_view(r),
                file@,
                old(self).numbering@,
                final(self).numbering@,
                old(self).tree.dir_id_of@,
                old(self).tree.root@,
            ),
            r is Ok ==> dirs_known(
                spill::compacts_of(
                    spill::rows_of_file(file@)->0,
                    final(self).numbering@,
                    old(self).tree.dir_id_of@,
                    old(self).tree.root@,
                ),
                old(self).tree.paths@.len() as int,
            ),
            r is Ok ==> same_sizes(
                spill::compacts_of(
                    spill::rows_of_file(file@)->0,
                    final(self).numbering@,
                    old(self).tree.dir_id_of@,
                    old(self).tree.root@,
                ),
                spill::rows_of_file(file@)->0,
            ),
    {
        let r = spill::reencode_file(
            file,
            &self.tree.dir_id_of,
            self.root.as_str(),
            &mut self.numbering,
        );
        proof {
            if r is Ok {
                let rows = spill::rows_of_file(file@)->0;
                let ids = self.tree.dir_id_of@;
                let cs = spill::compacts_of(rows, self.numbering@, ids, self.tree.root@);
                assert forall|i: int| 0 <= i < cs.len() implies (#[trigger] cs[i]).dir_id
                    < self.tree.paths@.len() && cs[i].size == rows[i].size by {
                    assert(spill::is_compact(
                        cs[i],
                        rows[i],
                        self.numbering@,
                        ids,
                        self.tree.root@,
                    ));
                }
            }
        }
        r
    }

    /// The number of a user, who then has a row in the report even without files;
    /// none where the numbers ran out.
    pub fn begin_user(&mut self, username: &str) -> (r: Option<i64>)
        requires
            old(self).wf(),
        ensures
            final(self).wf(),
            r is None <==> !old(self).users.numbers().contains_key(username@)
                && old(self).users.next_number() >= i64::MAX,
            match r {
                Some(uid) => user_begun(*old(self), *final(self), username@, uid),
                None => *final(self) == *old(self),
            },
    {
        if !self.users.has_room() {
            let known = self.users.number(username);
            if let Some(uid) = known {
                self.totals.add_user(uid);
            }
            return known;
        }
        let uid: i64 = self.users.intern(username);
        self.totals.add_user(uid);
        Some(uid)
    }

    /// Counts the rows of one of a user's numbered files and gives the rows of the
    /// report. Nothing is counted of a file that cannot be added.
    pub fn add_file(&mut self, uid: i64, file: &[u8], exts: &Vec<String>) -> (r: Result<
        Vec<FileRow>,
        AddError,
    >)
        requires
            old(self).wf(),
        ensures
            final(self).wf(),
            match r {
                Ok(v) => {
                    let rows = spill::compacts_of_file(file@)->0;
                    &&& add_error(old(self).totals, spill::compacts_of_file(file@)) is None
                    &&& file_added(*old(self), *final(self), uid, rows)
                    &&& v@.len() == rows.len()
                    &&& forall|i: int|
                        0 <= i < v@.len() ==> (#[trigger] v@[i])@ == report::file_row_of(
                            rows[i],
                            uid,
                            text::strs(exts@),
                        )
                },
                Err(e) => {
                    &&& add_error(old(self).totals, spill::compacts_of_file(file@)) == Some(e)
                    &&& *final(self) == *old(self)
                },
            },
    {
        let rows = match spill::read_compact_spill(file) {
            Some(rows) => rows,
            None => return Err(AddError::Damaged),
        };
        let n: usize = self.totals.by_dir.len();
        if !all_dirs_known(&rows, n) {
            return Err(AddError::UnknownDir);
        }
        proof {
            self.totals.by_dir.lemma_wf();
        }
        let bytes: u128 = bytes_of(&rows);
        let size: i64 = self.totals.by_dir.total_size();
        let files: i64 = self.totals.by_dir.total_files();
        if bytes > i64::MAX as u128 - size as u128 || rows.len() as u128 > i64::MAX as u128
            - files as u128 {
            return Err(AddError::TooMuch);
        }
        Ok(self.totals.add_rows(uid, &rows, exts))
    }

    /// The extensions by number.
    pub fn exts(&self) -> (r: Vec<String>)
        requires
            self.wf(),
        ensures
            text::strs(r@) == self.numbering@.exts,
    {
        self.numbering.exts.table()
    }

    /// The tables of the finished report.
    pub fn tables(&self, teams: &StringHashMap<String>, timestamp: i64, treemap_db: &str) -> (r:
        DetailTables)
        requires
            self.wf(),
        ensures
            ({
                let n = self.tree.paths@.len() as int;
                let t = self.totals.by_user;
                &&& db::detail_dir_views(r.dirs@) == report::dir_rows_of(
                    self.totals.by_dir@,
                    self.tree.dirs_in_order@,
                    listed_paths(self.tree),
                    self.owners@,
                    n,
                )
                &&& r.users@.len() == t@[0]@.len()
                &&& forall|i: int|
                    0 <= i < r.users@.len() ==> (#[trigger] r.users@[i])@ == report::user_row_of(
                        t@[0]@[i],
                        self.users.names(),
                        teams@,
                        self.weights.dir_counts.files_at(0, t@[0]@[i].uid),
                        report::owned_count(self.owners@, t@[0]@[i].uid, n),
                    )
                &&& text::strs(r.file_names@) == self.numbering@.names
                &&& db::meta_views(r.meta@) == report::detail_meta_of(
                    self.tree.root@,
                    timestamp as int,
                    self.totals.by_dir.file_sum(),
                    n as nat,
                    self.totals.by_dir.size_sum(),
                    treemap_db@,
                )
            }),
    {
        let paths = report::dir_paths(self.root.as_str(), &self.tree);
        assert(text::strs(paths@) =~= listed_paths(self.tree));
        let dirs = report::detail_dir_rows(&self.totals.by_dir, &self.tree, &paths, &self.owners);
        let users = report::user_rows(
            &self.totals.by_user,
            &self.weights.dir_counts,
            &self.owners,
            &self.users,
            teams,
        );
        let meta = report::detail_meta(
            self.root.as_str(),
            timestamp,
            self.totals.by_dir.total_files(),
            self.tree.dirs_in_order.len(),
            self.totals.by_dir.total_size(),
            treemap_db,
        );
        DetailTables { dirs, users, file_names: self.numbering.names.table(), meta }
    }

    /// What the treemap is made of.
    pub fn aggregates(&self) -> (r: TreemapAggregates)
        requires
            self.wf(),
        ensures
            r.are_of(
                self.tree,
                self.weights.weights,
                self.totals.by_dir,
                self.owners@,
                self.users,
            ),
    {
        let mut owners: Vec<i64> = Vec::new();
        let mut i: usize = 0;
        while i < self.owners.len()
            invariant
                i <= self.owners@.len(),
                owners@ == self.owners@.take(i as int),
            decreases self.owners@.len() - i,
        {
            owners.push(self.owners[i]);
            assert(owners@ =~= self.owners@.take(i + 1));
            i = i + 1;
        }
        assert(owners@ =~= self.owners@);
        treemap::build_aggregates(
            &self.tree,
            &self.weights.weights,
            &self.totals.by_dir,
            owners,
            &self.users,
        )
    }
}

/// The files and bytes that the report's `meta` table gives are those of its
/// users, taken together.
pub proof fn law_meta_adds_up(b: DetailBuild)
    requires
        b.wf(),
    ensures
        tally::files_sum(b.totals.by_user@[0]@) == b.totals.by_dir.file_sum(),
        tally::sizes_sum(b.totals.by_user@[0]@) == b.totals.by_dir.size_sum(),
{
    report::law_user_totals_match_dirs(b.totals);
    b.totals.by_dir.lemma_wf();
}

/// Whether a numbered file has a row of the same size for each row of another.
pub open spec fn same_sizes(file: Seq<CompactRow>, rows: Seq<RowModel>) -> bool {
    &&& file.len() == rows.len()
    &&& forall|i: int| 0 <= i < rows.len() ==> (#[trigger] file[i]).size == rows[i].size
}

/// The name of a JSON document.
pub open spec fn json_name(stem: Seq<char>) -> Seq<char> {
    stem + ".json"@
}

fn json_file(stem: &str) -> (r: String)
    ensures
        r@ == json_name(stem@),
{
    let mut r: String = stem.to_owned();
    r.append(".json");
    r
}

/// What older runs left beside a detail database and nothing reads any more: two
/// documents and two directories.
pub fn outdated_detail_outputs() -> (r: Vec<String>)
    ensures
        text::strs(r@) == seq![
            json_name("data_detail"@),
            json_name("manifest"@),
            "users"@,
            "api"@,
        ],
{
    let mut r: Vec<String> = Vec::new();
    r.push(json_file("data_detail"));
    r.push(json_file("manifest"));
    r.push("users".to_string());
    r.push("api".to_string());
    assert(text::strs(r@) =~= seq![
        json_name("data_detail"@),
        json_name("manifest"@),
        "users"@,
        "api"@,
    ]);
    r
}

/// What older runs left beside a treemap database and nothing reads any more: a
/// document and two directories.
pub fn outdated_treemap_outputs() -> (r: Vec<String>)
    ensures
        text::strs(r@) == seq!["shards"@, "api"@, json_name("manifest"@)],
{
    let mut r: Vec<String> = Vec::new();
    r.push("shards".to_string());
    r.push("api".to_string());
    r.push(json_file("manifest"));
    assert(text::strs(r@) =~= seq!["shards"@, "api"@, json_name("manifest"@)]);
    r
}

} // verus!
