//! One walker: what it has counted, and the records that it leaves behind.

use crate::events::DirAggEvent;
use crate::events::DirAggModel;
use crate::events::DirOwnerEvent;
use crate::events::DirOwnerModel;
use crate::events::PermissionEvent;
use crate::events::PermissionModel;
use crate::events::ScanModel;
use crate::events;
use crate::ingest::DirSizes;
use crate::ingest;
use crate::paths;
use crate::tally;
use crate::text;
use crate::walk::WalkStats;
use crate::walk;
use vstd::prelude::*;
use vstd::string::*;

verus! {

// ---------------------------------------------------------------------------
// What records add up to
// ---------------------------------------------------------------------------

/// The bytes of a user's records.
pub open spec fn user_bytes(evs: Seq<ScanModel>, uid: i64) -> int
    decreases evs.len(),
{
    if evs.len() == 0 {
        0
    } else {
        user_bytes(evs.drop_last(), uid) + (if evs.last().uid as i64 == uid {
            evs.last().size as int
        } else {
            0
        })
    }
}

/// The number of a user's records.
pub open spec fn user_files(evs: Seq<ScanModel>, uid: i64) -> int
    decreases evs.len(),
{
    if evs.len() == 0 {
        0
    } else {
        user_files(evs.drop_last(), uid) + (if evs.last().uid as i64 == uid {
            1int
        } else {
            0
        })
    }
}

/// The bytes of a user's records directly in a directory.
pub open spec fn bytes_in(evs: Seq<ScanModel>, dir: Seq<char>, uid: u32) -> int
    decreases evs.len(),
{
    if evs.len() == 0 {
        0
    } else {
        bytes_in(evs.drop_last(), dir, uid) + (if evs.last().uid == uid && paths::named_parent(
            evs.last().path,
        ) == Some(dir) {
            evs.last().size as int
        } else {
            0
        })
    }
}

/// The number of records directly in a directory.
pub open spec fn records_in(evs: Seq<ScanModel>, dir: Seq<char>) -> int
    decreases evs.len(),
{
    if evs.len() == 0 {
        0
    } else {
        records_in(evs.drop_last(), dir) + (if paths::named_parent(evs.last().path) == Some(dir) {
            1int
        } else {
            0
        })
    }
}

proof fn lemma_counts(evs: Seq<ScanModel>, dir: Seq<char>, uid: i64)
    ensures
        records_in(evs, dir) >= 0,
        user_files(evs, uid) >= 0,
    decreases evs.len(),
{
    if evs.len() > 0 {
        lemma_counts(evs.drop_last(), dir, uid);
    }
}

// ---------------------------------------------------------------------------
// The directory sizes as records
// ---------------------------------------------------------------------------

/// The records of one directory.
pub open spec fn aggs_in(dir: Seq<char>, list: Seq<(u32, i64)>) -> Seq<DirAggModel> {
    list.map_values(|x: (u32, i64)| DirAggModel { uid: x.0, size: x.1, path: dir })
}

/// The records of the first `n` directories.
pub open spec fn aggs_upto(names: Seq<Seq<char>>, lists: Seq<Vec<(u32, i64)>>, n: int) -> Seq<
    DirAggModel,
>
    decreases n,
{
    if n <= 0 {
        Seq::empty()
    } else {
        aggs_upto(names, lists, n - 1) + aggs_in(names[n - 1], lists[n - 1]@)
    }
}

proof fn lemma_aggs_in(dir: Seq<char>, list: Seq<(u32, i64)>, d: Seq<char>, u: u32)
    requires
        ingest::list_ok(list),
    ensures
        ingest::agg_bytes(aggs_in(dir, list), d, u) == (if d == dir {
            ingest::size_in(list, u)
        } else {
            0
        }),
        ingest::agg_total(aggs_in(dir, list)) == ingest::list_sum(list),
    decreases list.len(),
{
    if list.len() > 0 {
        let head = list.drop_last();
        assert(ingest::list_ok(head));
        lemma_aggs_in(dir, head, d, u);
        assert(aggs_in(dir, list).drop_last() =~= aggs_in(dir, head));
        assert(list[list.len() - 1].1 >= 0);
    }
}

proof fn lemma_aggs_upto(
    names: Seq<Seq<char>>,
    lists: Seq<Vec<(u32, i64)>>,
    n: int,
    d: Seq<char>,
    u: u32,
)
    requires
        0 <= n <= names.len(),
        names.len() == lists.len(),
        names.no_duplicates(),
        forall|i: int| 0 <= i < lists.len() ==> ingest::list_ok((#[trigger] lists[i])@),
    ensures
        ingest::agg_bytes(aggs_upto(names, lists, n), d, u) == (if names.contains(d)
            && names.index_of(d) < n {
            ingest::size_in(lists[names.index_of(d)]@, u)
        } else {
            0
        }),
        ingest::agg_total(aggs_upto(names, lists, n)) == ingest::lists_sum(lists.take(n)),
    decreases n,
{
    if names.contains(d) {
        let k = names.index_of(d);
        assert(0 <= k < names.len() && names[k] == d);
    }
    if n == 0 {
        assert(lists.take(0) =~= Seq::<Vec<(u32, i64)>>::empty());
    } else {
        let last = aggs_in(names[n - 1], lists[n - 1]@);
        lemma_aggs_upto(names, lists, n - 1, d, u);
        lemma_aggs_in(names[n - 1], lists[n - 1]@, d, u);
        ingest::law_dir_sizes_may_be_split(aggs_upto(names, lists, n - 1), last, d, u);
        assert(lists.take(n).drop_last() =~= lists.take(n - 1));
        if d == names[n - 1] {
            assert(names.contains(d));
            assert(names.index_of(d) == n - 1);
        }
    }
}

proof fn lemma_agg_body_push(s: Seq<DirAggModel>, e: DirAggModel)
    ensures
        events::dir_agg_body(s.push(e)) == events::dir_agg_body(s) + events::dir_agg_record(e),
    decreases s.len(),
{
    let t = s.push(e);
    if s.len() == 0 {
        assert(t.drop_first() =~= Seq::<DirAggModel>::empty());
        assert(events::dir_agg_body(Seq::<DirAggModel>::empty()) =~= Seq::<u8>::empty());
        assert(events::dir_agg_body(s) =~= Seq::<u8>::empty());
        assert(events::dir_agg_body(t) =~= events::dir_agg_body(s) + events::dir_agg_record(e));
    } else {
        lemma_agg_body_push(s.drop_first(), e);
        assert(t.drop_first() =~= s.drop_first().push(e));
        assert(events::dir_agg_body(t) =~= events::dir_agg_body(s) + events::dir_agg_record(e));
    }
}

proof fn lemma_owner_body_push(s: Seq<DirOwnerModel>, e: DirOwnerModel)
    ensures
        events::dir_owner_body(s.push(e)) == events::dir_owner_body(s)
            + events::dir_owner_record(e),
    decreases s.len(),
{
    let t = s.push(e);
    if s.len() == 0 {
        assert(t.drop_first() =~= Seq::<DirOwnerModel>::empty());
        assert(events::dir_owner_body(Seq::<DirOwnerModel>::empty()) =~= Seq::<u8>::empty());
        assert(events::dir_owner_body(s) =~= Seq::<u8>::empty());
        assert(events::dir_owner_body(t) =~= events::dir_owner_body(s)
            + events::dir_owner_record(e));
    } else {
        lemma_owner_body_push(s.drop_first(), e);
        assert(t.drop_first() =~= s.drop_first().push(e));
        assert(events::dir_owner_body(t) =~= events::dir_owner_body(s)
            + events::dir_owner_record(e));
    }
}

proof fn lemma_scan_body_push(s: Seq<ScanModel>, e: ScanModel)
    ensures
        events::scan_body(s.push(e)) == events::scan_body(s) + events::scan_record(e),
    decreases s.len(),
{
    let t = s.push(e);
    if s.len() == 0 {
        assert(t.drop_first() =~= Seq::<ScanModel>::empty());
        assert(events::scan_body(Seq::<ScanModel>::empty()) =~= Seq::<u8>::empty());
        assert(events::scan_body(s) =~= Seq::<u8>::empty());
        assert(events::scan_body(t) =~= events::scan_body(s) + events::scan_record(e));
    } else {
        lemma_scan_body_push(s.drop_first(), e);
        assert(t.drop_first() =~= s.drop_first().push(e));
        assert(events::scan_body(t) =~= events::scan_body(s) + events::scan_record(e));
    }
}

/// The start of a text takes no more bytes than the text.
proof fn lemma_start_fits(s: Seq<char>, n: int)
    requires
        0 <= n <= s.len(),
    ensures
        vstd::utf8::encode_utf8(s.take(n)).len() <= vstd::utf8::encode_utf8(s).len(),
    decreases n,
{
    if n > 0 {
        lemma_start_fits(s.drop_first(), n - 1);
        assert(s.take(n).drop_first() =~= s.drop_first().take(n - 1));
    }
}

/// The parent of a path that fits its field fits it too.
proof fn lemma_parent_fits(path: Seq<char>)
    requires
        events::path_fits(path),
        paths::named_parent(path) is Some,
    ensures
        events::path_fits(paths::named_parent(path)->0),
{
    let t = paths::drop_slashes_end(path);
    paths::lemma_drop_slashes_end(path);
    text::lemma_rfind(t, '/');
    let r = text::rfind(t, '/');
    let n = if r == 0 {
        1
    } else {
        r
    };
    assert(paths::named_parent(path)->0 =~= path.take(n));
    lemma_start_fits(path, n);
}

// ---------------------------------------------------------------------------
// Walkers
// ---------------------------------------------------------------------------

/// An issue of a kind, and with an error, that a walker notes.
pub open spec fn known_issue(e: PermissionModel) -> bool {
    &&& e.kind == "file"@ || e.kind == "directory"@
    &&& exists|msg: Seq<char>| e.errcode == #[trigger] walk::error_code(msg)
}

/// What a walker has counted.
#[verifier::ext_equal]
pub struct WalkerModel {
    pub files: nat,
    pub dirs: nat,
    pub inodes: nat,
    pub size: int,
    /// The files of the users that the scan reports on.
    pub events: Seq<ScanModel>,
    /// The directories whose owners are known.
    pub owners: Seq<DirOwnerModel>,
    /// What could not be read.
    pub issues: Seq<PermissionModel>,
    /// The bytes of records that were handed out to be written.
    pub sent: Seq<u8>,
    /// The number of records that were not handed out yet.
    pub held: nat,
}

impl WalkerModel {
    /// The bytes of records that were not handed out yet.
    pub open spec fn pending(self) -> Seq<u8> {
        events::scan_body(self.events).skip(self.sent.len() as int)
    }

    /// Whether the records are to be written.
    pub open spec fn due(self) -> bool {
        self.held >= walk::SCAN_EVENT_FLUSH_THRESHOLD || self.pending().len()
            >= walk::SCAN_EVENT_FLUSH_BYTES_THRESHOLD
    }

    /// Every file that was counted has a record.
    pub open spec fn records_all(self) -> bool {
        self.files == self.events.len() && self.size == ingest::all_bytes(self.events)
    }

    /// All records handed out.
    pub open spec fn flushed(self) -> WalkerModel {
        WalkerModel { sent: self.sent + self.pending(), held: 0, ..self }
    }
}

/// The state of one walker.
pub struct Walker {
    stats: WalkStats,
    buffer: Vec<u8>,
    held: usize,
    owners: Vec<DirOwnerEvent>,
    issues: Vec<PermissionEvent>,
    counted: Ghost<Seq<ScanModel>>,
    sent: Ghost<Seq<u8>>,
}

impl View for Walker {
    type V = WalkerModel;

    closed spec fn view(&self) -> WalkerModel {
        WalkerModel {
            files: self.stats.files as nat,
            dirs: self.stats.dirs as nat,
            inodes: self.stats.inodes as nat,
            size: self.stats.size as int,
            events: self.counted@,
            owners: events::dir_owner_views(self.owners@),
            issues: events::permission_views(self.issues@),
            sent: self.sent@,
            held: self.held as nat,
        }
    }
}

impl Walker {
    /// The totals are those of the records, and the buffer holds the records that
    /// were not handed out.
    pub closed spec fn wf(&self) -> bool {
        &&& self.stats.wf()
        &&& self.stats.permission_issues == self.issues@.len()
        &&& forall|i: int| 0 <= i < self.issues@.len() ==> known_issue((#[trigger] self.issues@[i])@)
        &&& self.sent@ + self.buffer@ == events::scan_body(self.counted@)
        &&& self.held < walk::SCAN_EVENT_FLUSH_THRESHOLD
        &&& forall|i: int|
            0 <= i < self.counted@.len() ==> events::path_fits((#[trigger] self.counted@[i]).path)
        &&& forall|i: int|
            0 <= i < self.owners@.len() ==> events::path_fits((#[trigger] self.owners@[i]).path@)
        &&& forall|i: int|
            0 <= i < self.stats.dir_sizes.dir_names().len() ==> events::path_fits(
                #[trigger] self.stats.dir_sizes.dir_names()[i],
            )
        &&& forall|u: i64| #[trigger]
            self.stats.by_uid.size_at(0, u) == user_bytes(self.counted@, u)
        &&& forall|u: i64| #[trigger]
            self.stats.by_uid.files_at(0, u) == user_files(self.counted@, u)
        &&& forall|d: Seq<char>, u: u32| #[trigger]
            self.stats.dir_sizes.size_at(d, u) == bytes_in(self.counted@, d, u)
        &&& self.stats.by_uid.size_sum() == ingest::all_bytes(self.counted@)
        &&& self.stats.by_uid.file_sum() == self.counted@.len()
        &&& forall|u: i64| #[trigger]
            tally::has_uid(self.stats.by_uid@[0]@, u) <==> user_files(self.counted@, u) > 0
        &&& forall|d: Seq<char>| #[trigger]
            self.stats.dir_sizes.dir_names().contains(d) <==> records_in(self.counted@, d) > 0
    }

    /// What a walker knows of its records.
    pub proof fn lemma_wf(&self)
        requires
            self.wf(),
        ensures
            self@.sent + self@.pending() == events::scan_body(self@.events),
            forall|i: int|
                0 <= i < self@.events.len() ==> events::path_fits(
                    (#[trigger] self@.events[i]).path,
                ),
            forall|i: int|
                0 <= i < self@.owners.len() ==> events::path_fits(
                    (#[trigger] self@.owners[i]).path,
                ),
            forall|i: int|
                0 <= i < self@.issues.len() ==> known_issue(#[trigger] self@.issues[i]),
            0 <= self@.size <= i64::MAX,
            self@.files <= u64::MAX,
            self@.dirs <= u64::MAX,
            self@.inodes <= u64::MAX,
            self@.held < walk::SCAN_EVENT_FLUSH_THRESHOLD,
    {
        self.lemma_pending();
    }

    proof fn lemma_pending(&self)
        requires
            self.wf(),
        ensures
            self@.pending() == self.buffer@,
    {
        assert((self.sent@ + self.buffer@).skip(self.sent@.len() as int) =~= self.buffer@);
    }

    pub fn new() -> (r: Self)
        ensures
            r.wf(),
            r@ == (WalkerModel {
                files: 0,
                dirs: 0,
                inodes: 0,
                size: 0,
                events: Seq::empty(),
                owners: Seq::empty(),
                issues: Seq::empty(),
                sent: Seq::empty(),
                held: 0,
            }),
    {
        let r = Walker {
            stats: WalkStats::new(),
            buffer: Vec::new(),
            held: 0,
            owners: Vec::new(),
            issues: Vec::new(),
            counted: Ghost(Seq::empty()),
            sent: Ghost(Seq::empty()),
        };
        proof {
            assert(r.sent@ + r.buffer@ =~= events::scan_body(r.counted@));
            assert(events::dir_owner_views(r.owners@) =~= Seq::empty());
            assert(events::permission_views(r.issues@) =~= Seq::empty());
        }
        r
    }

    /// The totals.
    pub fn stats(&self) -> (r: &WalkStats)
        requires
            self.wf(),
        ensures
            r.wf(),
            r.files == self@.files,
            r.dirs == self@.dirs,
            r.inodes == self@.inodes,
            r.size == self@.size,
            r.permission_issues == self@.issues.len(),
            forall|u: i64| #[trigger]
                r.by_uid.size_at(0, u) == user_bytes(self@.events, u),
            forall|u: i64| #[trigger]
                r.by_uid.files_at(0, u) == user_files(self@.events, u),
            forall|d: Seq<char>, u: u32| #[trigger]
                r.dir_sizes.size_at(d, u) == bytes_in(self@.events, d, u),
            r.by_uid.size_sum() == ingest::all_bytes(self@.events),
            r.by_uid.file_sum() == self@.events.len(),
            self@.records_all() ==> r.adds_up(),
            forall|u: i64| #[trigger]
                tally::has_uid(r.by_uid@[0]@, u) <==> user_files(self@.events, u) > 0,
            forall|d: Seq<char>| #[trigger]
                r.dir_sizes.dir_names().contains(d) <==> records_in(self@.events, d) > 0,
    {
        proof {
            self.stats.lemma_sums();
        }
        &self.stats
    }

    /// The owners of the directories.
    pub fn owner_uids(&self) -> (r: Vec<u32>)
        ensures
            r@ == self@.owners.map_values(|o: DirOwnerModel| o.uid),
    {
        let ghost all = events::dir_owner_views(self.owners@);
        let ghost f = |o: DirOwnerModel| o.uid;
        let mut out: Vec<u32> = Vec::new();
        assert(out@ =~= all.take(0).map_values(f));
        let mut i: usize = 0;
        while i < self.owners.len()
            invariant
                i <= self.owners@.len(),
                all == events::dir_owner_views(self.owners@),
                f == (|o: DirOwnerModel| o.uid),
                out@ == all.take(i as int).map_values(f),
            decreases self.owners@.len() - i,
        {
            out.push(self.owners[i].uid);
            assert(out@ =~= all.take(i + 1).map_values(f));
            i = i + 1;
        }
        assert(all.take(i as int) =~= all);
        out
    }

    /// Whether another entry of `size` bytes can be counted.
    pub fn has_room(&self, size: u64) -> (r: bool)
        requires
            self.wf(),
        ensures
            r == (self@.files < i64::MAX && self@.dirs < u64::MAX && self@.inodes < u64::MAX
                && self@.size + size <= i64::MAX),
    {
        self.stats.has_room(size)
    }

    /// Notes what could not be read.
    fn note(&mut self, e: PermissionEvent)
        requires
            old(self).wf(),
            known_issue(e@),
        ensures
            final(self).wf(),
            final(self)@ == (WalkerModel { issues: old(self)@.issues.push(e@), ..old(self)@ }),
    {
        let ghost before = self.issues@;
        self.issues.push(e);
        self.stats.permission_issues = self.issues.len() as u64;
        proof {
            assert(events::permission_views(self.issues@) =~= events::permission_views(
                before,
            ).push(e@));
        }
    }

    /// Notes an entry that the walk could not read.
    pub fn note_error(&mut self, msg: &str)
        requires
            old(self).wf(),
        ensures
            final(self).wf(),
            final(self)@ == (WalkerModel {
                issues: old(self)@.issues.push(
                    (PermissionModel {
                        uid: 0,
                        kind: "directory"@,
                        errcode: walk::error_code(msg@),
                        path: walk::error_path(msg@),
                    }),
                ),
                ..old(self)@
            }),
    {
        self.note(walk::walk_error(msg));
    }

    /// Notes a file whose metadata could not be read.
    pub fn note_file(&mut self, path: &str, msg: &str)
        requires
            old(self).wf(),
        ensures
            final(self).wf(),
            final(self)@ == (WalkerModel {
                issues: old(self)@.issues.push(
                    (PermissionModel {
                        uid: 0,
                        kind: "file"@,
                        errcode: walk::error_code(msg@),
                        path: path@,
                    }),
                ),
                ..old(self)@
            }),
    {
        self.note(
            PermissionEvent {
                uid: 0,
                kind: "file".to_owned(),
                errcode: walk::error_code_from_message(msg).to_owned(),
                path: path.to_owned(),
            },
        );
    }

    /// Counts an inode that is neither a file nor a directory.
    pub fn count_inode(&mut self)
        requires
            old(self).wf(),
            old(self)@.inodes < u64::MAX,
        ensures
            final(self).wf(),
            final(self)@ == (WalkerModel { inodes: old(self)@.inodes + 1, ..old(self)@ }),
    {
        self.stats.count_inode();
    }

    /// Counts a directory, and notes its owner where it is known.
    pub fn count_dir(&mut self, path: &str, owner: Option<u32>)
        requires
            old(self).wf(),
            old(self)@.inodes < u64::MAX,
            old(self)@.dirs < u64::MAX,
            events::path_fits(path@),
        ensures
            final(self).wf(),
            final(self)@ == (WalkerModel {
                inodes: old(self)@.inodes + 1,
                dirs: old(self)@.dirs + 1,
                owners: (match owner {
                    Some(uid) => old(self)@.owners.push(DirOwnerModel { uid, path: path@ }),
                    None => old(self)@.owners,
                }),
                ..old(self)@
            }),
    {
        self.stats.count_dir();
        match owner {
            Some(uid) => {
                let ghost before = self.owners@;
                let e = DirOwnerEvent { uid, path: path.to_owned() };
                self.owners.push(e);
                proof {
                    assert(events::dir_owner_views(self.owners@) =~= events::dir_owner_views(
                        before,
                    ).push(e@));
                }
            },
            None => {},
        }
    }

    /// Counts a file, and returns the records that are to be written now: none, or
    /// all that were not handed out yet.
    pub fn count_file(&mut self, path: &str, uid: u32, size: u64, target: bool) -> (r: Vec<u8>)
        requires
            old(self).wf(),
            old(self)@.files < i64::MAX,
            old(self)@.inodes < u64::MAX,
            old(self)@.size + size <= i64::MAX,
            events::path_fits(path@),
        ensures
            final(self).wf(),
            target && old(self)@.records_all() ==> final(self)@.records_all(),
            ({
                let now = WalkerModel {
                    files: old(self)@.files + 1,
                    inodes: old(self)@.inodes + 1,
                    size: old(self)@.size + size,
                    events: if target {
                        old(self)@.events.push(ScanModel { uid, size, path: path@ })
                    } else {
                        old(self)@.events
                    },
                    held: if target {
                        old(self)@.held + 1
                    } else {
                        old(self)@.held
                    },
                    ..old(self)@
                };
                if target && now.due() {
                    final(self)@ == now.flushed() && r@ == now.pending()
                } else {
                    final(self)@ == now && r@ == Seq::<u8>::empty()
                }
            }),
    {
        let ghost was = self.stats;
        let ghost names = self.stats.dir_sizes.dir_names();
        let ghost before = self.counted@;
        let ghost kept = self.buffer@;
        match self.stats.count_file(path, uid, size, target) {
            Some(e) => {
                proof {
                    lemma_scan_body_push(before, e@);
                    let now = self.stats.dir_sizes.dir_names();
                    assert forall|i: int| 0 <= i < now.len() implies events::path_fits(
                        #[trigger] now[i],
                    ) by {
                        if i < names.len() {
                            assert(now[i] == names[i]);
                        } else {
                            lemma_parent_fits(path@);
                        }
                    }
                }
                events::push_scan_event(&mut self.buffer, &e);
                self.held = self.held + 1;
                self.counted = Ghost(before.push(e@));
                proof {
                    assert(self.sent@ + self.buffer@ =~= self.sent@ + kept + events::scan_record(
                        e@,
                    ));
                    assert(before.push(e@).drop_last() =~= before);
                    assert forall|u: i64| #[trigger]
                        tally::has_uid(self.stats.by_uid@[0]@, u) <==> user_files(
                            before.push(e@),
                            u,
                        ) > 0 by {
                        assert(tally::has_uid(was.by_uid@[0]@, u) <==> user_files(before, u) > 0);
                        lemma_counts(before, path@, u);
                    }
                    assert forall|d: Seq<char>| #[trigger]
                        self.stats.dir_sizes.dir_names().contains(d) <==> records_in(
                            before.push(e@),
                            d,
                        ) > 0 by {
                        assert(names.contains(d) <==> records_in(before, d) > 0);
                        lemma_counts(before, d, 0);
                        match paths::named_parent(path@) {
                            Some(x) => ingest::lemma_with_name(names, x, d),
                            None => {},
                        }
                    }
                    assert((self.sent@ + self.buffer@).skip(self.sent@.len() as int)
                        =~= self.buffer@);
                }
                if walk::should_flush(self.held, self.buffer.len()) {
                    self.hand_out()
                } else {
                    Vec::new()
                }
            },
            None => Vec::new(),
        }
    }

    fn hand_out(&mut self) -> (r: Vec<u8>)
        requires
            old(self).sent@ + old(self).buffer@ == events::scan_body(old(self).counted@),
        ensures
            r@ == old(self).buffer@,
            final(self).stats == old(self).stats,
            final(self).owners == old(self).owners,
            final(self).issues == old(self).issues,
            final(self).counted == old(self).counted,
            final(self).buffer@ == Seq::<u8>::empty(),
            final(self).held == 0,
            final(self).sent@ == old(self).sent@ + old(self).buffer@,
    {
        let mut out: Vec<u8> = Vec::new();
        std::mem::swap(&mut out, &mut self.buffer);
        self.sent = Ghost(self.sent@ + out@);
        self.held = 0;
        out
    }

    /// Hands out the records that were not handed out yet.
    pub fn flush(&mut self) -> (r: Vec<u8>)
        requires
            old(self).wf(),
        ensures
            final(self).wf(),
            final(self)@ == old(self)@.flushed(),
            r@ == old(self)@.pending(),
    {
        proof {
            self.lemma_pending();
        }
        let out = self.hand_out();
        assert(self.sent@ + self.buffer@ =~= self.sent@);
        out
    }

    /// The file of directory sizes.
    pub fn dir_agg_file(&self) -> (r: Vec<u8>)
        requires
            self.wf(),
        ensures
            events::whole_records(events::after_magic(r@, events::dir_agg_magic()), 16),
            forall|d: Seq<char>, u: u32| #[trigger]
                ingest::agg_bytes(events::dir_aggs_of(r@), d, u) == bytes_in(self@.events, d, u),
            ingest::agg_total(events::dir_aggs_of(r@)) <= self@.size,
    {
        let sizes: &DirSizes = &self.stats.dir_sizes;
        let ghost names = sizes.dir_names();
        let ghost lists = sizes.lists();
        let ghost magic = events::dir_agg_magic();
        proof {
            sizes.lemma_wf();
        }
        let mut out = events::dir_agg_bin_magic();
        let n: usize = sizes.len();
        assert(out@ =~= magic + events::dir_agg_body(aggs_upto(names, lists, 0)));
        let mut i: usize = 0;
        while i < n
            invariant
                sizes == &self.stats.dir_sizes,
                names == sizes.dir_names(),
                lists == sizes.lists(),
                n == names.len(),
                names.len() == lists.len(),
                i <= n,
                forall|k: int| 0 <= k < names.len() ==> events::path_fits(#[trigger] names[k]),
                out@ == magic + events::dir_agg_body(aggs_upto(names, lists, i as int)),
            decreases n - i,
        {
            let dir = sizes.dir(i);
            let list = sizes.list(i);
            let ghost base = aggs_upto(names, lists, i as int);
            let ghost all = aggs_in(names[i as int], list@);
            let mut j: usize = 0;
            assert(base + all.take(0) =~= base);
            while j < list.len()
                invariant
                    j <= list@.len(),
                    dir@ == names[i as int],
                    events::path_fits(dir@),
                    all == aggs_in(names[i as int], list@),
                    out@ == magic + events::dir_agg_body(base + all.take(j as int)),
                decreases list@.len() - j,
            {
                let e = DirAggEvent { uid: list[j].0, size: list[j].1, path: dir.clone() };
                let ghost before = out@;
                events::push_dir_agg(&mut out, &e);
                proof {
                    assert(e@ == all[j as int]);
                    lemma_agg_body_push(base + all.take(j as int), e@);
                    assert((base + all.take(j as int)).push(e@) =~= base + all.take(j + 1));
                    assert(out@ =~= magic + events::dir_agg_body(base + all.take(j + 1)));
                }
                j = j + 1;
            }
            assert(all.take(j as int) =~= all);
            i = i + 1;
        }
        proof {
            let all = aggs_upto(names, lists, n as int);
            lemma_aggs_fit(names, lists, n as int);
            events::law_read_of_written_dir_aggs(all);
            assert forall|d: Seq<char>, u: u32| #[trigger]
                ingest::agg_bytes(events::dir_aggs_of(out@), d, u) == bytes_in(
                    self@.events,
                    d,
                    u,
                ) by {
                lemma_aggs_upto(names, lists, n as int, d, u);
                assert(sizes.size_at(d, u) == bytes_in(self.counted@, d, u));
                if names.contains(d) {
                    assert(0 <= names.index_of(d) < names.len());
                }
            }
            lemma_aggs_upto(names, lists, n as int, Seq::empty(), 0);
            assert(lists.take(n as int) =~= lists);
        }
        out
    }

    /// The file of directory owners.
    pub fn dir_owner_file(&self) -> (r: Vec<u8>)
        requires
            self.wf(),
        ensures
            r@ == events::dir_owner_magic() + events::dir_owner_body(self@.owners),
    {
        let ghost all = events::dir_owner_views(self.owners@);
        let ghost magic = events::dir_owner_magic();
        let mut out = events::dir_owner_bin_magic();
        assert(all.take(0) =~= Seq::<DirOwnerModel>::empty());
        assert(out@ =~= magic + events::dir_owner_body(all.take(0)));
        let mut i: usize = 0;
        while i < self.owners.len()
            invariant
                self.wf(),
                i <= self.owners@.len(),
                all == events::dir_owner_views(self.owners@),
                out@ == magic + events::dir_owner_body(all.take(i as int)),
            decreases self.owners@.len() - i,
        {
            let e: &DirOwnerEvent = &self.owners[i];
            events::push_dir_owner(&mut out, e);
            proof {
                assert(all[i as int] == e@);
                lemma_owner_body_push(all.take(i as int), e@);
                assert(all.take(i as int).push(e@) =~= all.take(i + 1));
                assert(out@ =~= magic + events::dir_owner_body(all.take(i + 1)));
            }
            i = i + 1;
        }
        assert(all.take(i as int) =~= all);
        out
    }

    /// The file of what could not be read: a line for each.
    pub fn issue_file(&self) -> (r: String)
        requires
            self.wf(),
        ensures
            r@ == issue_text(self@.issues),
    {
        let ghost all = events::permission_views(self.issues@);
        let mut out = String::new();
        assert(out@ =~= issue_text(all.take(0)));
        let mut i: usize = 0;
        while i < self.issues.len()
            invariant
                i <= self.issues@.len(),
                all == events::permission_views(self.issues@),
                out@ == issue_text(all.take(i as int)),
            decreases self.issues@.len() - i,
        {
            let line = events::permission_line(&self.issues[i]);
            let ghost before = out@;
            out.append(line.as_str());
            out.push('\n');
            proof {
                assert(all[i as int] == self.issues@[i as int]@);
                assert(all.take(i + 1).drop_last() =~= all.take(i as int));
                assert(out@ =~= before + line@ + seq!['\n']);
            }
            i = i + 1;
        }
        assert(all.take(i as int) =~= all);
        out
    }
}

/// What could not be read, as lines.
pub open spec fn issue_text(issues: Seq<PermissionModel>) -> Seq<char>
    decreases issues.len(),
{
    if issues.len() == 0 {
        Seq::empty()
    } else {
        issue_text(issues.drop_last()) + events::permission_line_of(issues.last()) + seq!['\n']
    }
}

proof fn lemma_aggs_fit(names: Seq<Seq<char>>, lists: Seq<Vec<(u32, i64)>>, n: int)
    requires
        0 <= n <= names.len(),
        names.len() == lists.len(),
        forall|k: int| 0 <= k < names.len() ==> events::path_fits(#[trigger] names[k]),
    ensures
        forall|i: int|
            0 <= i < aggs_upto(names, lists, n).len() ==> events::path_fits(
                (#[trigger] aggs_upto(names, lists, n)[i]).path,
            ),
    decreases n,
{
    if n > 0 {
        lemma_aggs_fit(names, lists, n - 1);
        let head = aggs_upto(names, lists, n - 1);
        let last = aggs_in(names[n - 1], lists[n - 1]@);
        assert forall|i: int| 0 <= i < (head + last).len() implies events::path_fits(
            (#[trigger] (head + last)[i]).path,
        ) by {
            if i >= head.len() {
                assert((head + last)[i] == last[i - head.len()]);
            } else {
                assert((head + last)[i] == head[i]);
            }
        }
    }
}

// ---------------------------------------------------------------------------
// Laws
// ---------------------------------------------------------------------------

/// What a walker has handed out and what it still holds make up a file of its
/// records: read back, the file gives every file that it counted for a user, and
/// nothing else.
pub proof fn law_walked_files_read_back(w: Walker)
    requires
        w.wf(),
    ensures
        events::scan_events_of(events::scan_magic() + (w@.sent + w@.pending())) == w@.events,
{
    w.lemma_wf();
    events::law_read_of_written_scan_events(w@.events);
}

/// A text that ends with `c`, or is empty, is split before what follows it.
proof fn lemma_split_append(x: Seq<char>, y: Seq<char>, c: char)
    requires
        text::split(x, c).last().len() == 0,
    ensures
        text::split(x + y, c) == text::split(x, c).drop_last() + text::split(y, c),
    decreases x.len(),
{
    text::lemma_find(x, c);
    let f = text::find(x, c);
    if f >= x.len() {
        assert(text::split(x, c) == seq![x]);
        assert(x + y =~= y);
        assert(text::split(x, c).drop_last() + text::split(y, c) =~= text::split(y, c));
    } else {
        let rest = x.skip(f + 1);
        assert forall|j: int| 0 <= j < f implies (x + y)[j] != c by {
            assert((x + y)[j] == x[j]);
        }
        text::lemma_find_unique(x + y, c, f);
        text::lemma_split_nonempty(rest, c);
        assert((x + y).take(f) =~= x.take(f));
        assert((x + y).skip(f + 1) =~= rest + y);
        let head = seq![x.take(f)];
        assert((head + text::split(rest, c)).last() == text::split(rest, c).last());
        lemma_split_append(rest, y, c);
        assert((head + text::split(rest, c)).drop_last() =~= head + text::split(
            rest,
            c,
        ).drop_last());
        assert(text::split(x + y, c) =~= text::split(x, c).drop_last() + text::split(y, c));
    }
}

/// Whether a path can stand at the end of a line.
pub open spec fn fits_a_line(path: Seq<char>) -> bool {
    !path.contains('\n') && (path.len() > 0 ==> path.last() != '\r')
}

proof fn lemma_known_issue(e: PermissionModel)
    requires
        known_issue(e),
    ensures
        !e.kind.contains('\t'),
        !e.kind.contains('\n'),
        !e.errcode.contains('\t'),
        !e.errcode.contains('\n'),
{
    reveal_strlit("file");
    reveal_strlit("directory");
    reveal_strlit("EACCES");
    reveal_strlit("ENOENT");
    reveal_strlit("EIO");
    reveal_strlit("EOTHER");
}

proof fn lemma_issue_line(e: PermissionModel)
    requires
        known_issue(e),
        fits_a_line(e.path),
    ensures
        !events::permission_line_of(e).contains('\n'),
        text::strip_cr(events::permission_line_of(e)) == events::permission_line_of(e),
        text::split(events::permission_line_of(e) + seq!['\n'], '\n') == seq![
            events::permission_line_of(e),
            Seq::<char>::empty(),
        ],
{
    let line = events::permission_line_of(e);
    let d = text::dec(e.uid as nat);
    lemma_known_issue(e);
    text::lemma_dec_digits(e.uid as nat);
    let t = seq!['\t'];
    let a = seq!['P', '\t'];
    assert forall|j: int| 0 <= j < line.len() implies line[j] != '\n' by {
        let n1 = a.len();
        let n2 = n1 + d.len();
        let n3 = n2 + 1 + e.kind.len();
        let n4 = n3 + 1 + e.errcode.len();
        if j < n1 {
        } else if j < n2 {
            assert(line[j] == d[j - n1]);
            assert(text::is_digit_char(d[j - n1]));
        } else if j == n2 {
        } else if j < n3 {
            assert(line[j] == e.kind[j - n2 - 1]);
            assert(e.kind.contains(line[j]));
        } else if j == n3 {
        } else if j < n4 {
            assert(line[j] == e.errcode[j - n3 - 1]);
            assert(e.errcode.contains(line[j]));
        } else if j == n4 {
        } else {
            assert(line[j] == e.path[j - n4 - 1]);
            assert(e.path.contains(line[j]));
        }
    }
    if e.path.len() > 0 {
        assert(line.last() == e.path.last());
    } else {
        assert(line.last() == '\t');
    }
    let full = line + seq!['\n'];
    assert forall|j: int| 0 <= j < line.len() implies full[j] != '\n' by {
        assert(full[j] == line[j]);
    }
    text::lemma_find_unique(full, '\n', line.len() as int);
    assert(full.take(line.len() as int) =~= line);
    assert(full.skip(line.len() as int + 1) =~= Seq::<char>::empty());
    let none = Seq::<char>::empty();
    text::lemma_find(none, '\n');
    assert(text::split(none, '\n') =~= seq![none]);
    assert(seq![line] + seq![none] =~= seq![line, none]);
}

proof fn lemma_issue_parts(issues: Seq<PermissionModel>)
    requires
        forall|i: int|
            0 <= i < issues.len() ==> known_issue(#[trigger] issues[i]) && fits_a_line(
                issues[i].path,
            ),
    ensures
        text::split(issue_text(issues), '\n') == issues.map_values(
            |e: PermissionModel| events::permission_line_of(e),
        ).push(Seq::<char>::empty()),
    decreases issues.len(),
{
    let f = |e: PermissionModel| events::permission_line_of(e);
    let none = Seq::<char>::empty();
    if issues.len() == 0 {
        text::lemma_find(none, '\n');
        assert(issue_text(issues) == none);
        assert(text::split(none, '\n') =~= issues.map_values(f).push(none));
    } else {
        let head = issues.drop_last();
        let e = issues.last();
        assert forall|i: int| 0 <= i < head.len() implies known_issue(#[trigger] head[i])
            && fits_a_line(head[i].path) by {
            assert(head[i] == issues[i]);
        }
        assert(e == issues[issues.len() - 1]);
        lemma_issue_parts(head);
        lemma_issue_line(e);
        let line = events::permission_line_of(e) + seq!['\n'];
        assert(issue_text(issues) =~= issue_text(head) + line);
        lemma_split_append(issue_text(head), line, '\n');
        assert(head.map_values(f).push(none).drop_last() =~= head.map_values(f));
        assert(text::split(issue_text(issues), '\n') =~= issues.map_values(f).push(none));
    }
}

/// The file of what a walker could not read gives it back, where no path breaks
/// its line.
pub proof fn law_walked_issues_read_back(w: Walker)
    requires
        w.wf(),
        forall|i: int| 0 <= i < w@.issues.len() ==> fits_a_line((#[trigger] w@.issues[i]).path),
    ensures
        events::permissions_of(issue_text(w@.issues)) == w@.issues,
{
    let issues = w@.issues;
    w.lemma_wf();
    assert forall|i: int| 0 <= i < issues.len() implies known_issue(#[trigger] issues[i])
        && fits_a_line(issues[i].path) by {
    }
    lemma_issue_parts(issues);
    let g = |e: PermissionModel| events::permission_line_of(e);
    let f = |l: Seq<char>| events::permission_of_line(l);
    let ls = issues.map_values(g);
    assert(text::lines(issue_text(issues)) =~= ls) by {
        assert forall|i: int| 0 <= i < ls.len() implies text::strip_cr(#[trigger] ls[i])
            == ls[i] by {
            assert(known_issue(issues[i]));
            lemma_issue_line(issues[i]);
        }
    }
    lemma_lines_read(issues);
}

proof fn lemma_lines_read(issues: Seq<PermissionModel>)
    requires
        forall|i: int| 0 <= i < issues.len() ==> known_issue(#[trigger] issues[i]),
    ensures
        issues.map_values(|e: PermissionModel| events::permission_line_of(e)).filter_map(
            |l: Seq<char>| events::permission_of_line(l),
        ) == issues,
    decreases issues.len(),
{
    let g = |e: PermissionModel| events::permission_line_of(e);
    let f = |l: Seq<char>| events::permission_of_line(l);
    let ls = issues.map_values(g);
    reveal(Seq::filter_map);
    if issues.len() == 0 {
        assert(ls.filter_map(f) =~= issues);
    } else {
        let head = issues.drop_last();
        let e = issues.last();
        assert forall|i: int| 0 <= i < head.len() implies known_issue(#[trigger] head[i]) by {
            assert(head[i] == issues[i]);
        }
        lemma_lines_read(head);
        assert(known_issue(issues[issues.len() - 1]));
        lemma_known_issue(e);
        events::law_read_of_written_permission(e);
        assert(ls.drop_last() =~= head.map_values(g));
        assert(ls.last() == g(e));
        assert(head + seq![e] =~= issues);
    }
}

/// The file of directory owners that a walker leaves gives back the owners.
pub proof fn law_walked_owners_read_back(w: Walker)
    requires
        w.wf(),
    ensures
        events::dir_owners_of(events::dir_owner_magic() + events::dir_owner_body(w@.owners))
            == w@.owners,
{
    w.lemma_wf();
    events::law_read_of_written_dir_owners(w@.owners);
}

/// What a walker counts for a directory is what the records it wrote amount to when they
/// are read again, where their paths are plain.
pub proof fn law_walkers_count_what_is_read(evs: Seq<ScanModel>, dir: Seq<char>, uid: u32)
    requires
        forall|i: int|
            0 <= i < evs.len() ==> paths::clean_path((#[trigger] evs[i]).path) == evs[i].path,
    ensures
        bytes_in(evs, dir, uid) == ingest::dir_bytes(evs, dir, uid),
        records_in(evs, dir) > 0 <==> ingest::holds_file(evs, dir),
    decreases evs.len(),
{
    if evs.len() > 0 {
        let rest = evs.drop_last();
        let n = evs.len() - 1;
        assert forall|i: int| 0 <= i < rest.len() implies paths::clean_path(
            (#[trigger] rest[i]).path,
        ) == rest[i].path by {
            assert(rest[i] == evs[i]);
        }
        law_walkers_count_what_is_read(rest, dir, uid);
        lemma_counts(rest, dir, uid as i64);
        assert(evs[n] == evs.last());
        if ingest::holds_file(rest, dir) {
            let k = choose|k: int|
                0 <= k < rest.len() && ingest::dir_of(#[trigger] rest[k]) == Some(dir);
            assert(evs[k] == rest[k]);
        }
        if ingest::holds_file(evs, dir) {
            let k = choose|k: int|
                0 <= k < evs.len() && ingest::dir_of(#[trigger] evs[k]) == Some(dir);
            if k < n {
                assert(rest[k] == evs[k]);
            }
        }
    }
}

/// All records of one user: all bytes and all files are the user's, and nobody else has
/// any.
pub proof fn law_records_of_one_user(evs: Seq<ScanModel>, uid: u32, other: i64)
    requires
        forall|i: int| 0 <= i < evs.len() ==> (#[trigger] evs[i]).uid == uid,
        other != uid,
    ensures
        user_bytes(evs, uid as i64) == ingest::all_bytes(evs),
        user_files(evs, uid as i64) == evs.len(),
        user_bytes(evs, other) == 0,
        user_files(evs, other) == 0,
    decreases evs.len(),
{
    if evs.len() > 0 {
        let rest = evs.drop_last();
        assert forall|i: int| 0 <= i < rest.len() implies #[trigger] rest[i] == evs[i] by {}
        law_records_of_one_user(rest, uid, other);
        assert(evs[evs.len() - 1].uid == uid);
    }
}

/// How records are spread over walkers does not matter.
pub proof fn law_records_may_be_shared_out(a: Seq<ScanModel>, b: Seq<ScanModel>, uid: i64)
    ensures
        user_bytes(a + b, uid) == user_bytes(a, uid) + user_bytes(b, uid),
        user_files(a + b, uid) == user_files(a, uid) + user_files(b, uid),
    decreases b.len(),
{
    if b.len() == 0 {
        assert(a + b =~= a);
    } else {
        law_records_may_be_shared_out(a, b.drop_last(), uid);
        assert((a + b).drop_last() =~= a + b.drop_last());
    }
}

} // verus!
