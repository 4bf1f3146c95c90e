//! The decisions of the walk: what is skipped, what is counted, and for whom.

use crate::events::PermissionEvent;
use crate::events::ScanEvent;
use crate::events::ScanModel;
use crate::ingest::DirSizes;
use crate::mounts::MountSkips;
use crate::mounts;
use crate::paths;
use crate::spill;
use crate::tally::DirTally;
use crate::tally::Tally;
use crate::tally;
use crate::text;
use dashmap::DashSet;
use vstd::prelude::*;
use vstd::slice::slice_subrange;
use vstd::string::*;

verus! {

/// The number of buffered events at which they are written.
pub const SCAN_EVENT_FLUSH_THRESHOLD: usize = 250_000;

/// The number of buffered bytes at which the events are written: 32 MiB.
pub const SCAN_EVENT_FLUSH_BYTES_THRESHOLD: usize = 33_554_432;

/// Whether a directory's name keeps the walk out of it.
pub open spec fn critical_name(name: Seq<char>) -> bool {
    ||| name == ".snapshot"@
    ||| name == ".snapshots"@
    ||| name == ".zfs"@
    ||| name == "proc"@
    ||| name == "sys"@
    ||| name == "dev"@
    ||| name == ".nfs"@
}

fn is_critical(name: &str) -> (r: bool)
    ensures
        r == critical_name(name@),
{
    text::str_eq(name, ".snapshot") || text::str_eq(name, ".snapshots") || text::str_eq(name, ".zfs") || text::str_eq(
        name,
        "proc",
    ) || text::str_eq(name, "sys") || text::str_eq(name, "dev") || text::str_eq(name, ".nfs")
}

/// The number of walker threads: what is asked for, else four for each
/// processor but at least 4 and at most 64.
pub open spec fn thread_count(cpus: usize, max_workers: Option<usize>) -> int {
    match max_workers {
        Some(n) => if n == 0 {
            1
        } else {
            n as int
        },
        None => if cpus * 4 < 4 {
            4
        } else if cpus * 4 > 64 {
            64
        } else {
            cpus * 4
        },
    }
}

/// The number of walker threads: what is asked for, else four for each
/// processor but at least 4 and at most 64.
pub fn walker_threads(cpus: usize, max_workers: Option<usize>) -> (r: usize)
    ensures
        r == thread_count(cpus, max_workers),
        max_workers matches Some(n) ==> r == (if n == 0 {
            1
        } else {
            n
        }),
        max_workers is None ==> r == (if cpus * 4 < 4 {
            4
        } else if cpus * 4 > 64 {
            64
        } else {
            cpus * 4
        }),
{
    match max_workers {
        Some(n) => if n == 0 {
            1
        } else {
            n
        },
        None => if cpus >= 16 {
            64
        } else if cpus < 1 {
            4
        } else {
            cpus * 4
        },
    }
}

// ---------------------------------------------------------------------------
// Errors
// ---------------------------------------------------------------------------

/// The code of an error that its text speaks of.
pub open spec fn error_code(msg: Seq<char>) -> Seq<char> {
    if text::has_sub(msg, "os error 13"@) || text::has_sub(msg, "Permission denied"@) || text::has_sub(
        msg,
        "permission denied"@,
    ) {
        "EACCES"@
    } else if text::has_sub(msg, "os error 2"@) || text::has_sub(msg, "No such file"@) || text::has_sub(
        msg,
        "no such file"@,
    ) {
        "ENOENT"@
    } else if text::has_sub(msg, "os error 5"@) {
        "EIO"@
    } else {
        "EOTHER"@
    }
}

fn mentions(msg: &[char], what: &str) -> (r: bool)
    ensures
        r == text::has_sub(msg@, what@),
{
    let w = text::to_chars(what);
    match text::find_chars(msg, &w) {
        Some(_) => true,
        None => false,
    }
}

/// The code of an error that its text speaks of.
pub fn error_code_from_message(msg: &str) -> (r: &'static str)
    ensures
        r@ == error_code(msg@),
{
    let m = text::to_chars(msg);
    if mentions(&m, "os error 13") || mentions(&m, "Permission denied") || mentions(
        &m,
        "permission denied",
    ) {
        "EACCES"
    } else if mentions(&m, "os error 2") || mentions(&m, "No such file") || mentions(
        &m,
        "no such file",
    ) {
        "ENOENT"
    } else if mentions(&m, "os error 5") {
        "EIO"
    } else {
        "EOTHER"
    }
}

/// The path that an error of the walk names: what stands before the first
/// colon and blank; empty where there is none.
pub open spec fn error_path(msg: Seq<char>) -> Seq<char> {
    if text::has_sub(msg, ": "@) {
        msg.take(text::find_sub(msg, ": "@))
    } else {
        Seq::empty()
    }
}

/// The permission issue of an entry that the walk could not read.
pub fn walk_error(msg: &str) -> (r: PermissionEvent)
    ensures
        r.uid == 0,
        r.kind@ == "directory"@,
        r.errcode@ == error_code(msg@),
        r.path@ == error_path(msg@),
{
    let m = text::to_chars(msg);
    let sep = text::to_chars(": ");
    let path = match text::find_chars(&m, &sep) {
        Some(i) => {
            let head = slice_subrange(m.as_slice(), 0, i);
            proof {
                assert(head@ =~= m@.take(i as int));
            }
            text::from_chars(head)
        },
        None => String::new(),
    };
    PermissionEvent {
        uid: 0,
        kind: "directory".to_owned(),
        errcode: error_code_from_message(msg).to_owned(),
        path,
    }
}

// ---------------------------------------------------------------------------
// Identity of inodes
// ---------------------------------------------------------------------------

/// What `statx` gives of an inode: its number and, where the kernel knows it,
/// the id of its mount.
#[derive(Clone, Copy, PartialEq, Eq, Structural, Debug)]
pub struct StatxId {
    pub ino: u64,
    pub mnt_id: Option<u64>,
}

/// What identifies an inode: its number and its device, or on NFS, where the
/// device is not stable, its number and its mount.
pub open spec fn inode_key(
    statx: Option<StatxId>,
    ino: u64,
    dev: u64,
    use_statx: bool,
) -> (u64, u64) {
    if !use_statx {
        (ino, dev)
    } else {
        match statx {
            None => (ino, dev),
            Some(s) => (
                s.ino,
                match s.mnt_id {
                    Some(m) => m,
                    None => dev,
                },
            ),
        }
    }
}

/// What identifies an inode. `statx` is what the call gave, if it was made and
/// did not fail.
pub fn hardlink_key(statx: Option<StatxId>, ino: u64, dev: u64, use_statx: bool) -> (r: (u64, u64))
    ensures
        r == inode_key(statx, ino, dev, use_statx),
{
    if !use_statx {
        return (ino, dev);
    }
    match statx {
        None => (ino, dev),
        Some(s) => {
            let mnt: u64 = match s.mnt_id {
                Some(m) => m,
                None => dev,
            };
            (s.ino, mnt)
        },
    }
}

/// The concurrent set of `dashmap`.
#[verifier::external_type_specification]
#[verifier::external_body]
#[verifier::reject_recursive_types(K)]
#[verifier::reject_recursive_types(S)]
pub struct ExDashSet<K, S>(DashSet<K, S>);

/// What a `DashSet` of pairs holds.
pub uninterp spec fn pair_set(s: DashSet<(u64, u64)>) -> Set<(u64, u64)>;

/// `DashSet::new`: a set that holds nothing.
#[verifier::external_body]
fn pairs_new() -> (r: DashSet<(u64, u64)>)
    ensures
        pair_set(r).is_empty(),
{
    DashSet::new()
}

/// `DashSet::insert`: the set holds the pair from now on; true where it did not
/// before.
#[verifier::external_body]
fn pairs_insert(s: &mut DashSet<(u64, u64)>, key: (u64, u64)) -> (r: bool)
    ensures
        pair_set(*final(s)) == pair_set(*old(s)).insert(key),
        r == !pair_set(*old(s)).contains(key),
{
    s.insert(key)
}

/// The inodes that the walk has come by: directories, and files with more than
/// one name.
pub struct Seen {
    dirs: DashSet<(u64, u64)>,
    links: DashSet<(u64, u64)>,
}

impl Seen {
    /// The directories.
    pub closed spec fn dir_keys(&self) -> Set<(u64, u64)> {
        pair_set(self.dirs)
    }

    /// The files with more than one name.
    pub closed spec fn link_keys(&self) -> Set<(u64, u64)> {
        pair_set(self.links)
    }

    pub fn new() -> (r: Self)
        ensures
            r.dir_keys() == Set::<(u64, u64)>::empty(),
            r.link_keys() == Set::<(u64, u64)>::empty(),
    {
        let r = Seen { dirs: pairs_new(), links: pairs_new() };
        proof {
            assert(r.dir_keys() =~= Set::<(u64, u64)>::empty());
            assert(r.link_keys() =~= Set::<(u64, u64)>::empty());
        }
        r
    }

    /// Notes a directory; false where it was seen before.
    fn visit_dir(&mut self, key: (u64, u64)) -> (r: bool)
        ensures
            r == !old(self).dir_keys().contains(key),
            final(self).dir_keys() == old(self).dir_keys().insert(key),
            final(self).link_keys() == old(self).link_keys(),
    {
        pairs_insert(&mut self.dirs, key)
    }

    /// Notes a file with more than one name; false where it was seen before.
    fn visit_link(&mut self, key: (u64, u64)) -> (r: bool)
        ensures
            r == !old(self).link_keys().contains(key),
            final(self).link_keys() == old(self).link_keys().insert(key),
            final(self).dir_keys() == old(self).dir_keys(),
    {
        pairs_insert(&mut self.links, key)
    }
}

// ---------------------------------------------------------------------------
// Rules
// ---------------------------------------------------------------------------

/// What kind of entry the walk came to.
#[derive(Clone, Copy, PartialEq, Eq, Structural, Debug)]
pub enum EntryKind {
    Unknown,
    Symlink,
    Dir,
    File,
    Other,
}

/// What to do with an entry before anything is asked about it.
#[derive(Clone, Copy, PartialEq, Eq, Structural, Debug)]
pub enum EntryStep {
    /// Do not enter it, nor look at it.
    Skip,
    /// Go on without counting it.
    Ignore,
    /// Count its inode and go on.
    CountInode,
    /// Ask for a directory's metadata.
    StatDir,
    /// Ask for a file's metadata.
    StatFile,
}

/// What the system says of a directory.
pub struct DirMeta {
    pub dev: u64,
    pub ino: u64,
    pub uid: u32,
    /// What `statx` gave, where it was asked.
    pub statx: Option<StatxId>,
}

/// What to do with a directory.
#[derive(Clone, Copy, PartialEq, Eq, Structural, Debug)]
pub enum DirStep {
    /// Do not enter it.
    Skip,
    /// Count it, with its owner where that is known.
    Count { owner: Option<u32> },
}

/// What one `statx` call gives of a file.
#[derive(Clone, Copy, PartialEq, Eq, Structural, Debug)]
pub struct StatxLite {
    pub ino: u64,
    pub mnt_id: u64,
    pub blocks: u64,
    pub uid: u32,
    pub nlink: u64,
}

/// What the system says of a file.
pub struct FileMeta {
    pub dev: u64,
    pub ino: u64,
    pub blocks: u64,
    pub uid: u32,
    pub nlink: u64,
    /// What `statx` gave, where it was asked.
    pub statx: Option<StatxId>,
}

/// What to do with a file.
#[derive(Clone, Copy, PartialEq, Eq, Structural, Debug)]
pub enum FileStep {
    /// Its metadata could not be read: a permission issue.
    Issue,
    /// It is on another filesystem than the root.
    Foreign,
    /// It was counted under another name.
    Duplicate,
    /// Count its bytes for its user; `target` says whether the scan reports on
    /// that user.
    Count { uid: u32, size: u64, target: bool },
}

/// What a walk goes by.
pub struct WalkRules {
    /// Directories that are not entered.
    pub skip_dirs: Vec<String>,
    /// Mounts that are not entered.
    pub mounts: MountSkips,
    /// Whether inodes are identified by their mount.
    pub use_statx: bool,
    /// The device of the root.
    pub root_dev: Option<u64>,
    /// The mount of the root.
    pub root_mnt_id: Option<u64>,
    /// The users that the scan reports on; all where there is no list.
    pub target_uids: Option<Vec<u32>>,
}

/// The file that `FileStep` speaks of: its bytes, its user, the number of its
/// names and what identifies it.
#[verifier::ext_equal]
pub struct FileFacts {
    pub blocks: u64,
    pub uid: u32,
    pub nlink: u64,
    pub key: (u64, u64),
}

/// What is known of a file: from `statx` where that is used and gave all, else
/// from its metadata.
pub open spec fn file_facts(
    use_statx: bool,
    lite: Option<StatxLite>,
    meta: Option<FileMeta>,
) -> Option<FileFacts> {
    if use_statx && lite is Some {
        let s = lite->0;
        Some(FileFacts { blocks: s.blocks, uid: s.uid, nlink: s.nlink, key: (s.ino, s.mnt_id) })
    } else {
        match meta {
            None => None,
            Some(m) => Some(
                FileFacts {
                    blocks: m.blocks,
                    uid: m.uid,
                    nlink: m.nlink,
                    key: inode_key(m.statx, m.ino, m.dev, use_statx),
                },
            ),
        }
    }
}

fn lists_uid(v: &Vec<u32>, uid: u32) -> (r: bool)
    ensures
        r == v@.contains(uid),
{
    let mut i: usize = 0;
    while i < v.len()
        invariant
            i <= v@.len(),
            forall|k: int| 0 <= k < i ==> #[trigger] v@[k] != uid,
        decreases v@.len() - i,
    {
        if v[i] == uid {
            proof {
                assert(v@[i as int] == uid);
            }
            return true;
        }
        i = i + 1;
    }
    false
}

impl WalkRules {
    /// Whether a path is one of the skipped directories or below one.
    pub open spec fn in_skip_dirs(&self, path: Seq<char>) -> bool {
        exists|i: int| 0 <= i < self.skip_dirs@.len() && paths::path_below(
            path,
            (#[trigger] self.skip_dirs@[i])@,
        )
    }

    /// Whether an inode that is identified by `key` is on another filesystem
    /// than the root.
    pub open spec fn foreign(&self, key: (u64, u64), dev: u64) -> bool {
        if self.use_statx {
            self.root_mnt_id matches Some(m) && key.1 != m
        } else {
            self.root_dev matches Some(d) && dev != d
        }
    }

    /// Whether the scan reports on a user.
    pub open spec fn is_target(&self, uid: u32) -> bool {
        match self.target_uids {
            Some(v) => v@.contains(uid),
            None => true,
        }
    }

    fn skips(&self, path: &str) -> (r: bool)
        ensures
            r == self.in_skip_dirs(path@),
    {
        let mut i: usize = 0;
        while i < self.skip_dirs.len()
            invariant
                i <= self.skip_dirs@.len(),
                forall|k: int|
                    0 <= k < i ==> !paths::path_below(path@, (#[trigger] self.skip_dirs@[k])@),
            decreases self.skip_dirs@.len() - i,
        {
            if paths::path_starts_with(path, self.skip_dirs[i].as_str()) {
                return true;
            }
            i = i + 1;
        }
        false
    }

    fn targets(&self, uid: u32) -> (r: bool)
        ensures
            r == self.is_target(uid),
    {
        match &self.target_uids {
            None => true,
            Some(v) => lists_uid(v, uid),
        }
    }

    /// What is done with an entry before anything is asked about it.
    pub open spec fn entry_outcome(
        &self,
        path: Seq<char>,
        exact: bool,
        kind: EntryKind,
    ) -> EntryStep {
        if self.in_skip_dirs(path) || (exact && self.mounts.children@.contains(path)) {
            EntryStep::Skip
        } else {
            match kind {
                EntryKind::Unknown => EntryStep::Ignore,
                EntryKind::Symlink => EntryStep::CountInode,
                EntryKind::Dir => if (paths::file_name(path) matches Some(n) && critical_name(n)) {
                    EntryStep::Skip
                } else {
                    EntryStep::StatDir
                },
                EntryKind::File => EntryStep::StatFile,
                EntryKind::Other => EntryStep::Ignore,
            }
        }
    }

    /// What to do with an entry before anything is asked about it. `exact` says
    /// whether the path's bytes are text; a path that is not is no mount point
    /// that the rules know.
    pub fn entry_step(&self, path: &str, exact: bool, kind: EntryKind) -> (r: EntryStep)
        ensures
            r == self.entry_outcome(path@, exact, kind),
    {
        if self.skips(path) {
            return EntryStep::Skip;
        }
        if exact && self.mounts.children.contains(path) {
            return EntryStep::Skip;
        }
        match kind {
            EntryKind::Unknown => EntryStep::Ignore,
            EntryKind::Symlink => EntryStep::CountInode,
            EntryKind::Dir => {
                let p = text::to_chars(path);
                match paths::file_name_chars(&p) {
                    Some(n) => {
                        let name = text::from_chars(&n);
                        if is_critical(name.as_str()) {
                            EntryStep::Skip
                        } else {
                            EntryStep::StatDir
                        }
                    },
                    None => EntryStep::StatDir,
                }
            },
            EntryKind::File => EntryStep::StatFile,
            EntryKind::Other => EntryStep::Ignore,
        }
    }

    /// Whether a directory is kept out before it is asked whether it was seen.
    pub open spec fn dir_barred(&self, path: Seq<char>, exact: bool, m: DirMeta) -> bool {
        ||| self.mounts.binds@.contains((m.dev, m.ino))
        ||| exact && self.mounts.kernfs@.contains(path)
        ||| self.foreign(inode_key(m.statx, m.ino, m.dev, true), m.dev)
    }

    /// What becomes of a directory where those of `seen` were entered before, and
    /// what has been entered then. One whose metadata could not be read is counted,
    /// with no owner.
    pub open spec fn dir_outcome(
        &self,
        seen: Set<(u64, u64)>,
        path: Seq<char>,
        exact: bool,
        meta: Option<DirMeta>,
    ) -> (Set<(u64, u64)>, DirStep) {
        match meta {
            None => (seen, DirStep::Count { owner: None }),
            Some(m) => {
                let key = inode_key(m.statx, m.ino, m.dev, self.use_statx);
                if self.dir_barred(path, exact, m) {
                    (seen, DirStep::Skip)
                } else if seen.contains(key) {
                    (seen, DirStep::Skip)
                } else {
                    (seen.insert(key), DirStep::Count { owner: Some(m.uid) })
                }
            },
        }
    }

    /// What becomes of a file where the inodes of `seen`, which have more than one
    /// name, were counted before, and what has been counted then.
    pub open spec fn file_outcome(&self, seen: Set<(u64, u64)>, f: Option<FileFacts>) -> (
        Set<(u64, u64)>,
        FileStep,
    ) {
        match f {
            None => (seen, FileStep::Issue),
            Some(f) => if self.foreign(f.key, f.key.1) {
                (seen, FileStep::Foreign)
            } else if f.nlink > 1 && seen.contains(f.key) {
                (seen, FileStep::Duplicate)
            } else {
                (
                    if f.nlink > 1 {
                        seen.insert(f.key)
                    } else {
                        seen
                    },
                    FileStep::Count {
                        uid: f.uid,
                        size: (f.blocks * 512) as u64,
                        target: self.is_target(f.uid),
                    },
                )
            },
        }
    }

    /// What to do with a directory, whose metadata may not have been readable.
    /// One that was seen before, under whatever path, is not entered again.
    pub fn dir_step(&self, seen: &mut Seen, path: &str, exact: bool, meta: Option<DirMeta>) -> (r:
        DirStep)
        ensures
            final(seen).link_keys() == old(seen).link_keys(),
            (final(seen).dir_keys(), r) == self.dir_outcome(
                old(seen).dir_keys(),
                path@,
                exact,
                meta,
            ),
    {
        match meta {
            None => DirStep::Count { owner: None },
            Some(m) => {
                if mounts::has_pair(&self.mounts.binds, (m.dev, m.ino)) {
                    return DirStep::Skip;
                }
                if exact && self.mounts.kernfs.contains(path) {
                    return DirStep::Skip;
                }
                if self.use_statx {
                    match self.root_mnt_id {
                        Some(root) => {
                            let k = hardlink_key(m.statx, m.ino, m.dev, true);
                            if k.1 != root {
                                return DirStep::Skip;
                            }
                        },
                        None => {},
                    }
                } else {
                    match self.root_dev {
                        Some(root) => {
                            if m.dev != root {
                                return DirStep::Skip;
                            }
                        },
                        None => {},
                    }
                }
                let key = hardlink_key(m.statx, m.ino, m.dev, self.use_statx);
                if !seen.visit_dir(key) {
                    return DirStep::Skip;
                }
                DirStep::Count { owner: Some(m.uid) }
            },
        }
    }

    /// What to do with a file. `lite` is what one `statx` call gave, `meta` what
    /// its metadata say; at least one of them is asked for.
    pub fn file_step(
        &self,
        seen: &mut Seen,
        lite: Option<StatxLite>,
        meta: Option<FileMeta>,
    ) -> (r: FileStep)
        requires
            file_facts(self.use_statx, lite, meta) matches Some(f) ==> f.blocks * 512 <= u64::MAX,
        ensures
            final(seen).dir_keys() == old(seen).dir_keys(),
            (final(seen).link_keys(), r) == self.file_outcome(
                old(seen).link_keys(),
                file_facts(self.use_statx, lite, meta),
            ),
    {
        let mut blocks: u64 = 0;
        let mut uid: u32 = 0;
        let mut nlink: u64 = 0;
        let mut key: (u64, u64) = (0, 0);
        let mut known: bool = false;
        if self.use_statx {
            match lite {
                Some(s) => {
                    blocks = s.blocks;
                    uid = s.uid;
                    nlink = s.nlink;
                    key = (s.ino, s.mnt_id);
                    known = true;
                },
                None => {},
            }
        }
        if !known {
            match meta {
                Some(m) => {
                    blocks = m.blocks;
                    uid = m.uid;
                    nlink = m.nlink;
                    key = hardlink_key(m.statx, m.ino, m.dev, self.use_statx);
                },
                None => {
                    return FileStep::Issue;
                },
            }
        }
        let ghost f = file_facts(self.use_statx, lite, meta)->0;
        proof {
            assert(file_facts(self.use_statx, lite, meta) is Some);
            assert(f =~= (FileFacts { blocks, uid, nlink, key }));
        }
        if self.use_statx {
            match self.root_mnt_id {
                Some(root) => {
                    if key.1 != root {
                        return FileStep::Foreign;
                    }
                },
                None => {},
            }
        } else {
            match self.root_dev {
                Some(root) => {
                    if key.1 != root {
                        return FileStep::Foreign;
                    }
                },
                None => {},
            }
        }
        if nlink > 1 {
            if !seen.visit_link(key) {
                return FileStep::Duplicate;
            }
        }
        FileStep::Count { uid, size: blocks * 512, target: self.targets(uid) }
    }
}

// ---------------------------------------------------------------------------
// Totals
// ---------------------------------------------------------------------------

/// What a walk adds up to.
pub struct WalkStats {
    pub files: u64,
    pub dirs: u64,
    pub inodes: u64,
    pub size: i64,
    pub permission_issues: u64,
    /// Bytes and files by user.
    pub by_uid: DirTally,
    /// Bytes by directory and user.
    pub dir_sizes: DirSizes,
}

/// `b` is `a` once a file was counted. One of a user that the scan reports on counts
/// for the user and for its directory too.
pub open spec fn file_counted(
    a: WalkStats,
    b: WalkStats,
    path: Seq<char>,
    uid: u32,
    size: u64,
    target: bool,
) -> bool {
    &&& b.files == a.files + 1
    &&& b.inodes == a.inodes + 1
    &&& b.dirs == a.dirs
    &&& b.size == a.size + size
    &&& b.permission_issues == a.permission_issues
    &&& !target ==> b.by_uid == a.by_uid && b.dir_sizes == a.dir_sizes
    &&& target ==> {
        &&& b.by_uid.size_sum() == a.by_uid.size_sum() + size
        &&& b.by_uid.file_sum() == a.by_uid.file_sum() + 1
        &&& forall|u: i64| #[trigger]
            b.by_uid.size_at(0, u) == a.by_uid.size_at(0, u) + (if u == uid as i64 {
                size as int
            } else {
                0
            })
        &&& forall|u: i64| #[trigger]
            b.by_uid.files_at(0, u) == a.by_uid.files_at(0, u) + (if u == uid as i64 {
                1int
            } else {
                0
            })
        &&& forall|u: i64| #[trigger]
            tally::has_uid(b.by_uid@[0]@, u) <==> tally::has_uid(a.by_uid@[0]@, u) || u
                == uid as i64
        &&& forall|d: Seq<char>, u: u32| #[trigger]
            b.dir_sizes.size_at(d, u) == a.dir_sizes.size_at(d, u) + (if u == uid
                && paths::named_parent(path) == Some(d) {
                size as int
            } else {
                0
            })
        &&& b.dir_sizes.dir_names() == (match paths::named_parent(path) {
            Some(d) => spill::with_name(a.dir_sizes.dir_names(), d),
            None => a.dir_sizes.dir_names(),
        })
    }
}

impl WalkStats {
    /// The users' files and bytes add up to the totals.
    pub open spec fn adds_up(&self) -> bool {
        &&& tally::sizes_sum(self.by_uid@[0]@) == self.size
        &&& tally::files_sum(self.by_uid@[0]@) == self.files
    }

    /// What the users' sums are sums of.
    pub proof fn lemma_sums(&self)
        requires
            self.wf(),
        ensures
            self.by_uid.size_sum() == tally::sizes_sum(self.by_uid@[0]@),
            self.by_uid.file_sum() == tally::files_sum(self.by_uid@[0]@),
    {
        let v = self.by_uid@;
        self.by_uid.lemma_wf();
        assert(v.drop_last() =~= Seq::<Vec<Tally>>::empty());
        assert(tally::all_sizes(Seq::<Vec<Tally>>::empty()) == 0);
        assert(tally::all_files(Seq::<Vec<Tally>>::empty()) == 0);
        assert(v.last() == v[0]);
    }

    pub open spec fn wf(&self) -> bool {
        &&& self.by_uid.wf()
        &&& self.by_uid@.len() == 1
        &&& self.dir_sizes.wf()
        &&& self.size >= 0
        &&& self.by_uid.size_sum() <= self.size
        &&& self.by_uid.file_sum() <= self.files
        &&& self.dir_sizes.sum() <= self.size
    }

    pub fn new() -> (r: Self)
        ensures
            r.wf(),
            r.files == 0,
            r.dirs == 0,
            r.inodes == 0,
            r.size == 0,
            r.permission_issues == 0,
            r.adds_up(),
            r.by_uid.size_sum() == 0,
            r.by_uid.file_sum() == 0,
            r.dir_sizes.sum() == 0,
            r.by_uid@[0]@ == Seq::<Tally>::empty(),
            r.dir_sizes.dir_names() == Seq::<Seq<char>>::empty(),
    {
        WalkStats {
            files: 0,
            dirs: 0,
            inodes: 0,
            size: 0,
            permission_issues: 0,
            by_uid: DirTally::new(1),
            dir_sizes: DirSizes::new(),
        }
    }

    /// Whether another entry of `size` bytes can be counted.
    pub fn has_room(&self, size: u64) -> (r: bool)
        requires
            self.wf(),
        ensures
            r == (self.files < i64::MAX && self.dirs < u64::MAX && self.inodes < u64::MAX
                && self.size + size <= i64::MAX),
    {
        self.files < i64::MAX as u64 && self.dirs < u64::MAX && self.inodes < u64::MAX && size
            <= (i64::MAX - self.size) as u64
    }

    /// Counts an inode that is neither a file nor a directory.
    pub fn count_inode(&mut self)
        requires
            old(self).inodes < u64::MAX,
        ensures
            *final(self) == (WalkStats { inodes: (old(self).inodes + 1) as u64, ..*old(self) }),
    {
        self.inodes = self.inodes + 1;
    }

    /// Counts a directory.
    pub fn count_dir(&mut self)
        requires
            old(self).inodes < u64::MAX,
            old(self).dirs < u64::MAX,
        ensures
            *final(self) == (WalkStats {
                inodes: (old(self).inodes + 1) as u64,
                dirs: (old(self).dirs + 1) as u64,
                ..*old(self)
            }),
    {
        self.inodes = self.inodes + 1;
        self.dirs = self.dirs + 1;
    }

    /// Counts a permission issue.
    pub fn count_issue(&mut self)
        requires
            old(self).permission_issues < u64::MAX,
        ensures
            *final(self) == (WalkStats {
                permission_issues: (old(self).permission_issues + 1) as u64,
                ..*old(self)
            }),
    {
        self.permission_issues = self.permission_issues + 1;
    }

    /// Counts a file. One of a user that the scan reports on counts for the
    /// user and for its directory, and gives an event to be written.
    pub fn count_file(&mut self, path: &str, uid: u32, size: u64, target: bool) -> (r: Option<
        ScanEvent,
    >)
        requires
            old(self).wf(),
            old(self).files < i64::MAX,
            old(self).inodes < u64::MAX,
            old(self).size + size <= i64::MAX,
        ensures
            final(self).wf(),
            file_counted(*old(self), *final(self), path@, uid, size, target),
            r is Some <==> target,
            r matches Some(e) ==> e@ == (ScanModel { uid, size, path: path@ }),
    {
        proof {
            self.by_uid.lemma_wf();
            self.dir_sizes.lemma_wf();
        }
        self.files = self.files + 1;
        self.inodes = self.inodes + 1;
        self.size = self.size + size as i64;
        if !target {
            return None;
        }
        self.by_uid.add(0, uid as i64, size as i64, 1);
        match paths::parent_path(path) {
            Some(dir) => {
                self.dir_sizes.add(dir.as_str(), uid, size as i64);
            },
            None => {},
        }
        Some(ScanEvent { uid, size, path: path.to_owned() })
    }

    /// Whether what another walker counted can be added.
    pub fn can_merge(&self, other: &WalkStats) -> (r: bool)
        requires
            self.wf(),
            other.wf(),
        ensures
            r == (self.files + other.files <= i64::MAX && self.dirs + other.dirs <= u64::MAX
                && self.inodes + other.inodes <= u64::MAX && self.permission_issues
                + other.permission_issues <= u64::MAX && self.size + other.size <= i64::MAX),
    {
        let top: u64 = i64::MAX as u64;
        self.files <= top && other.files <= top - self.files && other.dirs <= u64::MAX - self.dirs
            && other.inodes <= u64::MAX - self.inodes && other.permission_issues <= u64::MAX
            - self.permission_issues && other.size <= i64::MAX - self.size
    }

    /// Adds what another walker counted.
    pub fn merge(&mut self, other: &WalkStats)
        requires
            old(self).wf(),
            other.wf(),
            old(self).files + other.files <= i64::MAX,
            old(self).dirs + other.dirs <= u64::MAX,
            old(self).inodes + other.inodes <= u64::MAX,
            old(self).permission_issues + other.permission_issues <= u64::MAX,
            old(self).size + other.size <= i64::MAX,
        ensures
            final(self).wf(),
            final(self).files == old(self).files + other.files,
            final(self).dirs == old(self).dirs + other.dirs,
            final(self).inodes == old(self).inodes + other.inodes,
            final(self).size == old(self).size + other.size,
            final(self).permission_issues == old(self).permission_issues + other.permission_issues,
            old(self).adds_up() && other.adds_up() ==> final(self).adds_up(),
            forall|u: i64| #[trigger]
                final(self).by_uid.size_at(0, u) == old(self).by_uid.size_at(0, u)
                    + other.by_uid.size_at(0, u),
            forall|u: i64| #[trigger]
                final(self).by_uid.files_at(0, u) == old(self).by_uid.files_at(0, u)
                    + other.by_uid.files_at(0, u),
            forall|d: Seq<char>, u: u32| #[trigger]
                final(self).dir_sizes.size_at(d, u) == old(self).dir_sizes.size_at(d, u)
                    + other.dir_sizes.size_at(d, u),
            forall|u: i64| #[trigger]
                tally::has_uid(final(self).by_uid@[0]@, u) <==> tally::has_uid(
                    old(self).by_uid@[0]@,
                    u,
                ) || tally::has_uid(other.by_uid@[0]@, u),
            forall|d: Seq<char>| #[trigger]
                final(self).dir_sizes.dir_names().contains(d) <==> old(
                    self,
                ).dir_sizes.dir_names().contains(d) || other.dir_sizes.dir_names().contains(d),
    {
        self.files = self.files + other.files;
        self.dirs = self.dirs + other.dirs;
        self.inodes = self.inodes + other.inodes;
        self.size = self.size + other.size;
        self.permission_issues = self.permission_issues + other.permission_issues;
        self.dir_sizes.merge(&other.dir_sizes);
        let list = other.by_uid.list(0);
        let ghost l = list@;
        let ghost mid = self.by_uid;
        let ghost sizes = self.dir_sizes;
        proof {
            other.by_uid.lemma_wf();
            mid.lemma_wf();
            tally::lemma_all_bound(other.by_uid@, 0);
            assert(l.take(0) =~= Seq::<Tally>::empty());
        }
        let mut j: usize = 0;
        while j < list.len()
            invariant
                j <= l.len(),
                l == list@,
                tally::tallies_ok(l),
                mid.size_sum() + tally::sizes_sum(l) <= i64::MAX,
                mid.file_sum() + tally::files_sum(l) <= i64::MAX,
                self.files == old(self).files + other.files,
                self.dirs == old(self).dirs + other.dirs,
                self.inodes == old(self).inodes + other.inodes,
                self.size == old(self).size + other.size,
                self.permission_issues == old(self).permission_issues + other.permission_issues,
                self.dir_sizes == sizes,
                self.by_uid.wf(),
                self.by_uid@.len() == 1,
                self.by_uid.size_sum() == mid.size_sum() + tally::sizes_sum(l.take(j as int)),
                self.by_uid.file_sum() == mid.file_sum() + tally::files_sum(l.take(j as int)),
                forall|u: i64| #[trigger]
                    self.by_uid.size_at(0, u) == mid.size_at(0, u) + tally::tally_size(
                        l.take(j as int),
                        u,
                    ),
                forall|u: i64| #[trigger]
                    self.by_uid.files_at(0, u) == mid.files_at(0, u) + tally::tally_files(
                        l.take(j as int),
                        u,
                    ),
                forall|u: i64| #[trigger]
                    tally::has_uid(self.by_uid@[0]@, u) <==> tally::has_uid(mid@[0]@, u)
                        || tally::has_uid(l.take(j as int), u),
            decreases l.len() - j,
        {
            let t: Tally = list[j];
            let ghost before = self.by_uid;
            proof {
                tally::lemma_tally_prefix(l, j + 1);
                tally::lemma_tally_prefix(l, j as int);
                assert(l.take(j + 1).drop_last() =~= l.take(j as int));
                assert(l.take(j + 1).last() == t);
                assert(l[j as int].size >= 0 && l[j as int].files >= 0);
            }
            self.by_uid.add(0, t.uid, t.size, t.files);
            proof {
                assert forall|u: i64| #[trigger] self.by_uid.size_at(0, u) == mid.size_at(0, u)
                    + tally::tally_size(l.take(j + 1), u) by {
                    assert(before.size_at(0, u) == mid.size_at(0, u) + tally::tally_size(
                        l.take(j as int),
                        u,
                    ));
                }
                assert forall|u: i64| #[trigger] self.by_uid.files_at(0, u) == mid.files_at(0, u)
                    + tally::tally_files(l.take(j + 1), u) by {
                    assert(before.files_at(0, u) == mid.files_at(0, u) + tally::tally_files(
                        l.take(j as int),
                        u,
                    ));
                }
                assert forall|u: i64| #[trigger] tally::has_uid(self.by_uid@[0]@, u)
                    <==> tally::has_uid(mid@[0]@, u) || tally::has_uid(l.take(j + 1), u) by {
                    assert(tally::has_uid(before@[0]@, u) <==> tally::has_uid(mid@[0]@, u)
                        || tally::has_uid(l.take(j as int), u));
                    tally::lemma_one_more_uid(l, j as int, u);
                }
            }
            j = j + 1;
        }
        proof {
            assert(l.take(j as int) =~= l);
            let v = other.by_uid@;
            assert(v.drop_last() =~= Seq::<Vec<Tally>>::empty());
            assert(tally::all_sizes(Seq::<Vec<Tally>>::empty()) == 0);
            assert(tally::all_files(Seq::<Vec<Tally>>::empty()) == 0);
            assert(v.last() == v[0]);
            old(self).lemma_sums();
            self.lemma_sums();
        }
    }
}

/// Whether buffered events are to be written.
pub fn should_flush(records: usize, bytes: usize) -> (r: bool)
    ensures
        r == (records >= SCAN_EVENT_FLUSH_THRESHOLD || bytes >= SCAN_EVENT_FLUSH_BYTES_THRESHOLD),
{
    records >= SCAN_EVENT_FLUSH_THRESHOLD || bytes >= SCAN_EVENT_FLUSH_BYTES_THRESHOLD
}

// ---------------------------------------------------------------------------
// Laws
// ---------------------------------------------------------------------------

/// A directory as a walk comes by it.
pub struct DirSight {
    pub path: Seq<char>,
    pub exact: bool,
    pub meta: Option<DirMeta>,
}

/// The inodes with more than one name that were counted when a walk has come by
/// the first `n` files.
pub open spec fn links_after(rules: WalkRules, fs: Seq<Option<FileFacts>>, n: int) -> Set<
    (u64, u64),
>
    decreases n,
{
    if n <= 0 {
        Set::empty()
    } else {
        rules.file_outcome(links_after(rules, fs, n - 1), fs[n - 1]).0
    }
}

/// What becomes of the `i`-th file of a walk.
pub open spec fn file_at(rules: WalkRules, fs: Seq<Option<FileFacts>>, i: int) -> FileStep {
    rules.file_outcome(links_after(rules, fs, i), fs[i]).1
}

/// The directories that were entered when a walk has come by the first `n`.
pub open spec fn dirs_after(rules: WalkRules, ds: Seq<DirSight>, n: int) -> Set<(u64, u64)>
    decreases n,
{
    if n <= 0 {
        Set::empty()
    } else {
        let d = ds[n - 1];
        rules.dir_outcome(dirs_after(rules, ds, n - 1), d.path, d.exact, d.meta).0
    }
}

/// What becomes of the `i`-th directory of a walk.
pub open spec fn dir_at(rules: WalkRules, ds: Seq<DirSight>, i: int) -> DirStep {
    let d = ds[i];
    rules.dir_outcome(dirs_after(rules, ds, i), d.path, d.exact, d.meta).1
}

proof fn lemma_links_grow(rules: WalkRules, fs: Seq<Option<FileFacts>>, i: int, j: int)
    requires
        0 <= i <= j,
    ensures
        links_after(rules, fs, i).subset_of(links_after(rules, fs, j)),
    decreases j,
{
    if i < j {
        lemma_links_grow(rules, fs, i, j - 1);
    }
}

proof fn lemma_links_origin(
    rules: WalkRules,
    fs: Seq<Option<FileFacts>>,
    n: int,
    key: (u64, u64),
) -> (i: int)
    requires
        links_after(rules, fs, n).contains(key),
    ensures
        0 <= i < n,
        fs[i] matches Some(f) && f.key == key && f.nlink > 1,
    decreases n,
{
    if links_after(rules, fs, n - 1).contains(key) {
        lemma_links_origin(rules, fs, n - 1, key)
    } else {
        n - 1
    }
}

proof fn lemma_dirs_grow(rules: WalkRules, ds: Seq<DirSight>, i: int, j: int)
    requires
        0 <= i <= j,
    ensures
        dirs_after(rules, ds, i).subset_of(dirs_after(rules, ds, j)),
    decreases j,
{
    if i < j {
        lemma_dirs_grow(rules, ds, i, j - 1);
    }
}

/// However many names of a file a walk comes by, and in whatever order: its bytes
/// are counted for the first of them, and for no other.
pub proof fn law_hard_links_count_once(rules: WalkRules, fs: Seq<Option<FileFacts>>, i: int)
    requires
        0 <= i < fs.len(),
        fs[i] matches Some(f) && f.nlink > 1 && !rules.foreign(f.key, f.key.1),
    ensures
        file_at(rules, fs, i) is Count <==> forall|k: int|
            0 <= k < i ==> !((#[trigger] fs[k]) matches Some(g) && g.nlink > 1 && g.key
                == fs[i]->0.key),
        file_at(rules, fs, i) is Count || file_at(rules, fs, i) is Duplicate,
{
    let key = fs[i]->0.key;
    let seen = links_after(rules, fs, i);
    if seen.contains(key) {
        let k = lemma_links_origin(rules, fs, i, key);
        assert(fs[k] matches Some(g) && g.nlink > 1 && g.key == key);
    } else {
        assert forall|k: int| 0 <= k < i implies !((#[trigger] fs[k]) matches Some(g) && g.nlink
            > 1 && g.key == key) by {
            if fs[k] matches Some(g) && g.nlink > 1 && g.key == key {
                assert(links_after(rules, fs, k + 1).contains(key));
                lemma_links_grow(rules, fs, k + 1, i);
            }
        }
    }
}

/// A file with one name is counted whatever came before it, where it lies on the
/// root's file system.
pub proof fn law_single_names_count(rules: WalkRules, fs: Seq<Option<FileFacts>>, i: int)
    requires
        0 <= i < fs.len(),
        fs[i] matches Some(f) && f.nlink <= 1 && !rules.foreign(f.key, f.key.1),
    ensures
        file_at(rules, fs, i) == (FileStep::Count {
            uid: fs[i]->0.uid,
            size: (fs[i]->0.blocks * 512) as u64,
            target: rules.is_target(fs[i]->0.uid),
        }),
{
}

/// A file as a walk counts it.
pub ghost struct FileSight {
    pub path: Seq<char>,
    pub uid: u32,
    pub size: u64,
}

/// Where a scan reports on all users, the files and bytes of the users add up to
/// those of the walk, however many files it counts. `stats` are the totals before
/// the first file and after each.
pub proof fn law_users_add_up(rules: WalkRules, fs: Seq<FileSight>, stats: Seq<WalkStats>)
    requires
        rules.target_uids is None,
        stats.len() == fs.len() + 1,
        stats[0].adds_up(),
        forall|i: int| 0 <= i < stats.len() ==> (#[trigger] stats[i]).wf(),
        forall|i: int|
            0 <= i < fs.len() ==> file_counted(
                stats[i],
                stats[i + 1],
                (#[trigger] fs[i]).path,
                fs[i].uid,
                fs[i].size,
                rules.is_target(fs[i].uid),
            ),
    ensures
        stats.last().adds_up(),
    decreases fs.len(),
{
    if fs.len() > 0 {
        let n = fs.len() - 1;
        let head = fs.drop_last();
        let before = stats.drop_last();
        assert forall|i: int| 0 <= i < before.len() implies (#[trigger] before[i]).wf() by {
            assert(before[i] == stats[i]);
        }
        assert forall|i: int| 0 <= i < head.len() implies file_counted(
            before[i],
            before[i + 1],
            (#[trigger] head[i]).path,
            head[i].uid,
            head[i].size,
            rules.is_target(head[i].uid),
        ) by {
            assert(head[i] == fs[i]);
        }
        law_users_add_up(rules, head, before);
        assert(before.last() == stats[n]);
        assert(fs[n].uid == fs.last().uid);
        stats[n].lemma_sums();
        stats[n + 1].lemma_sums();
    }
}

/// A directory that is reached by two paths, as a bind mount makes it, is entered
/// by the first at most.
pub proof fn law_directories_are_entered_once(
    rules: WalkRules,
    ds: Seq<DirSight>,
    i: int,
    j: int,
)
    requires
        0 <= i < j < ds.len(),
        ds[i].meta is Some,
        ds[j].meta is Some,
        inode_key(ds[i].meta->0.statx, ds[i].meta->0.ino, ds[i].meta->0.dev, rules.use_statx)
            == inode_key(
            ds[j].meta->0.statx,
            ds[j].meta->0.ino,
            ds[j].meta->0.dev,
            rules.use_statx,
        ),
        dir_at(rules, ds, i) is Count,
    ensures
        dir_at(rules, ds, j) == DirStep::Skip,
{
    let m = ds[i].meta->0;
    let key = inode_key(m.statx, m.ino, m.dev, rules.use_statx);
    assert(dirs_after(rules, ds, i + 1).contains(key));
    lemma_dirs_grow(rules, ds, i + 1, j);
}

/// On NFS a directory is entered where its mount is the root's: by the number and the
/// mount that `statx` gave, the device standing for a mount that is not known, and the
/// plain number and device for a call that failed. It counts for its owner unless a bind
/// or kernel mount lies there or the same number and mount were entered before; one of
/// another mount is passed over, and nothing is noted of it.
pub proof fn law_network_directories(
    rules: WalkRules,
    before: Set<(u64, u64)>,
    after: Set<(u64, u64)>,
    path: Seq<char>,
    exact: bool,
    m: DirMeta,
    number: u64,
    mount: u64,
    step: DirStep,
)
    requires
        rules.use_statx,
        m.statx matches Some(id) ==> number == id.ino,
        m.statx matches Some(id) ==> id.mnt_id == Some(mount) || (id.mnt_id is None && mount
            == m.dev),
        m.statx is None ==> number == m.ino && mount == m.dev,
        (after, step) == rules.dir_outcome(before, path, exact, Some(m)),
    ensures
        (rules.root_mnt_id matches Some(root) && mount != root) ==> step == DirStep::Skip && after
            == before,
        rules.mounts.binds@.contains((m.dev, m.ino)) ==> step == DirStep::Skip && after == before,
        exact && rules.mounts.kernfs@.contains(path) ==> step == DirStep::Skip && after == before,
        before.contains((number, mount)) ==> step == DirStep::Skip && after == before,
        (rules.root_mnt_id is None || rules.root_mnt_id == Some(mount))
            && !rules.mounts.binds@.contains((m.dev, m.ino)) && !(exact
            && rules.mounts.kernfs@.contains(path)) && !before.contains((number, mount)) ==> step
            == (DirStep::Count { owner: Some(m.uid) }) && after == before.insert((number, mount)),
{
}

/// On a local file system a directory is entered where its device is the root's, and
/// counts for its owner unless a bind or kernel mount lies there or the same number and
/// device were entered before. What `statx` says of it changes nothing.
pub proof fn law_local_directories(
    rules: WalkRules,
    before: Set<(u64, u64)>,
    after: Set<(u64, u64)>,
    path: Seq<char>,
    exact: bool,
    m: DirMeta,
    step: DirStep,
)
    requires
        !rules.use_statx,
        (after, step) == rules.dir_outcome(before, path, exact, Some(m)),
    ensures
        (rules.root_dev matches Some(root) && m.dev != root) ==> step == DirStep::Skip && after
            == before,
        rules.mounts.binds@.contains((m.dev, m.ino)) ==> step == DirStep::Skip && after == before,
        exact && rules.mounts.kernfs@.contains(path) ==> step == DirStep::Skip && after == before,
        before.contains((m.ino, m.dev)) ==> step == DirStep::Skip && after == before,
        (rules.root_dev is None || rules.root_dev == Some(m.dev)) && !rules.mounts.binds@.contains(
            (m.dev, m.ino),
        ) && !(exact && rules.mounts.kernfs@.contains(path)) && !before.contains((m.ino, m.dev))
            ==> step == (DirStep::Count { owner: Some(m.uid) }) && after == before.insert(
            (m.ino, m.dev),
        ),
{
}

/// A directory whose metadata cannot be read counts, with no owner, and nothing is noted
/// of it: of two such, both count.
pub proof fn law_unreadable_directories_count(
    rules: WalkRules,
    before: Set<(u64, u64)>,
    after: Set<(u64, u64)>,
    path: Seq<char>,
    exact: bool,
    step: DirStep,
)
    requires
        (after, step) == rules.dir_outcome(before, path, exact, None),
    ensures
        step == (DirStep::Count { owner: None }),
        after == before,
{
}

/// What becomes of a file with `blocks` blocks of 512 bytes, of `uid`, with `nlink` names,
/// whose number is `number` and which lies on the mount or device `place`: one that lies
/// elsewhere than the root is not counted, one that was counted under another name is
/// not counted again, and any other counts its blocks for its user. Only one with more
/// than one name is noted.
pub open spec fn counts_as(
    rules: WalkRules,
    before: Set<(u64, u64)>,
    after: Set<(u64, u64)>,
    step: FileStep,
    root: Option<u64>,
    number: u64,
    place: u64,
    blocks: u64,
    uid: u32,
    nlink: u64,
) -> bool {
    &&& root is Some && root != Some(place) ==> step == FileStep::Foreign && after == before
    &&& root is None || root == Some(place) ==> {
        &&& nlink > 1 && before.contains((number, place)) ==> step == FileStep::Duplicate && after
            == before
        &&& nlink > 1 && !before.contains((number, place)) ==> after == before.insert(
            (number, place),
        )
        &&& nlink <= 1 ==> after == before
        &&& nlink <= 1 || !before.contains((number, place)) ==> {
            &&& step matches FileStep::Count { uid: u, size, target }
            &&& u == uid
            &&& size == 512 * blocks
            &&& target <==> rules.target_uids is None || exists|k: int|
                0 <= k < rules.target_uids->0@.len() && #[trigger] rules.target_uids->0@[k] == uid
        }
    }
}

/// On NFS a file that one `statx` call told all of counts by what that call gave,
/// whatever its metadata say.
pub proof fn law_network_files(
    rules: WalkRules,
    before: Set<(u64, u64)>,
    after: Set<(u64, u64)>,
    s: StatxLite,
    meta: Option<FileMeta>,
    step: FileStep,
)
    requires
        rules.use_statx,
        512 * s.blocks <= u64::MAX,
        (after, step) == rules.file_outcome(before, file_facts(rules.use_statx, Some(s), meta)),
    ensures
        counts_as(
            rules,
            before,
            after,
            step,
            rules.root_mnt_id,
            s.ino,
            s.mnt_id,
            s.blocks,
            s.uid,
            s.nlink,
        ),
{
}

/// On NFS a file that the one call failed on counts by its metadata, and is told from
/// others by the number and the mount that `statx` gave, the device standing for a mount
/// that is not known; where that failed too, by its plain number and device.
pub proof fn law_network_files_by_metadata(
    rules: WalkRules,
    before: Set<(u64, u64)>,
    after: Set<(u64, u64)>,
    m: FileMeta,
    number: u64,
    mount: u64,
    step: FileStep,
)
    requires
        rules.use_statx,
        512 * m.blocks <= u64::MAX,
        m.statx matches Some(id) ==> number == id.ino,
        m.statx matches Some(id) ==> id.mnt_id == Some(mount) || (id.mnt_id is None && mount
            == m.dev),
        m.statx is None ==> number == m.ino && mount == m.dev,
        (after, step) == rules.file_outcome(before, file_facts(rules.use_statx, None, Some(m))),
    ensures
        counts_as(
            rules,
            before,
            after,
            step,
            rules.root_mnt_id,
            number,
            mount,
            m.blocks,
            m.uid,
            m.nlink,
        ),
{
}

/// On a local file system a file counts by its metadata, and is told from others by its
/// number and device, whatever `statx` says of it.
pub proof fn law_local_files(
    rules: WalkRules,
    before: Set<(u64, u64)>,
    after: Set<(u64, u64)>,
    lite: Option<StatxLite>,
    m: FileMeta,
    step: FileStep,
)
    requires
        !rules.use_statx,
        512 * m.blocks <= u64::MAX,
        (after, step) == rules.file_outcome(before, file_facts(rules.use_statx, lite, Some(m))),
    ensures
        counts_as(
            rules,
            before,
            after,
            step,
            rules.root_dev,
            m.ino,
            m.dev,
            m.blocks,
            m.uid,
            m.nlink,
        ),
{
}

/// A file that nothing could be read of is an issue, and nothing is noted of it; the
/// metadata are not missed where one `statx` call told all.
pub proof fn law_unreadable_files_are_issues(
    rules: WalkRules,
    before: Set<(u64, u64)>,
    after: Set<(u64, u64)>,
    lite: Option<StatxLite>,
    meta: Option<FileMeta>,
    step: FileStep,
)
    requires
        (after, step) == rules.file_outcome(before, file_facts(rules.use_statx, lite, meta)),
    ensures
        step == FileStep::Issue <==> meta is None && (lite is None || !rules.use_statx),
        step == FileStep::Issue ==> after == before,
{
}

/// An entry at or below a skipped directory, or at a mount point that is counted
/// elsewhere, is skipped, whatever it is. Of the others directories and files are looked
/// at and links counted, but for the directories with a name that keeps the walk out,
/// which are skipped; a file with such a name is not.
pub proof fn law_entries(rules: WalkRules, path: Seq<char>, exact: bool, kind: EntryKind)
    ensures
        (exists|i: int|
            0 <= i < rules.skip_dirs@.len() && paths::path_below(
                path,
                (#[trigger] rules.skip_dirs@[i])@,
            )) ==> rules.entry_outcome(path, exact, kind) == EntryStep::Skip,
        exact && rules.mounts.children@.contains(path) ==> rules.entry_outcome(path, exact, kind)
            == EntryStep::Skip,
        !rules.in_skip_dirs(path) && !(exact && rules.mounts.children@.contains(path)) ==> {
            &&& kind is Symlink ==> rules.entry_outcome(path, exact, kind) == EntryStep::CountInode
            &&& kind is File ==> rules.entry_outcome(path, exact, kind) == EntryStep::StatFile
            &&& kind is Unknown || kind is Other ==> rules.entry_outcome(path, exact, kind)
                == EntryStep::Ignore
            &&& kind is Dir && paths::file_name(path) is None ==> rules.entry_outcome(
                path,
                exact,
                kind,
            ) == EntryStep::StatDir
            &&& kind is Dir && (paths::file_name(path) matches Some(n) && (n == "proc"@ || n
                == "sys"@ || n == "dev"@ || n == ".nfs"@ || n == ".zfs"@ || n == ".snapshot"@ || n
                == ".snapshots"@)) ==> rules.entry_outcome(path, exact, kind) == EntryStep::Skip
            &&& kind is Dir && (paths::file_name(path) matches Some(n) && n != "proc"@ && n
                != "sys"@ && n != "dev"@ && n != ".nfs"@ && n != ".zfs"@ && n != ".snapshot"@ && n
                != ".snapshots"@) ==> rules.entry_outcome(path, exact, kind) == EntryStep::StatDir
        },
{
}

/// The code that is kept of an error: a refusal comes before a missing entry, that before
/// a failed read, and what speaks of none of them is another error.
pub proof fn law_error_codes(msg: Seq<char>)
    ensures
        error_code(msg) == "EACCES"@ || error_code(msg) == "ENOENT"@ || error_code(msg) == "EIO"@
            || error_code(msg) == "EOTHER"@,
        text::has_sub(msg, "os error 13"@) ==> error_code(msg) == "EACCES"@,
        text::has_sub(msg, "Permission denied"@) ==> error_code(msg) == "EACCES"@,
        text::has_sub(msg, "permission denied"@) ==> error_code(msg) == "EACCES"@,
        text::has_sub(msg, "os error 2"@) && error_code(msg) != "EACCES"@ ==> error_code(msg)
            == "ENOENT"@,
        text::has_sub(msg, "No such file"@) && error_code(msg) != "EACCES"@ ==> error_code(msg)
            == "ENOENT"@,
        text::has_sub(msg, "no such file"@) && error_code(msg) != "EACCES"@ ==> error_code(msg)
            == "ENOENT"@,
        text::has_sub(msg, "os error 5"@) && error_code(msg) != "EACCES"@ && error_code(msg)
            != "ENOENT"@ ==> error_code(msg) == "EIO"@,
        error_code(msg) == "EACCES"@ ==> text::has_sub(msg, "os error 13"@) || text::has_sub(
            msg,
            "Permission denied"@,
        ) || text::has_sub(msg, "permission denied"@),
        error_code(msg) == "ENOENT"@ ==> text::has_sub(msg, "os error 2"@) || text::has_sub(
            msg,
            "No such file"@,
        ) || text::has_sub(msg, "no such file"@),
        error_code(msg) == "EIO"@ ==> text::has_sub(msg, "os error 5"@),
{
    reveal_strlit("EACCES");
    reveal_strlit("ENOENT");
    reveal_strlit("EIO");
    reveal_strlit("EOTHER");
    assert("EACCES"@[1] != "ENOENT"@[1]);
    assert("EACCES"@[1] != "EOTHER"@[1]);
    assert("ENOENT"@[1] != "EOTHER"@[1]);
}

/// An error that reads as a path, a colon and a blank, and a rest names that path, where
/// no colon and blank stand before those.
pub proof fn law_error_paths(msg: Seq<char>, path: Seq<char>, rest: Seq<char>)
    requires
        msg == path + seq![':', ' '] + rest,
        forall|i: int|
            0 <= i < path.len() ==> !((#[trigger] msg[i]) == ':' && msg[i + 1] == ' '),
    ensures
        error_path(msg) == path,
{
    reveal_strlit(": ");
    let sep = ": "@;
    assert(sep =~= seq![':', ' ']);
    let n = path.len() as int;
    assert(msg.subrange(n, n + 2) =~= sep);
    assert(text::occurs_at(msg, sep, n));
    assert forall|j: int| 0 <= j < n implies !text::occurs_at(msg, sep, j) by {
        if text::occurs_at(msg, sep, j) {
            let here = msg.subrange(j, j + 2);
            assert(here[0] == msg[j]);
            assert(here[1] == msg[j + 1]);
        }
    }
    reveal(text::find_sub);
    let k = text::find_sub(msg, sep);
    assert(text::occurs_at(msg, sep, k));
    assert(k == n);
    assert(msg.take(n) =~= path);
}

/// As many threads walk as are asked for, and at least one. Where no number is asked for,
/// four walk for each processor, never fewer than 4 and never more than 64, and more
/// processors never make fewer threads.
pub proof fn law_walker_threads(cpus: usize, more: usize, asked: usize)
    requires
        cpus <= more,
    ensures
        asked > 0 ==> thread_count(cpus, Some(asked)) == asked,
        thread_count(cpus, Some(0)) == 1,
        4 <= thread_count(cpus, None) <= 64,
        1 <= cpus <= 16 ==> thread_count(cpus, None) == 4 * cpus,
        thread_count(cpus, None) <= thread_count(more, None),
{
}

} // verus!
