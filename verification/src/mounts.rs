//! The mounts of the machine, and which of them a scan must not enter.

use crate::paths;
use crate::text;
use vstd::hash_set::StringHashSet;
use vstd::prelude::*;
use vstd::string::*;

verus! {

/// The magic number of an NFS superblock.
pub const NFS_SUPER_MAGIC: i64 = 0x6969;

/// Whether a filesystem with this magic number holds no files on disk: proc,
/// sysfs, debugfs, tmpfs, devpts, binfmtfs, cgroup, cgroup2, overlayfs, ramfs,
/// securityfs and tracefs.
pub open spec fn kernfs_magic(f_type: i64) -> bool {
    ||| f_type == 0x9fa0
    ||| f_type == 0x62656572
    ||| f_type == 0x64626720
    ||| f_type == 0x01021994
    ||| f_type == 0x1cd1
    ||| f_type == 0x42494e4d
    ||| f_type == 0x27e0eb
    ||| f_type == 0x63677270
    ||| f_type == 0x794c7630
    ||| f_type == 0x858458f6
    ||| f_type == 0x73636673
    ||| f_type == 0x67596969
}

/// Whether a filesystem holds no files on disk; one whose magic number could
/// not be read is taken to hold files.
pub fn is_kernfs_path(f_type: Option<i64>) -> (r: bool)
    ensures
        r == (f_type matches Some(t) && kernfs_magic(t)),
{
    match f_type {
        Some(t) => t == 0x9fa0 || t == 0x62656572 || t == 0x64626720 || t == 0x01021994 || t
            == 0x1cd1 || t == 0x42494e4d || t == 0x27e0eb || t == 0x63677270 || t == 0x794c7630
            || t == 0x858458f6 || t == 0x73636673 || t == 0x67596969,
        None => false,
    }
}

/// Whether a filesystem is NFS; one whose magic number could not be read is
/// taken to be local.
pub fn is_nfs_path(f_type: Option<i64>) -> (r: bool)
    ensures
        r == (f_type == Some(NFS_SUPER_MAGIC)),
{
    match f_type {
        Some(t) => t == NFS_SUPER_MAGIC,
        None => false,
    }
}

/// Whether a mount point is the root of a scan or stands below it. Everything
/// stands below `/`.
pub open spec fn under_root(mp: Seq<char>, root: Seq<char>) -> bool {
    root.len() == 0 || root == paths::slash() || mp == root || (root + paths::slash()).is_prefix_of(mp)
}

/// Whether a mount point is the root of a scan or stands below it.
pub fn mount_is_under_root(mp: &str, root_norm: &str) -> (r: bool)
    ensures
        r == under_root(mp@, root_norm@),
{
    let m = text::to_chars(mp);
    let root = text::to_chars(root_norm);
    if root.len() == 0 {
        return true;
    }
    if root.len() == 1 && root[0] == '/' {
        proof {
            assert(root@ =~= paths::slash());
        }
        return true;
    }
    proof {
        assert(root@ != paths::slash()) by {
            if root@ == paths::slash() {
                assert(root@.len() == 1 && root@[0] == '/');
            }
        }
    }
    if text::chars_eq(&m, &root) {
        return true;
    }
    let mut prefix: Vec<char> = Vec::new();
    text::append_chars(&mut prefix, &root);
    prefix.push('/');
    proof {
        assert(prefix@ =~= root@ + paths::slash());
    }
    text::starts_with(&m, &prefix)
}

/// A mount: its device, the directory of the device's filesystem that is
/// mounted, and where.
pub struct Mount {
    pub dev: String,
    pub fs_root: String,
    pub mount_point: String,
}

#[verifier::ext_equal]
pub struct MountModel {
    pub dev: Seq<char>,
    pub fs_root: Seq<char>,
    pub mount_point: Seq<char>,
}

impl View for Mount {
    type V = MountModel;

    open spec fn view(&self) -> MountModel {
        MountModel { dev: self.dev@, fs_root: self.fs_root@, mount_point: self.mount_point@ }
    }
}

pub open spec fn mount_views(v: Seq<Mount>) -> Seq<MountModel> {
    v.map_values(|m: Mount| m@)
}

/// The mount of a line: its third, fourth and fifth word. A shorter line has
/// none.
pub open spec fn mount_of_line(line: Seq<char>) -> Option<MountModel> {
    let w = text::words(line);
    if w.len() < 5 {
        None
    } else {
        Some(MountModel { dev: w[2], fs_root: w[3], mount_point: w[4] })
    }
}

/// The mounts of the text of `/proc/self/mountinfo`.
pub open spec fn mounts_of(mountinfo: Seq<char>) -> Seq<MountModel> {
    text::lines(mountinfo).filter_map(|l: Seq<char>| mount_of_line(l))
}

/// The mounts of the text of `/proc/self/mountinfo`.
pub fn parse_mounts(mountinfo: &str) -> (r: Vec<Mount>)
    ensures
        mount_views(r@) == mounts_of(mountinfo@),
{
    let s = text::to_chars(mountinfo);
    let ls = text::line_chars(&s);
    let mut out: Vec<Mount> = Vec::new();
    let mut i: usize = 0;
    let ghost f = |l: Seq<char>| mount_of_line(l);
    let ghost all = text::lines(mountinfo@);
    proof {
        assert(text::rows(ls@).len() == ls@.len());
        assert(all.take(0).filter_map(f) =~= Seq::empty());
    }
    while i < ls.len()
        invariant
            i <= ls.len(),
            text::rows(ls@) == all,
            all.len() == ls@.len(),
            f == (|l: Seq<char>| mount_of_line(l)),
            mount_views(out@) == all.take(i as int).filter_map(f),
        decreases ls.len() - i,
    {
        proof {
            assert(all[i as int] == ls@[i as int]@);
            all.lemma_filter_map_take_succ(f, i as int);
        }
        let w = text::word_list(&ls[i]);
        proof {
            assert(text::rows(w@).len() == w@.len());
            assert(forall|k: int| 0 <= k < w@.len() ==> text::rows(w@)[k] == (#[trigger] w@[k])@);
        }
        if w.len() >= 5 {
            let ghost before = mount_views(out@);
            let m = Mount {
                dev: text::from_chars(&w[2]),
                fs_root: text::from_chars(&w[3]),
                mount_point: text::from_chars(&w[4]),
            };
            out.push(m);
            proof {
                assert(mount_of_line(all[i as int]) matches Some(x) && x =~= m@);
                assert(mount_views(out@) =~= before.push(m@));
            }
        }
        i = i + 1;
    }
    proof {
        assert(all.take(all.len() as int) =~= all);
    }
    out
}

/// Whether two mounts show the same directory of the same device.
pub open spec fn same_source(a: MountModel, b: MountModel) -> bool {
    a.dev == b.dev && a.fs_root == b.fs_root
}

/// The first mount with the source of the `i`-th, up to the `i`-th itself.
pub open spec fn first_copy(ms: Seq<MountModel>, i: int, from: int) -> int
    decreases i - from,
{
    if from >= i || same_source(ms[from], ms[i]) {
        from
    } else {
        first_copy(ms, i, from + 1)
    }
}

/// Whether the `i`-th mount is a later copy, strictly below the root, of what was
/// already mounted at or below the root.
pub open spec fn is_duplicate(ms: Seq<MountModel>, root: Seq<char>, i: int) -> bool {
    let f = first_copy(ms, i, 0);
    &&& under_root(ms[i].mount_point, root)
    &&& ms[i].mount_point != root
    &&& f < i
    &&& under_root(ms[f].mount_point, root)
}

/// The mount points that a scan of `scan_root` must skip because it counts
/// their files elsewhere.
pub open spec fn duplicate_mounts(ms: Seq<MountModel>, scan_root: Seq<char>) -> Set<Seq<char>> {
    Set::new(
        |p: Seq<char>|
            exists|i: int|
                0 <= i < ms.len() && (#[trigger] ms[i]).mount_point == p && is_duplicate(
                    ms,
                    paths::normal_root(scan_root),
                    i,
                ),
    )
}

fn find_first_copy(ms: &Vec<Mount>, i: usize) -> (r: usize)
    requires
        i < ms@.len(),
    ensures
        r == first_copy(mount_views(ms@), i as int, 0),
        r <= i,
{
    let mut k: usize = 0;
    while k < i
        invariant
            k <= i,
            i < ms@.len(),
            first_copy(mount_views(ms@), i as int, 0) == first_copy(
                mount_views(ms@),
                i as int,
                k as int,
            ),
        decreases i - k,
    {
        proof {
            assert(mount_views(ms@)[k as int] == ms@[k as int]@);
            assert(mount_views(ms@)[i as int] == ms@[i as int]@);
        }
        if ms[k].dev == ms[i].dev && ms[k].fs_root == ms[i].fs_root {
            return k;
        }
        k = k + 1;
    }
    k
}

/// The mount points that a scan of `scan_root` must skip because it counts
/// their files elsewhere: strictly below the root, and mounted before at another
/// place at or below the root. Where the first copy is outside the root the copy below it
/// is the only one that the scan reaches, and stays.
pub fn child_bind_dups_to_skip(mountinfo: &str, scan_root: &str) -> (r: StringHashSet)
    ensures
        r@ == duplicate_mounts(mounts_of(mountinfo@), scan_root@),
{
    let ms = parse_mounts(mountinfo);
    let root = paths::normalize_root(scan_root);
    let mut skip = StringHashSet::new();
    let ghost all = mount_views(ms@);
    let mut i: usize = 0;
    while i < ms.len()
        invariant
            i <= ms@.len(),
            all == mount_views(ms@),
            all.len() == ms@.len(),
            root@ == paths::normal_root(scan_root@),
            forall|p: Seq<char>| #[trigger]
                skip@.contains(p) <==> exists|k: int|
                    0 <= k < i && (#[trigger] all[k]).mount_point == p && is_duplicate(
                        all,
                        root@,
                        k,
                    ),
        decreases ms@.len() - i,
    {
        let m = &ms[i];
        let f: usize = find_first_copy(&ms, i);
        proof {
            assert(all[i as int] == m@);
            assert(all[f as int] == ms@[f as int]@);
        }
        let ghost before = skip@;
        let dup: bool = f < i && mount_is_under_root(m.mount_point.as_str(), root.as_str())
            && !text::str_eq(m.mount_point.as_str(), root.as_str()) && mount_is_under_root(
            ms[f].mount_point.as_str(),
            root.as_str(),
        );
        if dup {
            let _b: bool = skip.insert(m.mount_point.clone());
        }
        proof {
            assert(dup == is_duplicate(all, root@, i as int));
            assert forall|p: Seq<char>| #[trigger] skip@.contains(p) <==> exists|k: int|
                0 <= k < i + 1 && (#[trigger] all[k]).mount_point == p && is_duplicate(
                    all,
                    root@,
                    k,
                ) by {
                if before.contains(p) {
                    let k = choose|k: int|
                        0 <= k < i && (#[trigger] all[k]).mount_point == p && is_duplicate(
                            all,
                            root@,
                            k,
                        );
                    assert(all[k].mount_point == p);
                }
                if dup && p == m.mount_point@ {
                    assert(all[i as int].mount_point == p);
                }
                if exists|k: int|
                    0 <= k < i + 1 && (#[trigger] all[k]).mount_point == p && is_duplicate(
                        all,
                        root@,
                        k,
                    ) {
                    let k = choose|k: int|
                        0 <= k < i + 1 && (#[trigger] all[k]).mount_point == p && is_duplicate(
                            all,
                            root@,
                            k,
                        );
                    if k < i {
                        assert(before.contains(p));
                    }
                }
            }
        }
        i = i + 1;
    }
    proof {
        assert(skip@ =~= duplicate_mounts(mounts_of(mountinfo@), scan_root@));
    }
    skip
}

/// The first copy of a source below the root is never skipped, so its files are
/// counted.
pub proof fn law_first_copy_is_kept(ms: Seq<MountModel>, scan_root: Seq<char>, i: int)
    requires
        0 <= i < ms.len(),
        forall|k: int| 0 <= k < i ==> !same_source(#[trigger] ms[k], ms[i]),
        forall|k: int|
            0 <= k < ms.len() && k != i ==> (#[trigger] ms[k]).mount_point != ms[i].mount_point,
    ensures
        !duplicate_mounts(ms, scan_root).contains(ms[i].mount_point),
{
    lemma_first_copy_alone(ms, i, 0);
}

/// The root of a scan is never skipped itself.
pub proof fn law_root_is_kept(ms: Seq<MountModel>, scan_root: Seq<char>)
    ensures
        !duplicate_mounts(ms, scan_root).contains(paths::normal_root(scan_root)),
{
}

proof fn lemma_first_copy_alone(ms: Seq<MountModel>, i: int, from: int)
    requires
        0 <= from <= i < ms.len(),
        forall|k: int| 0 <= k < i ==> !same_source(#[trigger] ms[k], ms[i]),
    ensures
        first_copy(ms, i, from) == i,
    decreases i - from,
{
    if from < i {
        lemma_first_copy_alone(ms, i, from + 1);
    }
}

/// What the system says of a mount point.
#[derive(Clone, Copy, PartialEq, Eq, Debug)]
pub struct MountFacts {
    /// The magic number of its filesystem.
    pub f_type: Option<i64>,
    /// Its device and inode.
    pub identity: Option<(u64, u64)>,
}

/// What a scan must not enter.
pub struct MountSkips {
    /// Devices and inodes that are mounted at more than one place.
    pub binds: Vec<(u64, u64)>,
    /// Mount points of filesystems without files on disk.
    pub kernfs: StringHashSet,
    /// Mount points strictly below the root that are skipped outright.
    pub children: StringHashSet,
}

/// Whether the `i`-th mount is of a filesystem without files on disk.
pub open spec fn kernfs_at(facts: Seq<MountFacts>, i: int) -> bool {
    i < facts.len() && (facts[i].f_type matches Some(t) && kernfs_magic(t))
}

/// Whether the `i`-th mount has the identity `key`.
pub open spec fn identity_at(facts: Seq<MountFacts>, i: int, key: (u64, u64)) -> bool {
    i < facts.len() && facts[i].identity == Some(key)
}

/// What a scan of `scan_root` must not enter, from the mounts and what the
/// system says of each.
pub fn build_mount_skip_sets(mountinfo: &str, facts: &Vec<MountFacts>, scan_root: &str) -> (r:
    MountSkips)
    ensures
        forall|key: (u64, u64)| #[trigger]
            r.binds@.contains(key) <==> exists|i: int, j: int|
                0 <= i < j < mounts_of(mountinfo@).len() && #[trigger] identity_at(facts@, i, key)
                    && #[trigger] identity_at(facts@, j, key),
        forall|p: Seq<char>| #[trigger]
            r.kernfs@.contains(p) <==> exists|i: int|
                0 <= i < mounts_of(mountinfo@).len() && #[trigger] kernfs_at(facts@, i)
                    && mounts_of(mountinfo@)[i].mount_point == p,
        forall|p: Seq<char>| #[trigger]
            r.children@.contains(p) <==> duplicate_mounts(
                mounts_of(mountinfo@),
                scan_root@,
            ).contains(p) || (r.kernfs@.contains(p) && under_root(
                p,
                paths::normal_root(scan_root@),
            ) && p != paths::normal_root(scan_root@)),
{
    let ms = parse_mounts(mountinfo);
    let root = paths::normalize_root(scan_root);
    let mut children = child_bind_dups_to_skip(mountinfo, scan_root);
    let mut kernfs = StringHashSet::new();
    let mut binds: Vec<(u64, u64)> = Vec::new();
    let mut seen: Vec<(u64, u64)> = Vec::new();
    let ghost all = mounts_of(mountinfo@);
    let ghost dups = children@;
    let mut i: usize = 0;
    proof {
        assert(mount_views(ms@).len() == ms@.len());
    }
    while i < ms.len()
        invariant
            i <= ms@.len(),
            all == mounts_of(mountinfo@),
            all == mount_views(ms@),
            all.len() == ms@.len(),
            root@ == paths::normal_root(scan_root@),
            forall|key: (u64, u64)| #[trigger]
                seen@.contains(key) <==> exists|k: int|
                    0 <= k < i && #[trigger] identity_at(facts@, k, key),
            forall|key: (u64, u64)| #[trigger]
                binds@.contains(key) <==> exists|a: int, b: int|
                    0 <= a < b < i && #[trigger] identity_at(facts@, a, key)
                        && #[trigger] identity_at(facts@, b, key),
            forall|p: Seq<char>| #[trigger]
                kernfs@.contains(p) <==> exists|k: int|
                    0 <= k < i && #[trigger] kernfs_at(facts@, k) && all[k].mount_point == p,
            forall|p: Seq<char>| #[trigger]
                children@.contains(p) <==> dups.contains(p) || (kernfs@.contains(p) && under_root(
                    p,
                    root@,
                ) && p != root@),
        decreases ms@.len() - i,
    {
        let mp = &ms[i].mount_point;
        proof {
            assert(all[i as int] == ms@[i as int]@);
        }
        let ghost kernfs0 = kernfs@;
        let ghost children0 = children@;
        let ghost seen0 = seen@;
        let ghost binds0 = binds@;
        let is_kern: bool = i < facts.len() && is_kernfs_path(facts[i].f_type);
        if is_kern {
            let _a: bool = kernfs.insert(mp.clone());
            if mount_is_under_root(mp.as_str(), root.as_str()) && !text::str_eq(
                mp.as_str(),
                root.as_str(),
            ) {
                let _b: bool = children.insert(mp.clone());
            }
        }
        proof {
            assert(is_kern == kernfs_at(facts@, i as int));
            assert forall|p: Seq<char>| #[trigger] kernfs@.contains(p) <==> exists|k: int|
                0 <= k < i + 1 && #[trigger] kernfs_at(facts@, k) && all[k].mount_point == p by {
                if kernfs0.contains(p) {
                    let k = choose|k: int|
                        0 <= k < i && #[trigger] kernfs_at(facts@, k) && all[k].mount_point == p;
                    assert(kernfs_at(facts@, k));
                }
                if is_kern && p == mp@ {
                    assert(kernfs_at(facts@, i as int));
                }
            }
        }
        if i < facts.len() {
            match facts[i].identity {
                Some(key) => {
                    if has_pair(&seen, key) {
                        if !has_pair(&binds, key) {
                            binds.push(key);
                        }
                    } else {
                        seen.push(key);
                    }
                    proof {
                        lemma_pairs_step(facts@, seen0, seen@, binds0, binds@, i as int, key);
                    }
                },
                None => {
                    proof {
                        lemma_pairs_none(facts@, seen@, binds@, i as int);
                    }
                },
            }
        } else {
            proof {
                lemma_pairs_none(facts@, seen@, binds@, i as int);
            }
        }
        i = i + 1;
    }
    MountSkips { binds, kernfs, children }
}

/// Whether a pair is in a list.
pub fn has_pair(v: &Vec<(u64, u64)>, key: (u64, u64)) -> (r: bool)
    ensures
        r == v@.contains(key),
{
    let mut i: usize = 0;
    while i < v.len()
        invariant
            i <= v@.len(),
            forall|k: int| 0 <= k < i ==> #[trigger] v@[k] != key,
        decreases v@.len() - i,
    {
        if v[i].0 == key.0 && v[i].1 == key.1 {
            proof {
                assert(v@[i as int] == key);
            }
            return true;
        }
        i = i + 1;
    }
    false
}

proof fn lemma_pairs_none(
    facts: Seq<MountFacts>,
    seen: Seq<(u64, u64)>,
    binds: Seq<(u64, u64)>,
    i: int,
)
    requires
        0 <= i,
        i < facts.len() ==> facts[i].identity is None,
        forall|key: (u64, u64)| #[trigger]
            seen.contains(key) <==> exists|k: int|
                0 <= k < i && #[trigger] identity_at(facts, k, key),
        forall|key: (u64, u64)| #[trigger]
            binds.contains(key) <==> exists|a: int, b: int|
                0 <= a < b < i && #[trigger] identity_at(facts, a, key) && #[trigger] identity_at(
                    facts,
                    b,
                    key,
                ),
    ensures
        forall|key: (u64, u64)| #[trigger]
            seen.contains(key) <==> exists|k: int|
                0 <= k < i + 1 && #[trigger] identity_at(facts, k, key),
        forall|key: (u64, u64)| #[trigger]
            binds.contains(key) <==> exists|a: int, b: int|
                0 <= a < b < i + 1 && #[trigger] identity_at(facts, a, key)
                    && #[trigger] identity_at(facts, b, key),
{
    assert forall|key: (u64, u64)| #[trigger] seen.contains(key) <==> exists|k: int|
        0 <= k < i + 1 && #[trigger] identity_at(facts, k, key) by {
        if seen.contains(key) {
            let k = choose|k: int| 0 <= k < i && #[trigger] identity_at(facts, k, key);
            assert(identity_at(facts, k, key));
        }
    }
    assert forall|key: (u64, u64)| #[trigger] binds.contains(key) <==> exists|a: int, b: int|
        0 <= a < b < i + 1 && #[trigger] identity_at(facts, a, key) && #[trigger] identity_at(
            facts,
            b,
            key,
        ) by {
        if binds.contains(key) {
            let (a, b) = choose|a: int, b: int|
                0 <= a < b < i && #[trigger] identity_at(facts, a, key) && #[trigger] identity_at(
                    facts,
                    b,
                    key,
                );
            assert(identity_at(facts, a, key) && identity_at(facts, b, key));
        }
    }
}

proof fn lemma_pairs_step(
    facts: Seq<MountFacts>,
    seen0: Seq<(u64, u64)>,
    seen: Seq<(u64, u64)>,
    binds0: Seq<(u64, u64)>,
    binds: Seq<(u64, u64)>,
    i: int,
    key: (u64, u64),
)
    requires
        0 <= i,
        identity_at(facts, i, key),
        forall|x: (u64, u64)| #[trigger]
            seen0.contains(x) <==> exists|k: int|
                0 <= k < i && #[trigger] identity_at(facts, k, x),
        forall|x: (u64, u64)| #[trigger]
            binds0.contains(x) <==> exists|a: int, b: int|
                0 <= a < b < i && #[trigger] identity_at(facts, a, x) && #[trigger] identity_at(
                    facts,
                    b,
                    x,
                ),
        seen == (if seen0.contains(key) {
            seen0
        } else {
            seen0.push(key)
        }),
        binds == (if seen0.contains(key) && !binds0.contains(key) {
            binds0.push(key)
        } else {
            binds0
        }),
    ensures
        forall|x: (u64, u64)| #[trigger]
            seen.contains(x) <==> exists|k: int|
                0 <= k < i + 1 && #[trigger] identity_at(facts, k, x),
        forall|x: (u64, u64)| #[trigger]
            binds.contains(x) <==> exists|a: int, b: int|
                0 <= a < b < i + 1 && #[trigger] identity_at(facts, a, x)
                    && #[trigger] identity_at(facts, b, x),
{
    assert forall|x: (u64, u64)| #[trigger] seen.contains(x) <==> seen0.contains(x) || x == key by {
        if seen0.contains(x) {
            let k = choose|k: int| 0 <= k < seen0.len() && seen0[k] == x;
            assert(seen[k] == x);
        }
        if x == key && !seen0.contains(key) {
            assert(seen[seen0.len() as int] == key);
        }
        if seen.contains(x) && x != key {
            let k = choose|k: int| 0 <= k < seen.len() && seen[k] == x;
            assert(seen0[k] == x);
        }
    }
    assert forall|x: (u64, u64)| #[trigger] binds.contains(x) <==> binds0.contains(x) || (x == key
        && seen0.contains(key)) by {
        if binds0.contains(x) {
            let k = choose|k: int| 0 <= k < binds0.len() && binds0[k] == x;
            assert(binds[k] == x);
        }
        if x == key && seen0.contains(key) && !binds0.contains(key) {
            assert(binds[binds0.len() as int] == key);
        }
        if binds.contains(x) && x != key {
            let k = choose|k: int| 0 <= k < binds.len() && binds[k] == x;
            assert(binds0[k] == x);
        }
    }
    assert forall|x: (u64, u64)| #[trigger] seen.contains(x) <==> exists|k: int|
        0 <= k < i + 1 && #[trigger] identity_at(facts, k, x) by {
        if seen0.contains(x) {
            let k = choose|k: int| 0 <= k < i && #[trigger] identity_at(facts, k, x);
            assert(identity_at(facts, k, x));
        }
        if x == key {
            assert(identity_at(facts, i, x));
        }
    }
    assert forall|x: (u64, u64)| #[trigger] binds.contains(x) <==> exists|a: int, b: int|
        0 <= a < b < i + 1 && #[trigger] identity_at(facts, a, x) && #[trigger] identity_at(
            facts,
            b,
            x,
        ) by {
        if binds0.contains(x) {
            let (a, b) = choose|a: int, b: int|
                0 <= a < b < i && #[trigger] identity_at(facts, a, x) && #[trigger] identity_at(
                    facts,
                    b,
                    x,
                );
            assert(identity_at(facts, a, x) && identity_at(facts, b, x));
        }
        if x == key && seen0.contains(key) {
            let a = choose|k: int| 0 <= k < i && #[trigger] identity_at(facts, k, x);
            assert(identity_at(facts, a, x) && identity_at(facts, i, x));
        }
        if exists|a: int, b: int|
            0 <= a < b < i + 1 && #[trigger] identity_at(facts, a, x) && #[trigger] identity_at(
                facts,
                b,
                x,
            ) {
            let (a, b) = choose|a: int, b: int|
                0 <= a < b < i + 1 && #[trigger] identity_at(facts, a, x)
                    && #[trigger] identity_at(facts, b, x);
            if b < i {
                assert(binds0.contains(x));
            } else {
                assert(x == key);
                assert(identity_at(facts, a, x));
                assert(seen0.contains(x));
            }
        }
    }
}

/// A mount point stands below a root that is no slash exactly if it is the root or goes
/// on behind it with a slash; a longer name that begins alike does not.
pub proof fn law_mounts_below_a_root(root: Seq<char>, c: char, rest: Seq<char>)
    requires
        root.len() > 0,
        root != seq!['/'],
    ensures
        under_root(root, root),
        under_root(root + seq![c] + rest, root) <==> c == '/',
        under_root(rest, seq!['/']),
{
    let mp = root + seq![c] + rest;
    let head = root + paths::slash();
    assert(paths::slash() =~= seq!['/']);
    assert(mp[root.len() as int] == c);
    assert(mp.len() > root.len());
    if c == '/' {
        assert(head.is_prefix_of(mp));
    } else {
        if head.is_prefix_of(mp) {
            assert(head[root.len() as int] == '/');
            assert(mp[root.len() as int] == head[root.len() as int]);
        }
    }
}

/// A line of the mount table tells the device, the directory of it that is mounted and
/// the mount point as its third, fourth and fifth word; a line of fewer words tells
/// nothing.
pub proof fn law_words_of_a_mount(line: Seq<char>)
    ensures
        text::words(line).len() >= 5 ==> mount_of_line(line) == Some(
            MountModel {
                dev: text::words(line)[2],
                fs_root: text::words(line)[3],
                mount_point: text::words(line)[4],
            },
        ),
        text::words(line).len() < 5 ==> mount_of_line(line) is None,
{
}

proof fn lemma_first_copy_is(ms: Seq<MountModel>, i: int, from: int, j: int)
    requires
        0 <= from <= j < i,
        ms[j].dev == ms[i].dev,
        ms[j].fs_root == ms[i].fs_root,
        forall|k: int|
            from <= k < j ==> !((#[trigger] ms[k]).dev == ms[i].dev && ms[k].fs_root
                == ms[i].fs_root),
    ensures
        first_copy(ms, i, from) == j,
    decreases j - from,
{
    if from < j {
        assert(!same_source(ms[from], ms[i]));
        lemma_first_copy_is(ms, i, from + 1, j);
    }
}

proof fn lemma_no_first_copy(ms: Seq<MountModel>, i: int, from: int)
    requires
        0 <= from <= i,
        forall|k: int|
            from <= k < i ==> !((#[trigger] ms[k]).dev == ms[i].dev && ms[k].fs_root
                == ms[i].fs_root),
    ensures
        first_copy(ms, i, from) == i,
    decreases i - from,
{
    if from < i {
        assert(!same_source(ms[from], ms[i]));
        lemma_no_first_copy(ms, i, from + 1);
    }
}

/// A mount is skipped as a copy where the first mount of the same directory of the same
/// device, which comes before it, stands at or below the root too, and it stands below
/// the root itself. A mount of something that was not mounted before is no copy, and
/// neither is one whose first mount lies elsewhere.
pub proof fn law_copies_of_mounts(ms: Seq<MountModel>, root: Seq<char>, i: int, j: int)
    requires
        0 <= i < ms.len(),
    ensures
        0 <= j < i && ms[j].dev == ms[i].dev && ms[j].fs_root == ms[i].fs_root && (forall|k: int|
            0 <= k < j ==> !((#[trigger] ms[k]).dev == ms[i].dev && ms[k].fs_root
                == ms[i].fs_root)) ==> (is_duplicate(ms, root, i) <==> under_root(
            ms[i].mount_point,
            root,
        ) && ms[i].mount_point != root && under_root(ms[j].mount_point, root)),
        (forall|k: int|
            0 <= k < i ==> !((#[trigger] ms[k]).dev == ms[i].dev && ms[k].fs_root
                == ms[i].fs_root)) ==> !is_duplicate(ms, root, i),
{
    if 0 <= j < i && ms[j].dev == ms[i].dev && ms[j].fs_root == ms[i].fs_root && (forall|k: int|
        0 <= k < j ==> !((#[trigger] ms[k]).dev == ms[i].dev && ms[k].fs_root == ms[i].fs_root)) {
        lemma_first_copy_is(ms, i, 0, j);
    }
    if forall|k: int|
        0 <= k < i ==> !((#[trigger] ms[k]).dev == ms[i].dev && ms[k].fs_root == ms[i].fs_root) {
        lemma_no_first_copy(ms, i, 0);
    }
}

} // verus!
