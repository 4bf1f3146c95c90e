//! The scan plan: targets grouped by device, nested targets scanned once, and a
//! worker budget for each device.

use crate::config::Config;
use crate::config::Target;
use crate::config::TargetModel;
use crate::config::Team;
use crate::config::TeamModel;
use crate::config::User;
use crate::config::UserModel;
use crate::config;
use crate::order;
use crate::paths;
use crate::text;
use std::collections::HashMap;
use vstd::hash_map::StringHashMap;
use vstd::prelude::*;
use vstd::slice::slice_subrange;

verus! {

broadcast use vstd::std_specs::hash::group_hash_axioms;

// ---------------------------------------------------------------------------
// Device numbers
// ---------------------------------------------------------------------------

/// The device number of a major and a minor number.
pub open spec fn device_number(major: u32, minor: u32) -> u64 {
    ((major as u64 & 0x0000_0fff) << 8) | ((major as u64 & 0xffff_f000) << 32) | (minor as u64
        & 0x0000_00ff) | ((minor as u64 & 0xffff_ff00) << 12)
}

/// The major number in a device number.
pub open spec fn major_of(dev: u64) -> u32 {
    (((dev & 0x0000_0000_000f_ff00) >> 8) | ((dev & 0xffff_f000_0000_0000) >> 32)) as u32
}

/// The minor number in a device number.
pub open spec fn minor_of(dev: u64) -> u32 {
    ((dev & 0x0000_0000_0000_00ff) | ((dev & 0x0000_0fff_fff0_0000) >> 12)) as u32
}

/// Calls `libc::makedev`, which packs the two numbers as the kernel does: the
/// low twelve bits of the major number above the low eight of the minor number,
/// and the rest of both above those.
#[verifier::external_body]
fn makedev(major: u32, minor: u32) -> (r: u64)
    ensures
        r == device_number(major, minor),
{
    libc::makedev(major, minor)
}

/// Calls `libc::major`, which takes the major number out of a device number.
#[verifier::external_body]
fn dev_major(dev: u64) -> (r: u32)
    ensures
        r == major_of(dev),
{
    libc::major(dev)
}

/// Calls `libc::minor`, which takes the minor number out of a device number.
#[verifier::external_body]
fn dev_minor(dev: u64) -> (r: u32)
    ensures
        r == minor_of(dev),
{
    libc::minor(dev)
}

/// A device number gives back the two numbers that it was made of.
pub proof fn law_device_numbers(major: u32, minor: u32)
    ensures
        major_of(device_number(major, minor)) == major,
        minor_of(device_number(major, minor)) == minor,
{
    let d = device_number(major, minor);
    assert((((d & 0x0000_0000_000f_ff00) >> 8) | ((d & 0xffff_f000_0000_0000) >> 32)) as u32
        == major && ((d & 0x0000_0000_0000_00ff) | ((d & 0x0000_0fff_fff0_0000) >> 12)) as u32
        == minor) by (bit_vector)
        requires
            d == ((major as u64 & 0x0000_0fff) << 8) | ((major as u64 & 0xffff_f000) << 32) | (
            minor as u64 & 0x0000_00ff) | ((minor as u64 & 0xffff_ff00) << 12),
    ;
}

// ---------------------------------------------------------------------------
// Mounted file systems
// ---------------------------------------------------------------------------

/// What stands before and after the only ` - ` of a line.
pub open spec fn halves(line: Seq<char>) -> Option<(Seq<char>, Seq<char>)> {
    let sep = " - "@;
    if !text::has_sub(line, sep) {
        None
    } else {
        let i = text::find_sub(line, sep);
        let rest = line.skip(i + 3);
        if text::has_sub(rest, sep) {
            None
        } else {
            Some((line.take(i), rest))
        }
    }
}

/// The device and the type of the file system that a line of the mount table
/// tells of.
pub open spec fn mounted_type(line: Seq<char>) -> Option<(u64, Seq<char>)> {
    match halves(line) {
        None => None,
        Some((l, r)) => {
            let left = text::words(l);
            let right = text::words(r);
            if left.len() < 5 || right.len() == 0 {
                None
            } else {
                let mm = text::split(left[2], ':');
                if mm.len() != 2 {
                    None
                } else {
                    match (
                        text::parse_unsigned(mm[0], u32::MAX as nat),
                        text::parse_unsigned(mm[1], u32::MAX as nat),
                    ) {
                        (Some(a), Some(b)) => Some((device_number(a as u32, b as u32), right[0])),
                        _ => None,
                    }
                }
            }
        },
    }
}

/// The type of the file system on each device; the first mount of a device
/// counts.
pub open spec fn mounted_types(lines: Seq<Seq<char>>) -> Map<u64, Seq<char>>
    decreases lines.len(),
{
    if lines.len() == 0 {
        Map::empty()
    } else {
        let before = mounted_types(lines.drop_last());
        match mounted_type(lines.last()) {
            Some((dev, fs)) => if before.contains_key(dev) {
                before
            } else {
                before.insert(dev, fs)
            },
            None => before,
        }
    }
}

/// The texts of a map of strings.
pub open spec fn text_map(m: Map<u64, String>) -> Map<u64, Seq<char>> {
    m.map_values(|s: String| s@)
}

fn split_halves(line: &[char]) -> (r: Option<(Vec<char>, Vec<char>)>)
    ensures
        match r {
            Some((a, b)) => halves(line@) == Some((a@, b@)),
            None => halves(line@) is None,
        },
{
    assert(" - "@.len() == 3) by {
        reveal_strlit(" - ");
    }
    let sep = text::to_chars(" - ");
    match text::find_chars(line, &sep) {
        None => None,
        Some(i) => {
            let n: usize = line.len();
            assert(sep@.len() == 3);
            assert(i + 3 <= n);
            let rest = slice_subrange(line, i + 3, n);
            assert(rest@ =~= line@.skip(i + 3));
            match text::find_chars(rest, &sep) {
                Some(_) => None,
                None => {
                    let left = slice_subrange(line, 0, i);
                    assert(left@ =~= line@.take(i as int));
                    Some((vstd::slice::slice_to_vec(left), vstd::slice::slice_to_vec(rest)))
                },
            }
        },
    }
}

fn parse_mounted(line: &[char]) -> (r: Option<(u64, String)>)
    ensures
        match r {
            Some((dev, fs)) => mounted_type(line@) == Some((dev, fs@)),
            None => mounted_type(line@) is None,
        },
{
    let (l, r) = match split_halves(line) {
        Some(p) => p,
        None => return None,
    };
    let left = text::word_list(&l);
    let right = text::word_list(&r);
    assert(text::rows(left@).len() == left@.len());
    assert(text::rows(right@).len() == right@.len());
    if left.len() < 5 || right.len() == 0 {
        return None;
    }
    assert(text::rows(left@)[2] == left@[2]@);
    let mm = text::split_chars(&left[2], ':');
    assert(text::rows(mm@).len() == mm@.len());
    if mm.len() != 2 {
        return None;
    }
    assert(text::rows(mm@)[0] == mm@[0]@);
    assert(text::rows(mm@)[1] == mm@[1]@);
    assert(text::rows(right@)[0] == right@[0]@);
    match (text::read_unsigned(&mm[0], 0xffff_ffff), text::read_unsigned(&mm[1], 0xffff_ffff)) {
        (Some(a), Some(b)) => {
            let dev = makedev(a as u32, b as u32);
            Some((dev, text::from_chars(&right[0])))
        },
        _ => None,
    }
}

/// The type of the file system on each device, out of the mount table.
pub fn read_mount_info(content: &str) -> (r: HashMap<u64, String>)
    ensures
        text_map(r@) == mounted_types(text::lines(content@)),
{
    let cs = text::to_chars(content);
    let ls = text::line_chars(&cs);
    let ghost all = text::lines(content@);
    let mut map: HashMap<u64, String> = HashMap::new();
    let mut i: usize = 0;
    proof {
        assert(text::rows(ls@).len() == ls@.len());
        assert(text_map(map@) =~= mounted_types(all.take(0)));
    }
    while i < ls.len()
        invariant
            i <= ls@.len(),
            all == text::rows(ls@),
            text_map(map@) == mounted_types(all.take(i as int)),
        decreases ls@.len() - i,
    {
        proof {
            assert(all.take(i + 1).drop_last() =~= all.take(i as int));
            assert(all.take(i + 1).last() == ls@[i as int]@);
        }
        match parse_mounted(&ls[i]) {
            Some((dev, fs)) => {
                assert(text_map(map@).contains_key(dev) == map@.contains_key(dev));
                if !map.contains_key(&dev) {
                    let ghost before = text_map(map@);
                    map.insert(dev, fs);
                    assert(text_map(map@) =~= before.insert(dev, fs@));
                }
            },
            None => {},
        }
        i = i + 1;
    }
    proof {
        assert(all.take(i as int) =~= all);
    }
    map
}

// ---------------------------------------------------------------------------
// Classes of devices
// ---------------------------------------------------------------------------

/// Whether a file system of this type is on the network.
pub open spec fn network_fs(fs: Seq<char>) -> bool {
    let base = text::split(fs, '.')[0];
    ||| base == "nfs"@
    ||| base == "nfs4"@
    ||| base == "cifs"@
    ||| base == "smb"@
    ||| base == "smb3"@
    ||| "fuse"@.is_prefix_of(base)
}

/// The class of a device: `nfs` on the network; else `hdd` where the kernel says
/// that it rotates, and `ssd` otherwise.
pub open spec fn device_class(fs: Option<Seq<char>>, rotational: Option<Seq<char>>) -> Seq<char> {
    if fs matches Some(f) && network_fs(f) {
        "nfs"@
    } else if rotational matches Some(s) && text::trim(s) == "1"@ {
        "hdd"@
    } else {
        "ssd"@
    }
}

fn is_network_fs(fs: &str) -> (r: bool)
    ensures
        r == network_fs(fs@),
{
    let cs = text::to_chars(fs);
    let parts = text::split_chars(&cs, '.');
    proof {
        text::lemma_split_nonempty(cs@, '.');
        assert(text::rows(parts@).len() == parts@.len());
        assert(text::rows(parts@)[0] == parts@[0]@);
    }
    let base = text::from_chars(&parts[0]);
    let fuse = text::to_chars("fuse");
    text::str_eq(base.as_str(), "nfs") || text::str_eq(base.as_str(), "nfs4") || text::str_eq(
        base.as_str(),
        "cifs",
    ) || text::str_eq(base.as_str(), "smb") || text::str_eq(base.as_str(), "smb3") || text::starts_with(
        &parts[0],
        &fuse,
    )
}

/// The class of a device, from the mount table and from what its rotational flag
/// reads, if it can be read.
pub fn classify_device(dev: u64, mounts: &HashMap<u64, String>, rotational: &Option<String>) -> (r:
    String)
    ensures
        r@ == device_class(
            if mounts@.contains_key(dev) {
                Some(mounts@[dev]@)
            } else {
                None
            },
            text::opt(*rotational),
        ),
{
    match mounts.get(&dev) {
        Some(fs) => {
            if is_network_fs(fs.as_str()) {
                return "nfs".to_string();
            }
        },
        None => {},
    }
    match rotational {
        Some(s) => {
            let cs = text::to_chars(s.as_str());
            let t = text::trim_chars(&cs);
            let t = text::from_chars(t);
            if text::str_eq(t.as_str(), "1") {
                "hdd".to_string()
            } else {
                "ssd".to_string()
            }
        },
        None => "ssd".to_string(),
    }
}

/// The file that tells whether a block device rotates.
pub open spec fn rotational_file(dev: u64) -> Seq<char> {
    "/sys/dev/block/"@ + text::dec(major_of(dev) as nat) + ":"@ + text::dec(minor_of(dev) as nat)
        + "/queue/rotational"@
}

/// The file that tells whether a block device rotates.
pub fn rotational_path(dev: u64) -> (r: String)
    ensures
        r@ == rotational_file(dev),
{
    let maj = text::dec_string(dev_major(dev) as u64);
    let min = text::dec_string(dev_minor(dev) as u64);
    text::cat5("/sys/dev/block/", maj.as_str(), ":", min.as_str(), "/queue/rotational")
}

// ---------------------------------------------------------------------------
// The plan
// ---------------------------------------------------------------------------

/// What is scanned, device by device.
pub struct ScanPlan {
    pub groups: Vec<DeviceGroup>,
    pub output_dir: String,
}

/// The targets on one device.
pub struct DeviceGroup {
    pub st_dev: u64,
    pub dev_class: String,
    pub roots: Vec<PhysicalRoot>,
    pub workers: usize,
}

/// A tree that is scanned, and the targets that it serves.
pub struct PhysicalRoot {
    pub scan_path: String,
    pub views: Vec<TargetView>,
}

/// One target as a part of a scanned tree: the whole of it, or what is below a
/// prefix.
pub struct TargetView {
    pub name: String,
    pub view_path: String,
    pub prefix: Option<String>,
    pub team_map: StringHashMap<i64>,
    pub team_names: HashMap<i64, String>,
    pub output_subdir: String,
    pub end_scan: Option<String>,
    pub purge_time: Option<i64>,
    pub tree_map: Option<bool>,
    pub level: Option<i64>,
    pub workers: Option<i64>,
    pub sync_host: Option<String>,
    pub sync_dest_dir: Option<String>,
    pub sync_user: Option<String>,
    pub sync_pass: Option<bool>,
    pub webhook_url: Option<String>,
}

/// What was found of a target's device: its number, and what its rotational flag
/// reads.
pub struct Device {
    pub dev: u64,
    pub rotational: Option<String>,
}

/// The team of each user; of several entries for one user the last counts.
pub open spec fn user_teams(users: Seq<UserModel>) -> Map<Seq<char>, i64>
    decreases users.len(),
{
    if users.len() == 0 {
        Map::empty()
    } else {
        user_teams(users.drop_last()).insert(users.last().name, users.last().team_id)
    }
}

/// The name of each team; of several teams with one id the last counts.
pub open spec fn team_titles(teams: Seq<TeamModel>) -> Map<i64, Seq<char>>
    decreases teams.len(),
{
    if teams.len() == 0 {
        Map::empty()
    } else {
        team_titles(teams.drop_last()).insert(teams.last().team_id, teams.last().name)
    }
}

/// The texts of a map of names.
pub open spec fn title_map(m: Map<i64, String>) -> Map<i64, Seq<char>> {
    m.map_values(|s: String| s@)
}

/// `v` shows the target `t`, below `prefix` where there is one, with its report
/// under `out`.
pub open spec fn is_view_of(
    v: TargetView,
    t: TargetModel,
    prefix: Option<Seq<char>>,
    out: Seq<char>,
) -> bool {
    &&& v.name@ == t.name
    &&& v.view_path@ == t.path
    &&& text::opt(v.prefix) == prefix
    &&& v.team_map@ == user_teams(t.users)
    &&& title_map(v.team_names@) == team_titles(t.teams)
    &&& v.output_subdir@ == paths::joined(out, t.name)
    &&& text::opt(v.end_scan) == t.end_scan
    &&& v.purge_time == t.purge_time
    &&& v.tree_map == t.overrides.tree_map
    &&& v.level == t.overrides.level
    &&& v.workers == t.overrides.workers
    &&& text::opt(v.sync_host) == t.overrides.sync_host
    &&& text::opt(v.sync_dest_dir) == t.overrides.sync_dest_dir
    &&& text::opt(v.sync_user) == t.overrides.sync_user
    &&& v.sync_pass == t.overrides.sync_pass
    &&& text::opt(v.webhook_url) == t.overrides.webhook_url
}

/// A scanned tree: its path, and for each target that it serves the target's
/// place in the list and its prefix.
#[verifier::ext_equal]
pub struct RootModel {
    pub scan_path: Seq<char>,
    pub views: Seq<(int, Option<Seq<char>>)>,
}

/// The first tree that holds `path`, or the number of trees.
pub open spec fn first_root(roots: Seq<RootModel>, path: Seq<char>) -> int
    decreases roots.len(),
{
    if roots.len() == 0 || paths::path_below(path, roots[0].scan_path) {
        0
    } else {
        1 + first_root(roots.drop_first(), path)
    }
}

/// The trees with one more target: it is served by the first tree that holds its
/// path or, where none does, by a new one.
pub open spec fn placed(roots: Seq<RootModel>, i: int, path: Seq<char>) -> Seq<RootModel> {
    let r = first_root(roots, path);
    if r < roots.len() {
        let prefix = if paths::components(path) == paths::components(roots[r].scan_path) {
            None
        } else {
            Some(path)
        };
        roots.update(r, RootModel { views: roots[r].views.push((i, prefix)), ..roots[r] })
    } else {
        roots.push(RootModel { scan_path: path, views: seq![(i, None)] })
    }
}

/// The trees that serve the targets at the places `order`, taken in that order.
pub open spec fn place_all(ts: Seq<TargetModel>, order: Seq<int>) -> Seq<RootModel>
    decreases order.len(),
{
    if order.len() == 0 {
        Seq::empty()
    } else {
        placed(place_all(ts, order.drop_last()), order.last(), ts[order.last()].path)
    }
}

/// The device of each target.
pub open spec fn device_numbers(devices: Seq<Option<Device>>) -> Seq<Option<u64>> {
    Seq::new(
        devices.len(),
        |i: int|
            match devices[i] {
                Some(d) => Some(d.dev),
                None => None,
            },
    )
}

/// The devices in the order in which they appear.
pub open spec fn device_list(devs: Seq<Option<u64>>) -> Seq<u64>
    decreases devs.len(),
{
    if devs.len() == 0 {
        Seq::empty()
    } else {
        let before = device_list(devs.drop_last());
        match devs.last() {
            Some(d) => if before.contains(d) {
                before
            } else {
                before.push(d)
            },
            None => before,
        }
    }
}

/// The places of the targets on a device.
pub open spec fn on_device(devs: Seq<Option<u64>>, d: u64) -> Seq<int>
    decreases devs.len(),
{
    if devs.len() == 0 {
        Seq::empty()
    } else {
        let before = on_device(devs.drop_last(), d);
        if devs.last() == Some(d) {
            before.push(devs.len() - 1)
        } else {
            before
        }
    }
}

/// The length of a path in bytes.
pub open spec fn byte_len(path: Seq<char>) -> nat {
    vstd::utf8::encode_utf8(path).len()
}

/// The shorter path comes first.
pub open spec fn shorter(ts: Seq<TargetModel>, list: Seq<int>) -> spec_fn(int, int) -> bool {
    |a: int, b: int| byte_len(ts[list[a]].path) < byte_len(ts[list[b]].path)
}

/// The places `list` in the order `p`.
pub open spec fn reordered(list: Seq<int>, p: Seq<usize>) -> Seq<int> {
    Seq::new(p.len(), |x: int| list[p[x] as int])
}

/// `r` is the tree `m`.
pub open spec fn is_root(
    r: PhysicalRoot,
    m: RootModel,
    ts: Seq<TargetModel>,
    out: Seq<char>,
) -> bool {
    &&& r.scan_path@ == m.scan_path
    &&& r.views@.len() == m.views.len()
    &&& forall|k: int|
        0 <= k < m.views.len() ==> is_view_of(
            #[trigger] r.views@[k],
            ts[m.views[k].0],
            m.views[k].1,
            out,
        )
}

/// `rs` are the trees `ms`.
pub open spec fn are_roots(
    rs: Seq<PhysicalRoot>,
    ms: Seq<RootModel>,
    ts: Seq<TargetModel>,
    out: Seq<char>,
) -> bool {
    &&& rs.len() == ms.len()
    &&& forall|k: int| 0 <= k < ms.len() ==> is_root(#[trigger] rs[k], ms[k], ts, out)
}

/// The smaller of a worker count and a cap.
pub open spec fn capped(w: int, cap: int) -> int {
    if cap < w {
        cap
    } else {
        w
    }
}

/// The workers of a device: its share of the budget, within the cap of its class;
/// and the whole budget where the number of workers was asked for.
pub open spec fn device_workers(
    config: &Config,
    class: Seq<char>,
    budget: int,
    devices: int,
    explicit: bool,
) -> int {
    let n = if devices > 1 {
        devices
    } else {
        1
    };
    let share = if budget / n > 1 {
        budget / n
    } else {
        1
    };
    if explicit {
        if budget > 1 {
            budget
        } else {
            1
        }
    } else if class == "nfs"@ {
        capped(
            share,
            if config.nfs_parallel > 1 {
                config.nfs_parallel as int
            } else {
                1
            },
        )
    } else if class == "hdd"@ {
        capped(
            share,
            if config.hdd_parallel > 1 {
                config.hdd_parallel as int
            } else {
                1
            },
        )
    } else if class == "ssd"@ && config.ssd_parallel > 0 {
        capped(share, config.ssd_parallel as int)
    } else {
        share
    }
}

/// The class of a device, by what was found of the first target on it.
pub open spec fn class_on(
    devices: Seq<Option<Device>>,
    mounts: Map<u64, String>,
    d: u64,
) -> Seq<char> {
    let first = on_device(device_numbers(devices), d)[0];
    device_class(
        if mounts.contains_key(d) {
            Some(mounts[d]@)
        } else {
            None
        },
        text::opt(devices[first]->0.rotational),
    )
}

/// `g` is the group of the device `d`: its targets by the length of their paths,
/// each served by the first tree that holds it.
pub open spec fn is_group(
    g: DeviceGroup,
    config: &Config,
    devices: Seq<Option<Device>>,
    mounts: Map<u64, String>,
    budget: int,
    explicit: bool,
    d: u64,
) -> bool {
    let ts = config.model();
    let devs = device_numbers(devices);
    let list = on_device(devs, d);
    &&& g.st_dev == d
    &&& g.dev_class@ == class_on(devices, mounts, d)
    &&& g.workers == device_workers(
        config,
        g.dev_class@,
        budget,
        device_list(devs).len() as int,
        explicit,
    )
    &&& exists|p: Seq<usize>| #[trigger]
        order::sorted_range(p, 0, list.len() as int, shorter(ts, list)) && are_roots(
            g.roots@,
            place_all(ts, reordered(list, p)),
            ts,
            config.output_dir@,
        )
}

fn teams_of_users(users: &Vec<User>) -> (r: StringHashMap<i64>)
    ensures
        r@ == user_teams(config::user_views(users@)),
{
    let ghost all = config::user_views(users@);
    let mut map: StringHashMap<i64> = StringHashMap::new();
    let mut i: usize = 0;
    assert(map@ =~= user_teams(all.take(0)));
    while i < users.len()
        invariant
            i <= users.len(),
            all == config::user_views(users@),
            map@ == user_teams(all.take(i as int)),
        decreases users.len() - i,
    {
        proof {
            assert(all.take(i + 1).drop_last() =~= all.take(i as int));
            assert(all.take(i + 1).last() == all[i as int]);
        }
        map.insert(users[i].name.clone(), users[i].team_id);
        i = i + 1;
    }
    proof {
        assert(all.take(i as int) =~= all);
    }
    map
}

fn titles_of_teams(teams: &Vec<Team>) -> (r: HashMap<i64, String>)
    ensures
        title_map(r@) == team_titles(config::team_views(teams@)),
{
    let ghost all = config::team_views(teams@);
    let mut map: HashMap<i64, String> = HashMap::new();
    let mut i: usize = 0;
    assert(title_map(map@) =~= team_titles(all.take(0)));
    while i < teams.len()
        invariant
            i <= teams.len(),
            all == config::team_views(teams@),
            title_map(map@) == team_titles(all.take(i as int)),
        decreases teams.len() - i,
    {
        proof {
            assert(all.take(i + 1).drop_last() =~= all.take(i as int));
            assert(all.take(i + 1).last() == all[i as int]);
        }
        let ghost before = title_map(map@);
        map.insert(teams[i].team_id, teams[i].name.clone());
        assert(title_map(map@) =~= before.insert(all[i as int].team_id, all[i as int].name));
        i = i + 1;
    }
    proof {
        assert(all.take(i as int) =~= all);
    }
    map
}

fn make_view(t: &Target, prefix: Option<String>, output_dir: &str) -> (r: TargetView)
    ensures
        is_view_of(r, t@, text::opt(prefix), output_dir@),
{
    TargetView {
        name: t.name.clone(),
        view_path: t.path.clone(),
        prefix,
        team_map: teams_of_users(&t.users),
        team_names: titles_of_teams(&t.teams),
        output_subdir: paths::join_path(output_dir, t.name.as_str()),
        end_scan: text::copy_opt(&t.end_scan),
        purge_time: t.purge_time,
        tree_map: t.tree_map,
        level: t.level,
        workers: t.workers,
        sync_host: text::copy_opt(&t.sync_host),
        sync_dest_dir: text::copy_opt(&t.sync_dest_dir),
        sync_user: text::copy_opt(&t.sync_user),
        sync_pass: t.sync_pass,
        webhook_url: text::copy_opt(&t.webhook_url),
    }
}

proof fn lemma_first_root(roots: Seq<RootModel>, path: Seq<char>, r: int)
    requires
        0 <= r <= roots.len(),
        forall|k: int| 0 <= k < r ==> !paths::path_below(path, (#[trigger] roots[k]).scan_path),
        r < roots.len() ==> paths::path_below(path, roots[r].scan_path),
    ensures
        first_root(roots, path) == r,
    decreases roots.len(),
{
    if roots.len() > 0 && r > 0 {
        assert(!paths::path_below(path, roots[0].scan_path));
        let rest = roots.drop_first();
        assert forall|k: int| 0 <= k < r - 1 implies !paths::path_below(
            path,
            (#[trigger] rest[k]).scan_path,
        ) by {
            assert(rest[k] == roots[k + 1]);
        }
        lemma_first_root(rest, path, r - 1);
    }
}

/// Puts one target into the trees.
fn place_target(
    roots: &mut Vec<PhysicalRoot>,
    config: &Config,
    i: usize,
    Ghost(ms): Ghost<Seq<RootModel>>,
)
    requires
        i < config.targets@.len(),
        are_roots(old(roots)@, ms, config.model(), config.output_dir@),
    ensures
        are_roots(
            final(roots)@,
            placed(ms, i as int, config.model()[i as int].path),
            config.model(),
            config.output_dir@,
        ),
{
    let ghost ts = config.model();
    let ghost out = config.output_dir@;
    let t: &Target = &config.targets[i];
    let ghost path = t.path@;
    let mut r: usize = 0;
    while r < roots.len() && !paths::path_starts_with(t.path.as_str(), roots[r].scan_path.as_str())
        invariant
            r <= roots@.len(),
            roots@ == old(roots)@,
            are_roots(roots@, ms, ts, out),
            path == t.path@,
            forall|k: int| 0 <= k < r ==> !paths::path_below(path, (#[trigger] ms[k]).scan_path),
        decreases roots@.len() - r,
    {
        assert(is_root(roots@[r as int], ms[r as int], ts, out));
        r = r + 1;
    }
    proof {
        if r < roots@.len() {
            assert(is_root(roots@[r as int], ms[r as int], ts, out));
        }
        lemma_first_root(ms, path, r as int);
    }
    if r < roots.len() {
        let whole = paths::path_starts_with(roots[r].scan_path.as_str(), t.path.as_str());
        proof {
            let a = paths::components(path);
            let b = paths::components(ms[r as int].scan_path);
            if whole {
                assert(a =~= b);
            } else {
                assert(a.is_prefix_of(a)) by {
                    assert(a.subrange(0, a.len() as int) =~= a);
                }
            }
        }
        let prefix: Option<String> = if whole {
            None
        } else {
            Some(t.path.clone())
        };
        let ghost p = text::opt(prefix);
        let view = make_view(t, prefix, config.output_dir.as_str());
        let ghost old_root = roots@[r as int];
        let root: &mut PhysicalRoot = &mut roots[r];
        root.views.push(view);
        proof {
            let now = placed(ms, i as int, path);
            assert(roots@[r as int].views@ =~= old_root.views@.push(view));
            assert(roots@ =~= old(roots)@.update(r as int, roots@[r as int]));
            assert forall|k: int| 0 <= k < now.len() implies is_root(
                #[trigger] roots@[k],
                now[k],
                ts,
                out,
            ) by {
                if k == r {
                    assert(is_root(old_root, ms[k], ts, out));
                    assert forall|x: int| 0 <= x < now[k].views.len() implies is_view_of(
                        #[trigger] roots@[k].views@[x],
                        ts[now[k].views[x].0],
                        now[k].views[x].1,
                        out,
                    ) by {
                        if x < ms[k].views.len() {
                            assert(roots@[k].views@[x] == old_root.views@[x]);
                        }
                    }
                } else {
                    assert(is_root(old(roots)@[k], ms[k], ts, out));
                }
            }
        }
    } else {
        let view = make_view(t, None, config.output_dir.as_str());
        let mut views: Vec<TargetView> = Vec::new();
        views.push(view);
        roots.push(PhysicalRoot { scan_path: t.path.clone(), views });
        proof {
            let now = placed(ms, i as int, path);
            assert forall|k: int| 0 <= k < now.len() implies is_root(
                #[trigger] roots@[k],
                now[k],
                ts,
                out,
            ) by {
                if k < ms.len() {
                    assert(roots@[k] == old(roots)@[k]);
                    assert(is_root(old(roots)@[k], ms[k], ts, out));
                }
            }
        }
    }
}

fn cap_workers(w: usize, cap: i64) -> (r: usize)
    requires
        cap >= 1,
    ensures
        r == capped(w as int, cap as int),
{
    if (cap as u64) < (w as u64) {
        cap as usize
    } else {
        w
    }
}

fn workers_for(
    config: &Config,
    class: &str,
    budget: usize,
    devices: usize,
    explicit_workers: bool,
) -> (r: usize)
    ensures
        r == device_workers(config, class@, budget as int, devices as int, explicit_workers),
{
    let n: usize = if devices > 1 {
        devices
    } else {
        1
    };
    let share: usize = if budget / n > 1 {
        budget / n
    } else {
        1
    };
    if explicit_workers {
        if budget > 1 {
            budget
        } else {
            1
        }
    } else if text::str_eq(class, "nfs") {
        cap_workers(
            share,
            if config.nfs_parallel > 1 {
                config.nfs_parallel
            } else {
                1
            },
        )
    } else if text::str_eq(class, "hdd") {
        cap_workers(
            share,
            if config.hdd_parallel > 1 {
                config.hdd_parallel
            } else {
                1
            },
        )
    } else if text::str_eq(class, "ssd") && config.ssd_parallel > 0 {
        cap_workers(share, config.ssd_parallel)
    } else {
        share
    }
}

fn devices_of(devices: &Vec<Option<Device>>) -> (r: Vec<u64>)
    ensures
        r@ == device_list(device_numbers(devices@)),
{
    let ghost all = device_numbers(devices@);
    let mut out: Vec<u64> = Vec::new();
    let mut i: usize = 0;
    assert(out@ =~= device_list(all.take(0)));
    while i < devices.len()
        invariant
            i <= devices.len(),
            all == device_numbers(devices@),
            out@ == device_list(all.take(i as int)),
        decreases devices.len() - i,
    {
        proof {
            assert(all.take(i + 1).drop_last() =~= all.take(i as int));
            assert(all.take(i + 1).last() == all[i as int]);
        }
        match &devices[i] {
            Some(d) => {
                let dev: u64 = d.dev;
                let mut k: usize = 0;
                while k < out.len() && out[k] != dev
                    invariant
                        k <= out@.len(),
                        forall|j: int| 0 <= j < k ==> out@[j] != dev,
                    decreases out@.len() - k,
                {
                    k = k + 1;
                }
                if k == out.len() {
                    assert(!out@.contains(dev));
                    out.push(dev);
                } else {
                    assert(out@[k as int] == dev);
                    assert(out@.contains(dev));
                }
            },
            None => {},
        }
        i = i + 1;
    }
    proof {
        assert(all.take(i as int) =~= all);
    }
    out
}

/// Places as integers.
spec fn ints(v: Seq<usize>) -> Seq<int> {
    Seq::new(v.len(), |i: int| v[i] as int)
}

fn targets_on(devices: &Vec<Option<Device>>, dev: u64) -> (r: Vec<usize>)
    ensures
        ints(r@) == on_device(device_numbers(devices@), dev),
        forall|k: int| 0 <= k < r.len() ==> #[trigger] r@[k] < devices.len(),
{
    let ghost all = device_numbers(devices@);
    let mut out: Vec<usize> = Vec::new();
    let mut i: usize = 0;
    assert(ints(out@) =~= on_device(all.take(0), dev));
    while i < devices.len()
        invariant
            i <= devices.len(),
            all == device_numbers(devices@),
            ints(out@) == on_device(all.take(i as int), dev),
            forall|k: int| 0 <= k < out.len() ==> #[trigger] out@[k] < devices.len(),
        decreases devices.len() - i,
    {
        proof {
            assert(all.take(i + 1).drop_last() =~= all.take(i as int));
            assert(all.take(i + 1).last() == all[i as int]);
        }
        match &devices[i] {
            Some(d) => {
                if d.dev == dev {
                    let ghost before = ints(out@);
                    out.push(i);
                    assert(ints(out@) =~= before.push(i as int));
                }
            },
            None => {},
        }
        i = i + 1;
    }
    proof {
        assert(all.take(i as int) =~= all);
    }
    out
}

proof fn lemma_on_device(devs: Seq<Option<u64>>)
    ensures
        forall|d: u64| #[trigger] device_list(devs).contains(d) <==> on_device(devs, d).len() > 0,
        forall|d: u64, k: int|
            #![trigger on_device(devs, d)[k]]
            0 <= k < on_device(devs, d).len() ==> {
                &&& 0 <= on_device(devs, d)[k] < devs.len()
                &&& devs[on_device(devs, d)[k]] == Some(d)
            },
    decreases devs.len(),
{
    if devs.len() > 0 {
        let rest = devs.drop_last();
        lemma_on_device(rest);
        let before = device_list(rest);
        let now = device_list(devs);
        assert forall|d: u64| #[trigger] now.contains(d) <==> on_device(devs, d).len() > 0 by {
            assert(before.contains(d) <==> on_device(rest, d).len() > 0);
            match devs.last() {
                Some(x) => {
                    if !before.contains(x) {
                        assert(now == before.push(x));
                        assert(now[before.len() as int] == x);
                        if before.contains(d) {
                            let k = choose|k: int| 0 <= k < before.len() && before[k] == d;
                            assert(now[k] == d);
                        }
                        if now.contains(d) {
                            let k = choose|k: int| 0 <= k < now.len() && now[k] == d;
                            if k < before.len() {
                                assert(before[k] == d);
                            }
                        }
                    }
                },
                None => {},
            }
        }
        assert forall|d: u64, k: int|
            #![trigger on_device(devs, d)[k]]
            0 <= k < on_device(devs, d).len() implies {
            &&& 0 <= on_device(devs, d)[k] < devs.len()
            &&& devs[on_device(devs, d)[k]] == Some(d)
        } by {
            if k < on_device(rest, d).len() {
                assert(on_device(devs, d)[k] == on_device(rest, d)[k]);
                assert(rest[on_device(rest, d)[k]] == Some(d));
            }
        }
    }
}

fn build_roots(config: &Config, list: &Vec<usize>) -> (r: Vec<PhysicalRoot>)
    requires
        forall|k: int| 0 <= k < list.len() ==> #[trigger] list@[k] < config.targets@.len(),
    ensures
        exists|p: Seq<usize>| #[trigger]
            order::sorted_range(p, 0, list.len() as int, shorter(config.model(), ints(list@)))
                && are_roots(
                r@,
                place_all(config.model(), reordered(ints(list@), p)),
                config.model(),
                config.output_dir@,
            ),
{
    let ghost ts = config.model();
    let ghost is = ints(list@);
    let n: usize = list.len();
    let less = |a: usize, b: usize| -> (r: bool)
        requires
            a < list@.len(),
            b < list@.len(),
            forall|k: int| 0 <= k < list@.len() ==> #[trigger] list@[k] < config.targets@.len(),
        ensures
            r == (byte_len(config.targets@[list@[a as int] as int].path@) < byte_len(
                config.targets@[list@[b as int] as int].path@,
            )),
        {
            let x = config.targets[list[a]].path.as_str().as_bytes().len();
            let y = config.targets[list[b]].path.as_str().as_bytes().len();
            x < y
        };
    let ghost lt = shorter(ts, is);
    let p = order::sort_indices(n, &less, Ghost(lt));
    let ghost order = reordered(is, p@);
    let mut roots: Vec<PhysicalRoot> = Vec::new();
    let mut k: usize = 0;
    while k < p.len()
        invariant
            k <= p@.len(),
            p@.len() == list@.len(),
            ts == config.model(),
            is == ints(list@),
            order == reordered(is, p@),
            forall|x: int| 0 <= x < p@.len() ==> 0 <= #[trigger] p@[x] < list@.len(),
            forall|x: int| 0 <= x < list.len() ==> #[trigger] list@[x] < config.targets@.len(),
            are_roots(roots@, place_all(ts, order.take(k as int)), ts, config.output_dir@),
        decreases p@.len() - k,
    {
        proof {
            assert(order.take(k + 1).drop_last() =~= order.take(k as int));
            assert(order.take(k + 1).last() == list@[p@[k as int] as int] as int);
        }
        let i: usize = list[p[k]];
        place_target(&mut roots, config, i, Ghost(place_all(ts, order.take(k as int))));
        k = k + 1;
    }
    proof {
        assert(order.take(k as int) =~= order);
        assert(order::sorted_range(p@, 0, list.len() as int, shorter(ts, is)));
    }
    roots
}

/// The scan plan. `devices` holds what was found of each target's device, and
/// nothing for a target that cannot be reached, which is left out. Where
/// `explicit_workers` is set the number of workers was asked for: no cap applies,
/// and every device gets the whole budget.
pub fn build_scan_plan(
    config: &Config,
    devices: &Vec<Option<Device>>,
    mounts: &HashMap<u64, String>,
    budget: usize,
    explicit_workers: bool,
) -> (r: ScanPlan)
    requires
        devices@.len() == config.targets@.len(),
    ensures
        r.output_dir@ == config.output_dir@,
        r.groups@.len() == device_list(device_numbers(devices@)).len(),
        forall|g: int|
            0 <= g < r.groups@.len() ==> is_group(
                #[trigger] r.groups@[g],
                config,
                devices@,
                mounts@,
                budget as int,
                explicit_workers,
                device_list(device_numbers(devices@))[g],
            ),
{
    let ghost devs = device_numbers(devices@);
    let list = devices_of(devices);
    let mut groups: Vec<DeviceGroup> = Vec::new();
    let mut g: usize = 0;
    while g < list.len()
        invariant
            g <= list@.len(),
            devs == device_numbers(devices@),
            list@ == device_list(devs),
            devices@.len() == config.targets@.len(),
            groups@.len() == g,
            forall|k: int|
                0 <= k < g ==> is_group(
                    #[trigger] groups@[k],
                    config,
                    devices@,
                    mounts@,
                    budget as int,
                    explicit_workers,
                    list@[k],
                ),
        decreases list@.len() - g,
    {
        let dev: u64 = list[g];
        let on = targets_on(devices, dev);
        proof {
            lemma_on_device(devs);
            assert(list@.contains(dev));
            assert(ints(on@).len() == on@.len());
            let first = on_device(devs, dev)[0];
            assert(ints(on@)[0] == on@[0] as int);
            assert(devs[first] == Some(dev));
        }
        let none: Option<String> = None;
        let rotational: &Option<String> = match &devices[on[0]] {
            Some(d) => &d.rotational,
            None => &none,
        };
        let class = classify_device(dev, mounts, rotational);
        let workers = workers_for(config, class.as_str(), budget, list.len(), explicit_workers);
        let roots = build_roots(config, &on);
        groups.push(DeviceGroup { st_dev: dev, dev_class: class, roots, workers });
        g = g + 1;
    }
    ScanPlan { groups, output_dir: config.output_dir.clone() }
}

// ---------------------------------------------------------------------------
// Laws
// ---------------------------------------------------------------------------

/// How many targets the trees serve.
pub open spec fn served(roots: Seq<RootModel>) -> nat
    decreases roots.len(),
{
    if roots.len() == 0 {
        0
    } else {
        served(roots.drop_last()) + roots.last().views.len()
    }
}

/// A target is served by one of the trees.
pub open spec fn is_served(roots: Seq<RootModel>, i: int) -> bool {
    exists|r: int, k: int|
        0 <= r < roots.len() && 0 <= k < roots[r].views.len() && (#[trigger] roots[r].views[k]).0
            == i
}

/// Each tree holds what it serves, and a target has a prefix just where it is
/// not the whole tree.
pub open spec fn views_fit(ts: Seq<TargetModel>, roots: Seq<RootModel>) -> bool {
    forall|r: int, k: int|
        0 <= r < roots.len() && 0 <= k < roots[r].views.len() ==> {
            let v = #[trigger] roots[r].views[k];
            let path = ts[v.0].path;
            &&& paths::path_below(path, roots[r].scan_path)
            &&& v.1 == (if paths::components(path) == paths::components(roots[r].scan_path) {
                None
            } else {
                Some(path)
            })
        }
}

proof fn lemma_served_update(roots: Seq<RootModel>, r: int, m: RootModel)
    requires
        0 <= r < roots.len(),
    ensures
        served(roots.update(r, m)) == served(roots) - roots[r].views.len() + m.views.len(),
    decreases roots.len(),
{
    let now = roots.update(r, m);
    if r < roots.len() - 1 {
        assert(now.drop_last() =~= roots.drop_last().update(r, m));
        lemma_served_update(roots.drop_last(), r, m);
    } else {
        assert(now.drop_last() =~= roots.drop_last());
    }
}

proof fn lemma_first_root_is(roots: Seq<RootModel>, path: Seq<char>)
    ensures
        0 <= first_root(roots, path) <= roots.len(),
        first_root(roots, path) < roots.len() ==> paths::path_below(
            path,
            roots[first_root(roots, path)].scan_path,
        ),
        forall|k: int|
            0 <= k < first_root(roots, path) ==> !paths::path_below(
                path,
                (#[trigger] roots[k]).scan_path,
            ),
    decreases roots.len(),
{
    if roots.len() > 0 && !paths::path_below(path, roots[0].scan_path) {
        let rest = roots.drop_first();
        lemma_first_root_is(rest, path);
        assert forall|k: int| 0 <= k < first_root(roots, path) implies !paths::path_below(
            path,
            (#[trigger] roots[k]).scan_path,
        ) by {
            if k > 0 {
                assert(rest[k - 1] == roots[k]);
            }
        }
    }
}

/// The trees serve as many targets as were placed, each of those among them;
/// every tree holds what it serves; and no tree lies in an earlier one.
pub proof fn law_targets_are_served_once(ts: Seq<TargetModel>, order: Seq<int>)
    ensures
        served(place_all(ts, order)) == order.len(),
        forall|x: int|
            0 <= x < order.len() ==> is_served(place_all(ts, order), #[trigger] order[x]),
        views_fit(ts, place_all(ts, order)),
        forall|i: int, j: int|
            0 <= i < j < place_all(ts, order).len() ==> !paths::path_below(
                (#[trigger] place_all(ts, order)[j]).scan_path,
                (#[trigger] place_all(ts, order)[i]).scan_path,
            ),
    decreases order.len(),
{
    if order.len() > 0 {
        let rest = order.drop_last();
        let t = order.last();
        let path = ts[t].path;
        law_targets_are_served_once(ts, rest);
        lemma_first_root_is(place_all(ts, rest), path);
        paths::law_path_below_is_an_order(path, path, path);
        let before = place_all(ts, rest);
        let now = place_all(ts, order);
        let r = first_root(before, path);
        if r < before.len() {
            lemma_served_update(before, r, now[r]);
        } else {
            assert(now.drop_last() =~= before);
        }
        assert forall|x: int| 0 <= x < order.len() implies is_served(now, #[trigger] order[x]) by {
            if x < rest.len() {
                assert(rest[x] == order[x]);
                assert(is_served(before, rest[x]));
                let (a, k) = choose|a: int, k: int|
                    0 <= a < before.len() && 0 <= k < before[a].views.len() && (
                    #[trigger] before[a].views[k]).0 == order[x];
                assert(now[a].views[k] == before[a].views[k]);
            } else if r < before.len() {
                assert(now[r].views[before[r].views.len() as int].0 == t);
            } else {
                assert(now[r].views[0].0 == t);
            }
        }
        assert forall|a: int, k: int|
            0 <= a < now.len() && 0 <= k < now[a].views.len() implies {
            let v = #[trigger] now[a].views[k];
            let p = ts[v.0].path;
            &&& paths::path_below(p, now[a].scan_path)
            &&& v.1 == (if paths::components(p) == paths::components(now[a].scan_path) {
                None
            } else {
                Some(p)
            })
        } by {
            if a < before.len() && k < before[a].views.len() {
                assert(now[a].views[k] == before[a].views[k]);
            }
        }
        assert forall|i: int, j: int| 0 <= i < j < now.len() implies !paths::path_below(
            (#[trigger] now[j]).scan_path,
            (#[trigger] now[i]).scan_path,
        ) by {
            assert(now[i].scan_path == before[i].scan_path);
            if j < before.len() {
                assert(now[j].scan_path == before[j].scan_path);
            }
        }
    }
}

/// Every target that can be reached is on just one of the listed devices.
pub proof fn law_devices_share_out_the_targets(devs: Seq<Option<u64>>)
    ensures
        device_list(devs).no_duplicates(),
        forall|i: int|
            0 <= i < devs.len() ==> ((#[trigger] devs[i]) matches Some(d) ==> device_list(
                devs,
            ).contains(d) && on_device(devs, d).contains(i)),
        forall|d: u64, k: int|
            0 <= k < on_device(devs, d).len() ==> devs[#[trigger] on_device(devs, d)[k]] == Some(
                d,
            ),
        forall|d: u64| #[trigger] on_device(devs, d).no_duplicates(),
    decreases devs.len(),
{
    lemma_on_device(devs);
    if devs.len() > 0 {
        let rest = devs.drop_last();
        law_devices_share_out_the_targets(rest);
        lemma_on_device(rest);
        let before = device_list(rest);
        let now = device_list(devs);
        if devs.last() is Some && !before.contains(devs.last()->0) {
            let x = devs.last()->0;
            assert(now == before.push(x));
            assert forall|i: int, j: int|
                0 <= i < now.len() && 0 <= j < now.len() && i != j implies now[i] != now[j] by {
                if i < before.len() {
                    assert(before.contains(before[i]));
                }
                if j < before.len() {
                    assert(before.contains(before[j]));
                }
            }
        }
        assert forall|i: int| 0 <= i < devs.len() implies ((#[trigger] devs[i]) matches Some(d)
            ==> now.contains(d) && on_device(devs, d).contains(i)) by {
            if devs[i] is Some {
                let d = devs[i]->0;
                if i < rest.len() {
                    assert(rest[i] == Some(d));
                    assert(on_device(rest, d).contains(i));
                    let k = choose|k: int|
                        0 <= k < on_device(rest, d).len() && on_device(rest, d)[k] == i;
                    assert(on_device(devs, d)[k] == i);
                } else {
                    assert(on_device(devs, d)[on_device(rest, d).len() as int] == i);
                }
            }
        }
        assert forall|d: u64| #[trigger] on_device(devs, d).no_duplicates() by {
            let a = on_device(rest, d);
            let b = on_device(devs, d);
            assert(a.no_duplicates());
            assert forall|i: int, j: int|
                0 <= i < b.len() && 0 <= j < b.len() && i != j implies b[i] != b[j] by {
                if i < a.len() {
                    assert(b[i] == a[i]);
                    assert(0 <= a[i] < rest.len());
                }
                if j < a.len() {
                    assert(b[j] == a[j]);
                    assert(0 <= a[j] < rest.len());
                }
            }
        }
    }
}

/// Every device gets a worker. Where workers were asked for each device gets as
/// many; else the caps hold, and together the devices get no more than the budget,
/// but for one worker each.
pub proof fn law_worker_shares(
    config: &Config,
    class: Seq<char>,
    budget: int,
    devices: int,
    explicit: bool,
)
    requires
        budget >= 0,
        devices >= 1,
    ensures
        ({
            let w = device_workers(config, class, budget, devices, explicit);
            &&& w >= 1
            &&& explicit && budget >= 1 ==> w == budget
            &&& !explicit && class == "nfs"@ && config.nfs_parallel >= 1 ==> w
                <= config.nfs_parallel
            &&& !explicit && class == "hdd"@ && config.hdd_parallel >= 1 ==> w
                <= config.hdd_parallel
            &&& !explicit && class == "ssd"@ && config.ssd_parallel >= 1 ==> w
                <= config.ssd_parallel
            &&& !explicit ==> w == 1 || w * devices <= budget
        }),
{
    reveal_strlit("nfs");
    reveal_strlit("hdd");
    reveal_strlit("ssd");
    assert("nfs"@[0] != "hdd"@[0]);
    assert("nfs"@[0] != "ssd"@[0]);
    assert("hdd"@[0] != "ssd"@[0]);
    let w = device_workers(config, class, budget, devices, explicit);
    let share = if budget / devices > 1 {
        budget / devices
    } else {
        1
    };
    if !explicit {
        assert(w <= share);
        if w > 1 {
            assert(w * devices <= budget) by (nonlinear_arith)
                requires
                    1 < w <= budget / devices,
                    devices >= 1,
            ;
        }
    }
}

/// What stands before the first dot of a file system's type tells whether it is on the
/// network: the kinds of NFS, CIFS and SMB are, and whatever begins with `fuse`.
pub proof fn law_network_file_systems(fs: Seq<char>, base: Seq<char>, rest: Seq<char>)
    requires
        !base.contains('.'),
        fs == base || fs == base + seq!['.'] + rest,
    ensures
        network_fs(fs) <==> base == "nfs"@ || base == "nfs4"@ || base == "cifs"@ || base == "smb"@
            || base == "smb3"@ || (base.len() >= 4 && base.take(4) == seq!['f', 'u', 's', 'e']),
{
    lemma_before_dot(fs, base, rest);
    reveal_strlit("fuse");
    let f = "fuse"@;
    assert(f =~= seq!['f', 'u', 's', 'e']);
    if base.len() >= 4 {
        if f.is_prefix_of(base) {
            assert(base.take(4) =~= f);
        }
        if base.take(4) == f {
            assert forall|i: int| 0 <= i < f.len() implies f[i] == base[i] by {
                assert(base.take(4)[i] == base[i]);
            }
            assert(f.is_prefix_of(base));
        }
    }
}

proof fn lemma_before_dot(fs: Seq<char>, base: Seq<char>, rest: Seq<char>)
    requires
        !base.contains('.'),
        fs == base || fs == base + seq!['.'] + rest,
    ensures
        text::split(fs, '.')[0] == base,
{
    text::lemma_split_nonempty(fs, '.');
    text::lemma_find(fs, '.');
    let f = text::find(fs, '.');
    if fs == base {
        if 0 <= f < fs.len() {
            assert(base.contains(fs[f]));
        }
    } else {
        let n = base.len() as int;
        assert(fs[n] == '.');
        if f < n {
            assert(base[f] == fs[f]);
            assert(base.contains(base[f]));
        }
        assert(fs.take(n) =~= base);
    }
}

/// A device is `nfs` where its file system is on the network, whatever its flag reads;
/// else `hdd` exactly where the flag reads `1` between blanks, and `ssd` otherwise, also
/// where nothing is known of it.
pub proof fn law_device_classes(fs: Option<Seq<char>>, rotational: Option<Seq<char>>)
    ensures
        fs is Some && network_fs(fs->0) ==> device_class(fs, rotational) == "nfs"@,
        !(fs is Some && network_fs(fs->0)) && rotational is Some && text::trim(rotational->0)
            == seq!['1'] ==> device_class(fs, rotational) == "hdd"@,
        !(fs is Some && network_fs(fs->0)) && (rotational is None || text::trim(rotational->0)
            != seq!['1']) ==> device_class(fs, rotational) == "ssd"@,
{
    reveal_strlit("1");
    assert("1"@ =~= seq!['1']);
}

/// A device gets no fewer workers than it may: without a number that was asked for it
/// gets its whole share of the budget, at least one worker, unless the cap of its class
/// is below that, and then it gets the cap.
pub proof fn law_workers_are_not_held_back(
    config: &Config,
    class: Seq<char>,
    budget: int,
    devices: int,
    w: int,
)
    requires
        budget >= 0,
        devices >= 1,
        w == device_workers(config, class, budget, devices, false),
        class == "nfs"@ || class == "hdd"@ || class == "ssd"@,
    ensures
        (w + 1) * devices > budget || (class == "nfs"@ && (w == config.nfs_parallel || (w == 1
            && config.nfs_parallel <= 1))) || (class == "hdd"@ && (w == config.hdd_parallel || (w
            == 1 && config.hdd_parallel <= 1))) || (class == "ssd"@ && w == config.ssd_parallel),
{
    reveal_strlit("nfs");
    reveal_strlit("hdd");
    reveal_strlit("ssd");
    assert("nfs"@[0] != "hdd"@[0]);
    assert("nfs"@[0] != "ssd"@[0]);
    assert("hdd"@[0] != "ssd"@[0]);
    let share = if budget / devices > 1 {
        budget / devices
    } else {
        1
    };
    assert((share + 1) * devices > budget) by (nonlinear_arith)
        requires
            share >= budget / devices,
            devices >= 1,
    ;
}

/// The targets of a device are placed with the shorter path first, so that a tree is
/// there before what lies in it, and none is left out.
pub proof fn law_short_paths_are_placed_first(
    ts: Seq<TargetModel>,
    list: Seq<int>,
    p: Seq<usize>,
    a: int,
    b: int,
)
    requires
        order::sorted_range(p, 0, list.len() as int, shorter(ts, list)),
        0 <= a < b < list.len(),
    ensures
        reordered(list, p).len() == list.len(),
        byte_len(ts[reordered(list, p)[a]].path) <= byte_len(ts[reordered(list, p)[b]].path),
        forall|i: usize| i < list.len() ==> reordered(list, p).contains(#[trigger] list[i as int]),
{
    assert(order::before(shorter(ts, list), p[a] as int, p[b] as int));
    assert forall|i: usize| i < list.len() implies reordered(list, p).contains(
        #[trigger] list[i as int],
    ) by {
        assert(p.contains(i));
        let x = choose|x: int| 0 <= x < p.len() && p[x] == i;
        assert(reordered(list, p)[x] == list[i as int]);
    }
}

/// Of several entries for one user the last gives the team, and of several teams with one
/// id the last gives the name.
pub proof fn law_last_entries_count(users: Seq<UserModel>, teams: Seq<TeamModel>, i: int, j: int)
    ensures
        0 <= i < users.len() && (forall|k: int|
            i < k < users.len() ==> (#[trigger] users[k]).name != users[i].name) ==> user_teams(
            users,
        ).contains_key(users[i].name) && user_teams(users)[users[i].name] == users[i].team_id,
        0 <= j < teams.len() && (forall|k: int|
            j < k < teams.len() ==> (#[trigger] teams[k]).team_id != teams[j].team_id)
            ==> team_titles(teams).contains_key(teams[j].team_id)
            && team_titles(teams)[teams[j].team_id] == teams[j].name,
    decreases users.len() + teams.len(),
{
    if 0 <= i < users.len() - 1 {
        let head = users.drop_last();
        law_last_entries_count(head, Seq::empty(), i, -1);
        assert(head[i] == users[i]);
        if forall|k: int| i < k < users.len() ==> (#[trigger] users[k]).name != users[i].name {
            assert(users[users.len() - 1].name != users[i].name);
            assert forall|k: int| i < k < head.len() implies (#[trigger] head[k]).name
                != head[i].name by {
                assert(head[k] == users[k]);
            }
        }
    }
    if 0 <= j < teams.len() - 1 {
        let head = teams.drop_last();
        law_last_entries_count(Seq::empty(), head, -1, j);
        assert(head[j] == teams[j]);
        if forall|k: int| j < k < teams.len() ==> (#[trigger] teams[k]).team_id
            != teams[j].team_id {
            assert(teams[teams.len() - 1].team_id != teams[j].team_id);
            assert forall|k: int| j < k < head.len() implies (#[trigger] head[k]).team_id
                != head[j].team_id by {
                assert(head[k] == teams[k]);
            }
        }
    }
}

} // verus!
