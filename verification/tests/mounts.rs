use duscan::mounts::build_mount_skip_sets;
use duscan::mounts::child_bind_dups_to_skip;
use duscan::mounts::is_kernfs_path;
use duscan::mounts::is_nfs_path;
use duscan::mounts::mount_is_under_root;
use duscan::mounts::parse_mounts;
use duscan::mounts::MountFacts;
use duscan::walk::error_code_from_message;
use duscan::walk::hardlink_key;

const FIXTURE: &str = "\
21 20 0:20 / /projects/big_sumo_disk rw shared:1 - ext4 /dev/sdb rw
22 21 0:20 / /projects/big_sumo_disk/portal rw shared:1 - ext4 /dev/sdb rw
23 21 0:20 / /none rw shared:1 - ext4 /dev/sdb rw
24 21 0:99 / /projects/big_sumo_disk/cache rw - tmpfs tmpfs rw";

#[test]
fn skips_bind_duplicate_under_root_keeps_first() {
    let skip = child_bind_dups_to_skip(FIXTURE, "/projects/big_sumo_disk");
    assert!(skip.contains("/projects/big_sumo_disk/portal"));
    assert!(!skip.contains("/projects/big_sumo_disk"));
    assert!(!skip.contains("/none"));
}

#[test]
fn the_scanned_root_is_never_skipped() {
    // The device is first mounted elsewhere, and again as the root itself.
    let mi = "1 0 0:20 / /mnt rw\n2 0 0:20 / / rw";
    assert!(child_bind_dups_to_skip(mi, "/").is_empty());
    let mi = "1 0 0:20 / /mnt rw\n2 0 0:20 / /data rw";
    assert!(child_bind_dups_to_skip(mi, "/data/").is_empty());
}

#[test]
fn unrelated_root_skips_nothing() {
    let skip = child_bind_dups_to_skip(FIXTURE, "/data/other");
    assert!(skip.is_empty());
}

const FIXTURE_ORIGIN_OUTSIDE: &str = "\
30 2 0:40 / /data/project rw shared:9 - ext4 /dev/sdc rw
31 2 0:40 / /scan/project rw shared:9 - ext4 /dev/sdc rw
32 2 0:40 / /scan rw shared:1 - ext4 /dev/sda rw";

#[test]
fn keeps_in_root_copy_when_origin_is_outside_root() {
    let skip = child_bind_dups_to_skip(FIXTURE_ORIGIN_OUTSIDE, "/scan");
    assert!(
        !skip.contains("/scan/project"),
        "in-root bind copy wrongly skipped though its source is outside the scan"
    );
    assert!(skip.is_empty());
}

#[test]
fn skips_second_in_root_copy_when_first_is_in_root() {
    let mi = "\
40 2 0:50 / /scan/a rw shared:5 - ext4 /dev/sdd rw
41 2 0:50 / /scan/b rw shared:5 - ext4 /dev/sdd rw";
    let skip = child_bind_dups_to_skip(mi, "/scan");
    assert!(skip.contains("/scan/b"));
    assert!(!skip.contains("/scan/a"));
}

#[test]
fn deep_source_and_deep_bind_both_in_root() {
    let mi = "\
50 2 0:60 /a/source /scan/a/source rw shared:7 - ext4 /dev/sde rw
51 2 0:60 /a/source /scan/b/mirror rw shared:7 - ext4 /dev/sde rw";
    let skip = child_bind_dups_to_skip(mi, "/scan");
    assert!(skip.contains("/scan/b/mirror"), "duplicate mirror must be skipped");
    assert!(!skip.contains("/scan/a/source"), "the source copy must be kept");
    assert_eq!(skip.len(), 1);
}

#[test]
fn under_root_matches_only_path_boundary() {
    assert!(!mount_is_under_root("/projects/big_sumo_disk", "/projects/big"));
    assert!(mount_is_under_root("/projects/big_sumo_disk/x", "/projects/big_sumo_disk"));
    assert!(mount_is_under_root("/projects/big_sumo_disk", "/projects/big_sumo_disk"));
    assert!(mount_is_under_root("/anything", "/"));
}

#[test]
fn hardlink_key_local_uses_ino_dev() {
    assert_eq!(hardlink_key(None, 42, 7, false), (42, 7));
    assert_eq!(hardlink_key(None, 0, 0, false), (0, 0));
}

#[test]
fn mounts_of_short_lines_are_left_out() {
    let ms = parse_mounts("1 2 0:1 / /a rw\nshort line\n\n3 2 0:2 /s /b rw - ext4 x rw");
    assert_eq!(ms.len(), 2);
}

#[test]
fn kinds_of_file_systems() {
    assert!(is_nfs_path(Some(0x6969)));
    assert!(!is_nfs_path(Some(0xEF53)));
    assert!(!is_nfs_path(None));
    assert!(is_kernfs_path(Some(0x9fa0)));
    assert!(!is_kernfs_path(Some(0xEF53)));
    assert!(!is_kernfs_path(None));
}

#[test]
fn what_a_walk_leaves_out() {
    let mi = "1 0 0:1 / /scan rw\n2 1 0:2 / /scan/proc rw\n3 1 0:3 / /scan/x rw\n4 1 0:3 / /y rw";
    let facts = vec![
        MountFacts { f_type: Some(0xEF53), identity: Some((1, 10)) },
        MountFacts { f_type: Some(0x9fa0), identity: Some((2, 20)) },
        MountFacts { f_type: Some(0xEF53), identity: Some((3, 30)) },
        MountFacts { f_type: Some(0xEF53), identity: Some((3, 30)) },
    ];
    let sets = build_mount_skip_sets(mi, &facts, "/scan");
    assert!(sets.kernfs.contains("/scan/proc"));
    assert!(sets.children.contains("/scan/proc"));
    assert!(!sets.children.contains("/scan"));
    assert_eq!(sets.binds, vec![(3, 30)]);
}

#[test]
fn codes_of_error_messages() {
    assert_eq!(error_code_from_message("Permission denied (os error 13)"), "EACCES");
    assert_eq!(error_code_from_message("x: No such file or directory"), "ENOENT");
    assert_eq!(error_code_from_message("read (os error 5)"), "EIO");
    assert_eq!(error_code_from_message("something else"), "EOTHER");
}
