use duscan::events::dir_owner_bin_magic;
use duscan::events::for_each_dir_agg_in_file;
use duscan::events::for_each_dir_owner_in_file;
use duscan::events::for_each_scan_event_in_file;
use duscan::events::read_permission_events;
use duscan::events::scan_event_bin_magic;
use duscan::ingest::DirSizes;
use duscan::walk::WalkStats;
use duscan::walk::SCAN_EVENT_FLUSH_THRESHOLD;
use duscan::worker::Walker;

fn scan_file(handed_out: &[Vec<u8>]) -> Vec<u8> {
    let mut file = scan_event_bin_magic();
    for part in handed_out {
        file.extend_from_slice(part);
    }
    file
}

#[test]
fn walked_files_read_back() {
    let mut w = Walker::new();
    let a = w.count_file("/r/a/x", 7, 512, true);
    let b = w.count_file("/r/a/y", 8, 1024, false);
    let c = w.count_file("/r/b/z", 7, 100, true);
    assert!(a.is_empty() && b.is_empty() && c.is_empty());
    let left = w.flush();
    assert!(w.flush().is_empty());
    let (evs, clean) = for_each_scan_event_in_file(&scan_file(&[left]));
    assert!(clean);
    let seen: Vec<(u32, u64, &str)> = evs.iter().map(|e| (e.uid, e.size, e.path.as_str())).collect();
    assert_eq!(seen, vec![(7, 512, "/r/a/x"), (7, 100, "/r/b/z")]);
    let s = w.stats();
    assert_eq!((s.files, s.inodes, s.dirs, s.size), (3, 3, 0, 1636));
}

#[test]
fn records_are_handed_out_when_there_are_many() {
    let mut w = Walker::new();
    let mut parts: Vec<Vec<u8>> = Vec::new();
    for i in 0..SCAN_EVENT_FLUSH_THRESHOLD + 1 {
        let due = w.count_file("/f", 1, 1, true);
        assert_eq!(!due.is_empty(), i + 1 == SCAN_EVENT_FLUSH_THRESHOLD);
        if !due.is_empty() {
            parts.push(due);
        }
    }
    parts.push(w.flush());
    let (evs, clean) = for_each_scan_event_in_file(&scan_file(&parts));
    assert!(clean);
    assert_eq!(evs.len(), SCAN_EVENT_FLUSH_THRESHOLD + 1);
}

#[test]
fn walked_directory_sizes_read_back() {
    let mut w = Walker::new();
    w.count_file("/r/a/x", 7, 512, true);
    w.count_file("/r/a/y", 8, 100, true);
    w.count_file("/r/a/z", 7, 88, true);
    w.count_file("/top", 7, 5, true);
    w.count_file("/r/a/other", 9, 1, false);
    let file = w.dir_agg_file();
    let (evs, clean) = for_each_dir_agg_in_file(&file);
    assert!(clean);
    assert_eq!(evs.len(), 3);
    let mut sizes = DirSizes::new();
    assert!(sizes.add_file(&file, &None));
    assert_eq!(sizes.total(), 705);
    let at = sizes.dir_list().iter().position(|d| d == "/r/a").unwrap();
    assert_eq!(sizes.list(at), &vec![(7, 600), (8, 100)]);
}

#[test]
fn walked_owners_and_issues_read_back() {
    let mut w = Walker::new();
    w.count_dir("/r", Some(0));
    w.count_dir("/r/a", None);
    w.count_dir("/r/b", Some(12));
    w.count_inode();
    w.note_error("/r/secret: Permission denied (os error 13)");
    w.note_file("/r/gone", "No such file or directory (os error 2)");
    assert_eq!(w.owner_uids(), vec![0, 12]);
    let file = w.dir_owner_file();
    assert!(file.starts_with(&dir_owner_bin_magic()));
    let (owners, clean) = for_each_dir_owner_in_file(&file);
    assert!(clean);
    assert_eq!(owners[1].path, "/r/b");
    let issues = read_permission_events(&w.issue_file());
    let told: Vec<(&str, &str, &str)> = issues
        .iter()
        .map(|e| (e.kind.as_str(), e.errcode.as_str(), e.path.as_str()))
        .collect();
    assert_eq!(
        told,
        vec![("directory", "EACCES", "/r/secret"), ("file", "ENOENT", "/r/gone")]
    );
    let s = w.stats();
    assert_eq!((s.dirs, s.inodes, s.permission_issues), (3, 4, 2));
}

#[test]
fn totals_of_walkers_are_added() {
    let mut a = Walker::new();
    a.count_file("/x", 1, 10, true);
    let mut b = Walker::new();
    b.count_file("/y", 1, 20, true);
    b.count_dir("/d", None);
    assert!(b.has_room(i64::MAX as u64 - 20));
    assert!(!b.has_room(i64::MAX as u64 - 19));
    let mut all = WalkStats::new();
    for w in [&a, &b] {
        assert!(all.can_merge(w.stats()));
        all.merge(w.stats());
    }
    assert_eq!((all.files, all.dirs, all.inodes, all.size), (2, 1, 3, 30));
    assert_eq!((all.by_uid.list(0)[0].size, all.by_uid.list(0)[0].files), (30, 2));
}
