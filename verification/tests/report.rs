use duscan::db::finalize_db;
use duscan::db::packed_insert;
use duscan::db::packed_insert_sql;
use duscan::db::placeholder_group;
use duscan::db::quote_text;
use duscan::db::Repack;
use duscan::detail::outdated_detail_outputs;
use duscan::detail::outdated_treemap_outputs;
use duscan::detail::AddError;
use duscan::detail::DetailBuild;
use duscan::events::dir_agg_bin_magic;
use duscan::events::dir_owner_bin_magic;
use duscan::events::for_each_dir_agg_in_file;
use duscan::events::for_each_dir_owner_in_file;
use duscan::events::for_each_scan_event_in_file;
use duscan::events::parse_permission_line;
use duscan::events::permission_line;
use duscan::events::push_dir_agg;
use duscan::events::push_dir_owner;
use duscan::events::push_scan_event;
use duscan::events::read_permission_events;
use duscan::events::scan_event_bin_magic;
use duscan::events::text_from_bytes;
use duscan::events::DirAggEvent;
use duscan::events::DirOwnerEvent;
use duscan::events::PermissionEvent;
use duscan::events::ScanEvent;
use duscan::ingest::DirSizes;
use duscan::ingest::LocalAgg;
use duscan::permissions::issue_rows;
use duscan::permissions::issues_meta;
use duscan::scope::below_prefix;
use duscan::scope::keep_issues;
use duscan::scope::keep_owners;
use duscan::spill::compact_file_name;
use duscan::spill::pack_compacts;
use duscan::spill::read_compact_spill;
use duscan::spill::read_spill;
use duscan::spill::spill_file_name;
use duscan::spill::spill_rows_to_disk;
use duscan::spill::CompactRow;
use duscan::spill::NumberError;
use duscan::spill::SpillRow;
use duscan::text::map_of;
use duscan::treemap::build_treemap_db_impl;
use duscan::treemap::SerializableDirRow;
use duscan::treemap::TreemapAggregates;
use duscan::treemap::load_aggregates;
use duscan::treemap::persist_aggregates;
use duscan::treemap::unpack_aggregates;
use std::collections::HashMap;

fn uids() -> HashMap<u32, String> {
    HashMap::from([(1, "alice".to_string()), (2, "bob".to_string())])
}

fn event(uid: u32, size: u64, path: &str) -> ScanEvent {
    ScanEvent { uid, size, path: path.into() }
}

// ---------------------------------------------------------------------------
// Records
// ---------------------------------------------------------------------------

#[test]
fn scan_events_are_read_as_they_were_written() {
    let mut file = scan_event_bin_magic();
    assert_eq!(file.len(), 8);
    push_scan_event(&mut file, &event(1, 4096, "/s/a.txt"));
    push_scan_event(&mut file, &event(7, 0, "/s/\u{e4}"));
    let (evs, whole) = for_each_scan_event_in_file(&file);
    assert!(whole);
    assert_eq!(evs.len(), 2);
    assert_eq!((evs[0].uid, evs[0].size, evs[0].path.as_str()), (1, 4096, "/s/a.txt"));
    assert_eq!((evs[1].uid, evs[1].size, evs[1].path.as_str()), (7, 0, "/s/\u{e4}"));
}

#[test]
fn a_cut_file_of_events_keeps_its_whole_records() {
    let mut file = scan_event_bin_magic();
    push_scan_event(&mut file, &event(1, 1, "/a"));
    let first = file.len();
    push_scan_event(&mut file, &event(2, 2, "/b"));
    // The record's path is cut.
    let (evs, whole) = for_each_scan_event_in_file(&file[..file.len() - 1]);
    assert_eq!(evs.len(), 1);
    assert!(!whole);
    // What is left is too short to begin a record.
    let (evs, whole) = for_each_scan_event_in_file(&file[..first + 3]);
    assert_eq!(evs.len(), 1);
    assert!(whole);
    let (evs, _) = for_each_scan_event_in_file(b"something else");
    assert!(evs.is_empty());
}

#[test]
fn directory_records_are_read_as_they_were_written() {
    let mut file = dir_agg_bin_magic();
    push_dir_agg(&mut file, &DirAggEvent { uid: 3, size: 77, path: "/d".into() });
    let (evs, whole) = for_each_dir_agg_in_file(&file);
    assert!(whole);
    assert_eq!((evs[0].uid, evs[0].size, evs[0].path.as_str()), (3, 77, "/d"));
    let mut file = dir_owner_bin_magic();
    push_dir_owner(&mut file, &DirOwnerEvent { uid: 9, path: "/d".into() });
    let (evs, whole) = for_each_dir_owner_in_file(&file);
    assert!(whole);
    assert_eq!((evs[0].uid, evs[0].path.as_str()), (9, "/d"));
}

#[test]
fn bytes_that_are_no_text_are_replaced() {
    assert_eq!(text_from_bytes(b"plain"), "plain");
    assert_eq!(text_from_bytes(&[b'a', 0xff, b'b']), "a\u{fffd}b");
}

#[test]
fn permission_lines_are_read_as_they_were_written() {
    let e = PermissionEvent {
        uid: 5,
        kind: "file".into(),
        errcode: "EACCES".into(),
        path: "/x/y".into(),
    };
    let line = permission_line(&e);
    assert_eq!(line, "P\t5\tfile\tEACCES\t/x/y");
    let back = parse_permission_line(&line).unwrap();
    assert_eq!((back.uid, back.kind.as_str()), (5, "file"));
    assert_eq!((back.errcode.as_str(), back.path.as_str()), ("EACCES", "/x/y"));
    assert!(parse_permission_line("no tabs").is_none());
    assert!(parse_permission_line("P\tx\tfile\tE\t/p").is_none());
    assert_eq!(read_permission_events("P\t5\tfile\tEACCES\t/x/y\nbad\n").len(), 1);
}

// ---------------------------------------------------------------------------
// Spilled rows
// ---------------------------------------------------------------------------

#[test]
fn spilled_rows_read_back() {
    let rows = vec![
        SpillRow { size: 10, path: "/r/a.txt".into(), ext: "txt".into() },
        SpillRow { size: 20, path: "/r/b".into(), ext: "".into() },
    ];
    let (files, next) = spill_rows_to_disk("al/ice", &rows, 5);
    assert_eq!(files.len(), 1);
    assert_eq!(next, 6);
    assert_eq!(files[0].name, spill_file_name("al/ice", 5));
    assert!(!files[0].name.contains('/'));
    let back = read_spill(&files[0].bytes).unwrap();
    assert_eq!(back.len(), 2);
    assert_eq!((back[0].size, back[0].path.as_str()), (10, "/r/a.txt"));
    assert_eq!((back[1].size, back[1].ext.as_str()), (20, ""));
    assert!(read_spill(b"not a frame").is_none());
    assert_eq!(compact_file_name("bob", 7), "bob_7.rows.compact");
}

#[test]
fn numbered_rows_read_back() {
    let rows = vec![
        CompactRow { size: u64::MAX, dir_id: 1, name_id: 2, ext_id: 3 },
        CompactRow { size: 0, dir_id: u32::MAX, name_id: 0, ext_id: u16::MAX },
    ];
    let file = pack_compacts(&rows).unwrap();
    let back = read_compact_spill(&file).unwrap();
    assert_eq!(back.len(), 2);
    assert_eq!(back[0].size, u64::MAX);
    assert_eq!((back[1].dir_id, back[1].name_id, back[1].ext_id), (u32::MAX, 0, u16::MAX));
    assert!(read_compact_spill(b"no frame").is_none());
}

// ---------------------------------------------------------------------------
// Adding up
// ---------------------------------------------------------------------------

#[test]
fn events_are_counted_by_user_and_directory() {
    let mut agg = LocalAgg::new();
    agg.add_event(&event(1, 10, "/r/d/a.txt"), &uids(), false);
    agg.add_event(&event(1, 5, "/r/d/b"), &uids(), false);
    agg.add_event(&event(9, 7, "/r/c"), &uids(), false);
    assert_eq!(agg.sizes().total(), 22);
    assert!(!agg.should_spill());

    let mut other = LocalAgg::new();
    other.add_event(&event(2, 3, "/r/d/x"), &uids(), false);
    agg.merge(other);
    assert_eq!(agg.sizes().total(), 25);
    assert_eq!(agg.sizes().dir_list(), vec!["/r/d", "/r"]);

    let rows = agg.take_rows();
    let names: Vec<&str> = rows.iter().map(|r| r.0.as_str()).collect();
    assert_eq!(names, vec!["alice", "uid-9", "bob"]);
    assert_eq!(rows[0].1.len(), 2);
    assert_eq!(rows[0].1[0].ext, "txt");
    assert!(agg.take_rows().is_empty());
    assert_eq!(agg.sizes().total(), 25);
}

#[test]
fn records_may_be_spread_over_files() {
    let evs = [event(1, 10, "/r/d/a.txt"), event(2, 5, "/r/d/b"), event(1, 7, "/r/d/c")];
    let file = |part: &[ScanEvent]| {
        let mut bytes = scan_event_bin_magic();
        for e in part {
            push_scan_event(&mut bytes, e);
        }
        bytes
    };
    let mut one = LocalAgg::new();
    assert!(one.add_file(&file(&evs), &uids(), false, &None));
    let mut two = LocalAgg::new();
    assert!(two.add_file(&file(&evs[..1]), &uids(), false, &None));
    assert!(two.add_file(&file(&evs[1..]), &uids(), false, &None));
    assert_eq!(one.sizes().total(), 22);
    assert_eq!(one.sizes().dir_list(), vec!["/r/d"]);
    assert_eq!(one.sizes().list(0), two.sizes().list(0));
    let (a, b) = (one.take_rows(), two.take_rows());
    assert_eq!(a.len(), 2);
    assert_eq!((a[0].0.as_str(), a[0].1.len()), ("alice", 2));
    assert_eq!(a[0].1[1].path, b[0].1[1].path);

    // What could not be held is not taken in part.
    let big = [event(1, 1, "/r/x"), event(1, i64::MAX as u64, "/r/y")];
    assert!(!one.add_file(&file(&big), &uids(), false, &None));
    assert_eq!(one.sizes().total(), 22);
    assert!(one.take_rows().is_empty());
    assert!(one.add_file(&file(&big), &uids(), true, &None));
    assert_eq!(one.sizes().total(), 22);
}

#[test]
fn directory_sizes_may_be_spread_over_files() {
    let agg = |size: i64| DirAggEvent { uid: 1, size, path: "/a".into() };
    let file = |part: &[i64]| {
        let mut bytes = dir_agg_bin_magic();
        for size in part {
            push_dir_agg(&mut bytes, &agg(*size));
        }
        bytes
    };
    let mut sizes = DirSizes::new();
    assert!(sizes.add_file(&file(&[4, -3]), &None));
    assert!(sizes.add_file(&file(&[6]), &None));
    assert_eq!(sizes.list(0).as_slice(), &[(1, 10)]);
    assert!(!sizes.add_file(&file(&[1, i64::MAX]), &None));
    assert_eq!(sizes.total(), 10);
}

#[test]
fn only_sizes_above_zero_are_aggregated() {
    let mut sizes = DirSizes::new();
    sizes.add_dir_agg(&DirAggEvent { uid: 1, size: 0, path: "/a".into() });
    sizes.add_dir_agg(&DirAggEvent { uid: 1, size: -4, path: "/a".into() });
    assert_eq!(sizes.len(), 0);
    sizes.add_dir_agg(&DirAggEvent { uid: 1, size: 4, path: "/a".into() });
    sizes.add_dir_agg(&DirAggEvent { uid: 1, size: 6, path: "/a".into() });
    assert_eq!(sizes.list(0).as_slice(), &[(1, 10)]);
}

// ---------------------------------------------------------------------------
// The detail report
// ---------------------------------------------------------------------------

/// A small scan of `/r`: alice has two files in `/r/d`, bob one in `/r`.
fn build() -> DetailBuild {
    let mut agg = LocalAgg::new();
    agg.add_event(&event(1, 10, "/r/d/a.txt"), &uids(), false);
    agg.add_event(&event(1, 5, "/r/d/b.TXT"), &uids(), false);
    agg.add_event(&event(2, 7, "/r/c"), &uids(), false);
    let owners = vec![
        DirOwnerEvent { uid: 2, path: "/r/d".into() },
        DirOwnerEvent { uid: 1, path: "/r/d".into() },
        DirOwnerEvent { uid: 5, path: "/elsewhere".into() },
    ];
    let mut b = DetailBuild::start("/r/", agg.sizes(), &owners, &uids()).unwrap();
    let mut files: Vec<(String, Vec<u8>)> = Vec::new();
    for (user, rows) in agg.take_rows() {
        let (spilled, _) = spill_rows_to_disk(&user, &rows, 0);
        for f in spilled {
            files.push((user.clone(), b.reencode(&f.bytes).unwrap()));
        }
    }
    files.sort();
    let exts = b.exts();
    assert_eq!(exts, vec!["", "txt"]);
    for (user, file) in &files {
        let uid = b.begin_user(user).unwrap();
        let rows = b.add_file(uid, file, &exts).unwrap();
        if user == "alice" {
            assert_eq!(rows.len(), 2);
            assert_eq!((rows[0].size, rows[0].ext.as_str(), rows[0].uid), (10, "txt", 1));
        }
    }
    b
}

#[test]
fn each_owner_of_a_scan_has_one_row() {
    let evs = [
        event(9, 4, "/r/x"),
        event(1, 10, "/r/d/a.txt"),
        event(9, 0, "/r/d/empty"),
        event(2, 7, "/r/c"),
    ];
    let mut agg = LocalAgg::new();
    for e in &evs {
        agg.add_event(e, &uids(), false);
    }
    let mut b = DetailBuild::start("/r", agg.sizes(), &vec![], &uids()).unwrap();
    let mut files: Vec<(String, Vec<u8>)> = Vec::new();
    for (user, rows) in agg.take_rows() {
        let (spilled, _) = spill_rows_to_disk(&user, &rows, 0);
        for f in spilled {
            files.push((user.clone(), b.reencode(&f.bytes).unwrap()));
        }
    }
    let exts = b.exts();
    for (user, file) in &files {
        let uid = b.begin_user(user).unwrap();
        b.add_file(uid, file, &exts).unwrap();
    }
    let teams = map_of(vec![("bob".to_string(), "3".to_string())]);
    let t = b.tables(&teams, 0, "tm.db");
    let mut rows: Vec<(&str, &str, i64, i64)> = t
        .users
        .iter()
        .map(|u| (u.username.as_str(), u.team_id.as_str(), u.total_files, u.total_size))
        .collect();
    rows.sort();
    assert_eq!(rows, vec![("alice", "", 1, 10), ("bob", "3", 1, 7), ("uid-9", "", 2, 4)]);
    // A user without a known name has a number of its own.
    let numbers: Vec<i64> = t.users.iter().map(|u| u.uid).collect();
    assert_eq!(numbers, vec![1, 2, 1_000_000_000]);
}

#[test]
fn a_nested_target_takes_what_is_below_its_prefix() {
    let prefix = Some("/r/d".to_string());
    assert!(below_prefix("/r/d", &prefix) && below_prefix("/r/d/x/y", &prefix));
    assert!(!below_prefix("/r/dd/x", &prefix) && !below_prefix("/r", &prefix));
    assert!(below_prefix("/anything", &None));

    let mut bytes = scan_event_bin_magic();
    let evs = [event(1, 10, "/r/d/a"), event(2, 7, "/r/c"), event(1, 5, "/r/dd/b"), event(9, 1, "/r/d/x/z")];
    for e in &evs {
        push_scan_event(&mut bytes, e);
    }
    let mut agg = LocalAgg::new();
    assert!(agg.add_file(&bytes, &uids(), false, &prefix));
    assert_eq!(agg.sizes().total(), 11);
    assert_eq!(agg.sizes().dir_list(), vec!["/r/d", "/r/d/x"]);
    let rows = agg.take_rows();
    let files: Vec<(&str, usize)> = rows.iter().map(|(u, r)| (u.as_str(), r.len())).collect();
    assert_eq!(files, vec![("alice", 1), ("uid-9", 1)]);

    let mut bytes = dir_agg_bin_magic();
    for (path, size) in [("/r", 7), ("/r/d", 10), ("/r/dd", 5)] {
        push_dir_agg(&mut bytes, &DirAggEvent { uid: 1, size, path: path.into() });
    }
    let mut sizes = DirSizes::new();
    assert!(sizes.add_file(&bytes, &prefix));
    assert_eq!((sizes.dir_list(), sizes.total()), (vec!["/r/d".to_string()], 10));

    let owner = |path: &str| DirOwnerEvent { uid: 1, path: path.into() };
    let kept = keep_owners(vec![owner("/r"), owner("/r/d/x")], &prefix);
    assert_eq!(kept.iter().map(|o| o.path.as_str()).collect::<Vec<_>>(), vec!["/r/d/x"]);
    let issue = |path: &str| PermissionEvent {
        uid: 1,
        kind: "dir".into(),
        errcode: "EACCES".into(),
        path: path.into(),
    };
    let kept = keep_issues(vec![issue("/r/dd"), issue("/r/d")], &prefix);
    assert_eq!(kept.iter().map(|i| i.path.as_str()).collect::<Vec<_>>(), vec!["/r/d"]);
}

#[test]
fn known_names_are_numbered_when_the_numbers_ran_out() {
    let mut b = build();
    let row = |i: usize| SpillRow { size: 1, path: format!("/r/f.{}", i), ext: format!("{}", i) };
    // With the empty one and `txt` every number of an extension is then taken.
    let rows: Vec<SpillRow> = (0..65_534).map(row).collect();
    let (files, _) = spill_rows_to_disk("alice", &rows, 0);
    for f in &files {
        b.reencode(&f.bytes).unwrap();
    }
    assert_eq!(b.exts().len(), 65_536);
    let (known, _) = spill_rows_to_disk("alice", &vec![row(7), row(65_533)], 0);
    assert!(b.reencode(&known[0].bytes).is_ok());
    let (new, _) = spill_rows_to_disk("alice", &vec![row(7), row(70_000)], 0);
    assert_eq!(b.reencode(&new[0].bytes).err(), Some(NumberError::Full));
}

#[test]
fn outdated_outputs_are_named() {
    let detail = outdated_detail_outputs();
    assert_eq!(detail.len(), 4);
    assert_eq!((detail[0].as_str(), detail[2].as_str()), ("data_detail.json", "users"));
    let treemap = outdated_treemap_outputs();
    assert_eq!(treemap[..2], ["shards".to_string(), "api".to_string()]);
    assert_eq!(treemap[2], detail[1]);
    assert!(treemap[2].ends_with(".json"));
}

#[test]
fn the_tables_of_a_small_scan() {
    let b = build();
    let teams = map_of(vec![("alice".to_string(), "7".to_string())]);
    let t = b.tables(&teams, 1_700_000_000, "/out/tm.db");

    let dirs: Vec<(i64, i64, &str, i64, i64, i64)> = t
        .dirs
        .iter()
        .map(|d| (d.id, d.uid, d.path.as_str(), d.owner_uid, d.size, d.files))
        .collect();
    // The owner is the one that was recorded last, 0 where none was.
    assert_eq!(dirs, vec![(0, 2, "/r", 0, 7, 1), (1, 1, "/r/d", 1, 15, 2)]);
    assert_eq!(t.dirs[1].parent_id, Some(0));

    assert_eq!(t.users.len(), 2);
    let alice = &t.users[0];
    assert_eq!((alice.uid, alice.username.as_str(), alice.team_id.as_str()), (1, "alice", "7"));
    assert_eq!((alice.total_files, alice.total_dirs, alice.total_size), (2, 1, 15));
    assert_eq!(alice.owned_dirs, 1);
    assert_eq!((t.users[1].username.as_str(), t.users[1].total_size), ("bob", 7));
    assert_eq!(t.users[1].owned_dirs, 0);

    let mut names = t.file_names.clone();
    names.sort();
    assert_eq!(names, vec!["a.txt", "b.TXT", "c"]);
    let meta: HashMap<&str, &str> =
        t.meta.iter().map(|(k, v)| (k.as_str(), v.as_str())).collect();
    assert_eq!(meta["scan_root"], "/r");
    assert_eq!(meta["total_files"], "3");
    assert_eq!(meta["total_dirs"], "2");
    assert_eq!(meta["total_size"], "22");
    assert_eq!(meta["treemap_db"], "tm.db");

    // The users' totals are those of the report.
    assert_eq!(t.users.iter().map(|u| u.total_size).sum::<i64>(), 22);
    assert_eq!(t.users.iter().map(|u| u.total_files).sum::<i64>(), 3);
}

#[test]
fn files_that_cannot_be_added_count_for_nothing() {
    let mut b = build();
    let exts = b.exts();
    assert_eq!(b.add_file(1, b"no frame", &exts).err(), Some(AddError::Damaged));
    let odd = pack_compacts(&vec![CompactRow { size: 1, dir_id: 9, name_id: 0, ext_id: 0 }]);
    assert_eq!(b.add_file(1, &odd.unwrap(), &exts).err(), Some(AddError::UnknownDir));
    let huge = pack_compacts(&vec![CompactRow { size: u64::MAX, dir_id: 0, name_id: 0, ext_id: 0 }]);
    assert_eq!(b.add_file(1, &huge.unwrap(), &exts).err(), Some(AddError::TooMuch));
    assert_eq!(b.reencode(b"no frame").err(), Some(NumberError::Damaged));
    assert_eq!(b.totals.by_dir.total_files(), 3);
    assert_eq!(b.totals.by_dir.total_size(), 22);
}

#[test]
fn the_treemap_of_a_small_scan() {
    let b = build();
    let agg = load_aggregates(b.aggregates()).unwrap();
    assert_eq!(agg.subtree_size, vec![22, 15]);
    assert_eq!(agg.subtree_files, vec![3, 2]);
    assert_eq!(agg.direct_dir_count, vec![1, 0]);
    let tm = build_treemap_db_impl(&agg, "/r", 3, 1_700_000_000);
    assert_eq!(tm.dirs.len(), 2);
    assert_eq!((tm.dirs[0].total_size, tm.dirs[0].file_count), (22, 1));
    assert_eq!((tm.dirs[1].total_size, tm.dirs[1].parent_id), (15, Some(0)));
    assert_eq!(tm.dirs[1].owner_uid, 1);
    // Level 0 is no limit.
    assert_eq!(build_treemap_db_impl(&agg, "/r", 0, 0).dirs.len(), 2);

    let mut old = b.aggregates();
    old.version += 1;
    assert!(load_aggregates(old).is_err());
}

#[test]
fn aggregates_are_unpacked_as_they_were_packed() {
    let bytes: Vec<u8> = (0..10_000u32).map(|i| (i % 251) as u8).collect();
    let packed = persist_aggregates(&bytes).unwrap();
    assert!(packed.len() < bytes.len());
    assert_eq!(unpack_aggregates(&packed).unwrap(), bytes);
    assert!(unpack_aggregates(b"no frame").is_none());
}

// ---------------------------------------------------------------------------
// Issues
// ---------------------------------------------------------------------------

#[test]
fn issues_are_listed_in_their_order() {
    let e = |uid: u32, path: &str, err: &str, kind: &str| PermissionEvent {
        uid,
        kind: kind.into(),
        errcode: err.into(),
        path: path.into(),
    };
    let evs = vec![
        e(9, "/a", "EIO", "file"),
        e(1, "/b", "EIO", "file"),
        e(1, "/a", "EIO", "file"),
        e(1, "/a", "EACCES", "file"),
        e(0, "/z", "EIO", "directory"),
        e(1, "/a", "EACCES", "directory"),
    ];
    let rows = issue_rows(&evs, &uids());
    let got: Vec<(&str, &str, &str, &str)> = rows
        .iter()
        .map(|r| (r.user.as_str(), r.path.as_str(), r.error.as_str(), r.item_type.as_str()))
        .collect();
    assert_eq!(
        got,
        vec![
            ("__unknown__", "/z", "EIO", "directory"),
            ("alice", "/a", "EACCES", "directory"),
            ("alice", "/a", "EACCES", "file"),
            ("alice", "/a", "EIO", "file"),
            ("alice", "/b", "EIO", "file"),
            ("uid-9", "/a", "EIO", "file"),
        ]
    );
    let meta = issues_meta(12, "/r", 6);
    assert_eq!(meta[0], ("date".to_string(), "12".to_string()));
    assert_eq!(meta[2], ("total".to_string(), "6".to_string()));
}

// ---------------------------------------------------------------------------
// Statements
// ---------------------------------------------------------------------------

#[test]
fn rows_are_inserted_in_packs() {
    assert_eq!(placeholder_group(3), "(?,?,?)");
    let sql = packed_insert_sql("t", "a,b", 2, 2);
    assert_eq!(sql, "INSERT INTO t(a,b) VALUES (?,?),(?,?)");
    for n in [0usize, 1, 7, 1000, 12345] {
        assert_eq!(packed_insert(n).iter().sum::<usize>(), n);
    }
    assert_eq!(quote_text("it's"), "it''s");
}

#[test]
fn databases_are_repacked_by_size() {
    assert!(matches!(finalize_db(1 << 30, true), Repack::MergeInput));
    assert!(matches!(finalize_db(1, false), Repack::Small));
    assert!(matches!(finalize_db(u64::MAX, false), Repack::Huge));
}

/// A directory whose owner is not known belongs to the user with the smallest
/// number.
#[test]
fn unknown_owners_fall_back_to_the_smallest_number() {
    let dir = |id: i64, parent_id: Option<i64>, depth: i64| SerializableDirRow {
        id,
        parent_id,
        name_id: id,
        depth,
    };
    let agg = TreemapAggregates {
        version: 1,
        names: vec!["r".into(), "a".into()],
        dirs_in_order: vec![dir(0, None, 0), dir(1, Some(0), 1)],
        owner_weights: vec![],
        dir_owner_uid: vec![-1, 9],
        subtree_size: vec![5, 5],
        subtree_files: vec![1, 1],
        direct_dir_count: vec![1, 0],
        direct_file_count: vec![0, 1],
        total_size_by_dir: vec![0, 5],
        uid_to_username: vec![(3, "alice".into()), (9, "bob".into())],
    };
    let rows = build_treemap_db_impl(&agg, "/r", 0, 0).dirs;
    assert_eq!((rows[0].owner_uid, rows[1].owner_uid), (3, 9));
    assert_eq!((rows[0].has_files, rows[1].has_files), (0, 1));
}
