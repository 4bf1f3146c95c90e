use duscan::exporter::absolute_path;
use duscan::exporter::collect_outputs;
use duscan::exporter::dir_listing;
use duscan::exporter::file_listing;
use duscan::exporter::listing_path;
use duscan::exporter::DirPathMap;
use duscan::listing::export_header;
use duscan::listing::export_row;
use duscan::listing::export_user_name;
use duscan::listing::export_users;
use duscan::listing::notification_lines;
use duscan::listing::on_team;
use duscan::listing::path_in;
use duscan::listing::rank_users;
use duscan::listing::report_db_path;
use duscan::listing::resolve_report_db;
use duscan::listing::scan_log_head;
use duscan::listing::scan_log_tail;
use duscan::listing::tree_lines;
use duscan::listing::ReportUser;
use duscan::listing::ScanFigures;
use duscan::listing::TreeEntry;
use duscan::paths::extension_for_path;
use duscan::paths::join_path;
use duscan::paths::normalize_root;
use duscan::paths::parent_path;
use duscan::paths::path_starts_with;
use duscan::paths::safe_user_dir;
use duscan::paths::sanitise_path;
use duscan::paths::sanitize_filename;
use duscan::paths::tm_basename;
use duscan::paths::tm_clamp;
use duscan::paths::tm_depth;
use duscan::paths::tm_parent;
use duscan::paths::tm_pick_owner;
use std::path::Path;

#[test]
fn paths_and_their_parts() {
    assert_eq!(normalize_root("/a/b//"), "/a/b");
    assert_eq!(normalize_root("/"), "/");
    assert_eq!(tm_parent("/a/b"), "/a");
    assert_eq!(tm_parent("/a"), "/");
    assert_eq!(tm_basename("/a/b"), "b");
    assert_eq!(parent_path("/a/b"), Some("/a".to_string()));
    assert_eq!(tm_depth("/r/a/b", "/r"), 2);
    assert_eq!(tm_depth("/r", "/r"), 0);
    assert_eq!(tm_clamp("/r/a/b/c", "/r", 2), "/r/a/b");
    assert_eq!(tm_clamp("/r/a", "/r", 2), "/r/a");
    assert_eq!(tm_clamp("/a/b/c", "/", 2), "/a/b");
    for root in ["/", "/r"] {
        for level in 0..4usize {
            let path = format!("{}/a/b/c", root.trim_end_matches('/'));
            let cut = tm_clamp(&path, root, level);
            assert_eq!(tm_depth(&cut, root), level.min(3));
            assert_eq!(tm_clamp(&cut, root, level), cut);
        }
    }
    assert_eq!(sanitise_path("/a\tb\nc\u{fffd}"), "/a\u{fffd}b\u{fffd}c\u{fffd}");
    assert_eq!(safe_user_dir("a/b c"), "a_b_c");
    assert_eq!(sanitize_filename("a/b"), "a_b");
}

/// Extensions and joins are those of the standard library's paths.
#[test]
fn parts_of_paths_are_those_of_the_standard_library() {
    for p in [
        "/a/b.TXT", "/a/b", "/a/.bashrc", "/a/x.tar.gz", "/a/b.", "b.Rs", "/a/b/", "/a/..",
        "/a.d/b", "/\u{c4}.\u{c4}B", "x.y/.", "", "/", "/a/b.txt/.",
    ] {
        let want = Path::new(p)
            .extension()
            .and_then(|e| e.to_str())
            .map(|e| e.to_lowercase())
            .unwrap_or_default();
        assert_eq!(extension_for_path(p), want, "{}", p);
    }
    for (a, b) in [("/a", "b"), ("/a/", "b"), ("", "b"), ("a", "/b"), ("/", "b"), ("a", "")] {
        assert_eq!(join_path(a, b), Path::new(a).join(b).to_string_lossy(), "{} {}", a, b);
    }
    for (a, b) in [
        ("/a/b", "/a"), ("/ab", "/a"), ("/a", "/a"), ("/a//b", "/a/b"), ("/a", "/a/b"), ("a", "/"),
        ("/x", "/"), ("/a/./b", "/a/b"), ("./a", "a"),
    ] {
        assert_eq!(path_starts_with(a, b), Path::new(a).starts_with(b), "{} {}", a, b);
    }
}

#[test]
fn the_owner_with_the_most_is_picked() {
    let w = vec![("a".to_string(), 3), ("b".to_string(), 9), ("c".to_string(), 9)];
    let got = tm_pick_owner(&w).unwrap();
    assert!(got == "b" || got == "c");
    assert!(tm_pick_owner(&vec![]).is_none());
}

#[test]
fn where_a_report_is() {
    assert_eq!(report_db_path("/o", "t"), "/o/t/report.db");
    assert_eq!(resolve_report_db("/o", "t", true).unwrap(), "/o/t/report.db");
    assert!(resolve_report_db("/o", "t", false).is_none());
}

#[test]
fn users_on_a_team_come_first() {
    let u = |n: &str, size: i64, has_team: bool| ReportUser { username: n.into(), size, has_team };
    let r = rank_users(&vec![u("x", 9, false), u("a", 1, true), u("b", 5, true), u("y", 9, false)]);
    let names: Vec<&str> = r.iter().map(|u| u.username.as_str()).collect();
    assert_eq!(names, vec!["b", "a", "x", "y"]);
    assert!(on_team(&Some("1".into())));
    assert!(!on_team(&Some("  ".into())));
    assert!(!on_team(&None));
}

#[test]
fn rows_of_an_exported_file() {
    assert_eq!(export_user_name("j\u{f6}rg.x/y-1_2"), "j\u{f6}rg_x_y-1_2");
    assert_eq!(
        export_header(),
        format!("{:<5} {:<20} {:>12}  {}\n{}\n", "Type", "User", "Size", "Path", "-".repeat(90))
    );
    assert_eq!(
        export_row("file", "alice", 1500, "/a/b"),
        format!("{:<5} {:<20} {:>12}  {}", "file", "alice", "1.5 KB", "/a/b")
    );
    assert_eq!(path_in("/a/", "b"), "/a/b");
    assert_eq!(path_in("/", "b"), "/b");
    let users = vec![(1, "a".to_string()), (2, "b".to_string())];
    assert_eq!(export_users(&users, &None).unwrap().len(), 2);
    assert_eq!(export_users(&users, &Some("b".into())).unwrap(), vec![(2, "b".to_string())]);
    assert!(export_users(&users, &Some("c".into())).is_err());
    assert!(export_users(&vec![], &None).is_err());
}

#[test]
fn lines_of_the_tree() {
    let e = |id: i64, n: &str, files: i64| TreeEntry {
        id,
        name: n.into(),
        size: 2_000_000,
        file_count: files,
    };
    let v = vec![e(1, "a", 3), e(2, "b", 0)];
    let l = tree_lines(&v, 0, 3, "/r", &None);
    assert_eq!(l[0].text, "\u{251c}\u{2500}\u{2500} /r/a [2.0 MB]");
    assert!(l[0].descend);
    assert_eq!(l[1].text, "\u{2514}\u{2500}\u{2500} /r/b [2.0 MB]");
    assert!(!l[1].descend);
    let l = tree_lines(&v, 2, 3, "/r", &None);
    assert_eq!(l[0].text, "\u{251c}\u{2500}\u{2500} a [2.0 MB]");
    assert!(!l[0].descend);
    let l = tree_lines(&v, 0, 3, "/r", &Some("r/b".into()));
    assert_eq!(l.len(), 1);
    assert_eq!(l[0].entry, 1);
}

#[test]
fn notifications_and_logs() {
    assert_eq!(notification_lines(&vec![]), "- No data");
    assert_eq!(
        notification_lines(&vec![("a".to_string(), 1500), ("b".to_string(), 5)]),
        "- **a**: 1.5 KB\n- **b**: 5 B"
    );
    let f = ScanFigures {
        files: 100,
        dirs: 10,
        inodes: 111,
        total_size: 1500,
        permission_issues: 2,
        elapsed: 8,
    };
    let head = scan_log_head("t", "/d", "now", &f);
    assert!(head.contains(&"Scan rate:         12 files/sec".to_string()));
    assert!(head.contains(&"Total size:        1.5 KB".to_string()));
    let tail = scan_log_tail(7, false, false);
    assert_eq!(tail[0], "[Phase 2] Detail DB built: 7 files");
    assert_eq!(tail[1], "[Phase 3] Merged into report.db (FAILED)");
}

#[test]
fn directories_of_a_report_in_full() {
    assert_eq!(absolute_path("/data/x/", "x"), "/data/x");
    assert_eq!(absolute_path("/data/x", "x/y"), "/data/x/y");
    assert_eq!(absolute_path("/data/x", "z"), "/data/x/z");
    assert_eq!(absolute_path("/data/x", "/abs"), "/abs");
    assert_eq!(absolute_path("", "z"), "z");
    let m = DirPathMap::load("/data/x", &vec![(4, "x/y".to_string())]);
    assert_eq!(m.get(4), "/data/x/y");
    let lines = dir_listing("alice", &vec![(4, 1500)], &m);
    assert!(lines.last().unwrap().ends_with("/data/x/y"));
    assert!(lines.last().unwrap().contains("2 KB"));
    let lines = file_listing("alice", &vec![(4, "f.txt".to_string(), 999)], &m);
    assert!(lines.last().unwrap().ends_with("/data/x/y/f.txt"));
    assert_eq!(listing_path("/o", "", "dir", "a/b"), "/o/usage_dir_a_b.txt");
    assert_eq!(listing_path("/o", "p", "file", "a"), "/o/p_usage_file_a.txt");
}

#[test]
fn outputs_in_the_order_of_their_jobs() {
    let ok = |v: &[&str]| Ok(v.iter().map(|s| s.to_string()).collect::<Vec<_>>());
    assert_eq!(collect_outputs(&vec![ok(&["a", "b"]), ok(&[]), ok(&["c"])]).unwrap(), ["a", "b", "c"]);
    assert_eq!(
        collect_outputs(&vec![ok(&["a"]), Err("x".into()), Err("y".into())]).unwrap_err(),
        "x"
    );
}
