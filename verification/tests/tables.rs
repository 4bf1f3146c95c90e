use duscan::config::Config;
use duscan::history::Growth;
use duscan::history::GrowthRow;
use duscan::listing::HistorySnapshot;
use duscan::listing::InodeDir;
use duscan::listing::PermIssue;
use duscan::listing::UserDetail;
use duscan::monitor::opening_line;
use duscan::monitor::plain_line;
use duscan::monitor::Pulse;
use duscan::tables::export_line;
use duscan::tables::exported_lines;
use duscan::tables::growth_head;
use duscan::tables::growth_row;
use duscan::tables::inode_lines;
use duscan::tables::issue_lines;
use duscan::tables::listed_users;
use duscan::tables::snapshot_lines;
use duscan::tables::status_head;
use duscan::tables::status_row;
use duscan::tables::target_lines;
use duscan::tables::target_table;
use duscan::tables::usage_lines;
use duscan::tracking::TargetStatus;

fn configured() -> Config {
    let mut cfg = Config::default();
    cfg.add_target("backend", "/data/backend", Some("20270101".into()), Some(90)).unwrap();
    cfg.add_team("dev", "backend").unwrap();
    cfg.add_team("ops", "backend").unwrap();
    cfg.add_user("alice", "dev", "backend").unwrap();
    cfg.add_user("carol", "ops", "backend").unwrap();
    cfg.add_user("bob", "dev", "backend").unwrap();
    cfg
}

#[test]
fn the_status_table_has_a_row_for_each_target() {
    let head = status_head();
    assert_eq!(
        head[0],
        format!(
            "{:<18} {:<10} {:>12} {:>10} {:>10} {:>8}  {}",
            "Target", "Stage", "Files", "Dirs", "Size", "Elapsed", "Note"
        )
    );
    assert_eq!(head[1], "-".repeat(90));
    let s = TargetStatus {
        stage: "done".into(),
        files: 1234567,
        dirs: 89,
        size_bytes: 2_500_000_000,
        error: String::new(),
        total_elapsed_sec: 42,
        running: false,
    };
    assert_eq!(
        status_row("backend", &s, 100, 100),
        format!(
            "{:<18} {:<10} {:>12} {:>10} {:>10} {:>7}s  idle/done",
            "backend", "done", "1,234,567", "89", "2.5 GB", 42
        )
    );
}

#[test]
fn targets_are_listed_in_a_table() {
    let cfg = configured();
    let lines = target_table(&cfg.targets);
    assert_eq!(lines.len(), 3);
    assert_eq!(lines[1], "-".repeat(80));
    assert_eq!(lines[2], format!("{:<20} {:<40} {:<6} {:<6}", "backend", "/data/backend", 2, 3));
}

#[test]
fn a_target_is_shown_with_its_teams() {
    let cfg = configured();
    let t = &cfg.targets[0];
    assert_eq!(
        target_lines(t, &None),
        vec![
            "",
            "=== Target: backend (/data/backend) ===",
            "Teams: 2",
            "Users: 3",
            "End scan: 20270101",
            "Max store: 90 days",
            "",
            "Teams:",
            "  dev (2): alice, bob",
            "  ops (1): carol",
        ]
    );
    let one = target_lines(t, &Some("ops".into()));
    assert_eq!(one.len(), 9);
    assert_eq!(one[8], "  ops (1): carol");
    assert_eq!(listed_users(t, &None), vec![0, 1, 2]);
    assert_eq!(listed_users(t, &Some("dev".into())), vec![0, 2]);
    assert!(listed_users(t, &Some("qa".into())).is_empty());
}

#[test]
fn what_a_report_holds_of_a_user() {
    let rows = vec![PermIssue {
        item_type: "dir".into(),
        error: "Permission denied".into(),
        path: "/data/x".into(),
    }];
    let lines = issue_lines("alice", "backend", 7, &Some("den".into()), &rows);
    assert_eq!(lines[1], "=== permission issues: alice on backend ===");
    assert_eq!(lines[2], "  Total: 7");
    assert_eq!(lines[3], "  Search: 'den'");
    assert_eq!(lines[5], format!("  {}", "\u{2500}".repeat(72)));
    assert_eq!(lines[6], format!("  {:<10}  {:<22}  /data/x", "dir", "Permission denied"));
    assert_eq!(issue_lines("alice", "backend", 7, &None, &rows).len(), 6);

    let dirs = vec![InodeDir { files: 12, size: 3_400, path: "/data/y".into() }];
    let lines = inode_lines("alice", "backend", 12, 1, &dirs);
    assert_eq!(lines[1], "=== inode report: alice on backend ===");
    assert_eq!(lines[2], "  Total files: 12   Total dirs: 1");
    assert_eq!(lines[5], format!("  {:>10}  {:>10}  /data/y", 12, "3.4 KB"));

    let d = UserDetail {
        uid: 1,
        total_files: 3,
        total_dirs: 2,
        total_size: 1_500,
        top_dirs: vec![(1_500, "/data".into())],
        top_files: vec![(900, "a.bin".into())],
    };
    let bar = "\u{2500}".repeat(40);
    assert_eq!(
        usage_lines("backend", &d),
        vec![
            "".to_string(),
            "=== root on backend ===".to_string(),
            "  Files: 3  Dirs: 2  Size: 1.5 KB".to_string(),
            "".to_string(),
            format!("  {}  Top Directories", bar),
            format!("    {:>10}  /data", "1.5 KB"),
            "".to_string(),
            format!("  {}  Top Files", bar),
            format!("    {:>10}  a.bin", "900 B"),
        ]
    );
}

#[test]
fn history_is_shown_by_day_and_by_user() {
    let s = HistorySnapshot {
        scan_date: 20260703,
        path: "/data".into(),
        total: 4_000,
        used: 1_000,
        available: 3_000,
        top_users: (0..7).map(|i| (format!("u{}", i), 100 - i)).collect(),
    };
    let lines = snapshot_lines(&s, "25.0");
    assert_eq!(lines[0], "  2026-07-03  used 1.0 KB / 4.0 KB (25.0%)  free 3.0 KB");
    assert_eq!(lines.len(), 6);
    assert_eq!(lines[5], format!("      {:<16} 96 B", "u4"));

    let row = GrowthRow {
        name: "alice".into(),
        values: vec![100, 200],
        growth: Growth { abs: 100, base: Some(100), trend: "up" },
    };
    assert_eq!(
        growth_row(&row, 8, "+100.0%"),
        format!("  {:<8}  {:>10}  {:>10}  {:>10}  {:>7}  up", "alice", "100 B", "200 B", "100 B", "+100.0%")
    );
    let head = growth_head(8, &vec![20260703]);
    assert!(head.starts_with(&format!("  {:<8}  ", "User")));
    assert!(head.ends_with(&format!("  {:>10}  {:>7}  Trend", "Abs", "%")));
}

#[test]
fn a_scan_without_a_screen_is_told_in_lines() {
    let p = |files, dirs, size, tenths, mem_mb, rate| Pulse { files, dirs, size, tenths, mem_mb, rate };
    let of = |shown: &str, phase: &str, p: &Pulse| plain_line("Test", shown, phase, p);
    assert_eq!(opening_line(1), "Scanning 1 target(s)...");
    let a = p(277108, 34188, 0, 21, 45, 138451);
    assert_eq!(of("", "waiting", &a), None);
    assert_eq!(of("waiting", "scanning", &a).unwrap(), "[Test] Started scanning...");
    assert_eq!(
        of("scanning", "scanning", &a).unwrap(),
        "[Test] 277108 files, 34188 dirs | 2.1s 45 MB (138451 files/s)"
    );
    let b = p(1506009, 225996, 87_600_000_000, 145, 320, 0);
    assert_eq!(of("scanning", "queued", &b), None);
    assert_eq!(
        of("queued", "building", &b).unwrap(),
        "[Test] Building detail DB... (1506009 files, 225996 dirs, 87.6 GB | 14.5s 320 MB)"
    );
    assert_eq!(of("building", "building", &b), None);
    let c = p(1506009, 225996, 87_600_000_000, 265, 82, 0);
    assert_eq!(
        of("history", "done", &c).unwrap(),
        "[Test] Done: 1506009 files, 225996 dirs, 87.6 GB | 26.5s 82 MB"
    );
    assert_eq!(of("done", "done", &c), None);
}

#[test]
fn an_export_is_told_by_user() {
    assert_eq!(
        exported_lines("alice", 1234, 56789),
        vec![
            "Exporting 'alice'...",
            "  usage_dir_alice.txt   \u{2014} 1234 dirs",
            "  usage_file_alice.txt  \u{2014} 56789 files",
        ]
    );
    assert_eq!(exported_lines("a/b", 0, 0)[1], "  usage_dir_a_b.txt   \u{2014} 0 dirs");
    assert_eq!(export_line(32, 453), "Exported 32 user(s) in 45.3s");
}
