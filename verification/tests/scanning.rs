use duscan::config::Config;
use duscan::monitor::asks_abort;
use duscan::monitor::closing_line;
use duscan::monitor::files_since;
use duscan::monitor::phase_mark;
use duscan::monitor::phase_text;
use duscan::monitor::AppState;
use duscan::mounts::build_mount_skip_sets;
use duscan::orchestrator::json_to_i64;
use duscan::orchestrator::log_file_line;
use duscan::orchestrator::manifest;
use duscan::orchestrator::manifest_entry;
use duscan::orchestrator::run_scan_plan_impl;
use duscan::orchestrator::scan_tmp_base_for;
use duscan::orchestrator::status_json;
use duscan::orchestrator::summarise_view;
use duscan::orchestrator::Built;
use duscan::orchestrator::GroupEvent;
use duscan::orchestrator::GroupPlan;
use duscan::orchestrator::GroupRun;
use duscan::orchestrator::PlanId;
use duscan::orchestrator::RootPlan;
use duscan::orchestrator::Stage;
use duscan::orchestrator::ViewPlan;
use duscan::pyo3::PyRuntimeError;
use duscan::pyo3::Python;
use duscan::scan_view::device_permits;
use duscan::scan_view::past_end;
use duscan::scan_view::plan_scan_jobs;
use duscan::scan_view::view_settings;
use duscan::scan_view::ScanTotals;
use duscan::scan_view::ViewAction;
use duscan::scan_view::ViewEvent;
use duscan::scan_view::ViewJob;
use duscan::scan_view::ViewRun;
use duscan::scheduler::build_scan_plan;
use duscan::scheduler::classify_device;
use duscan::scheduler::read_mount_info;
use duscan::scheduler::rotational_path;
use duscan::scheduler::Device;
use duscan::text::map_of;
use duscan::tui_nav::Key;
use duscan::tui_nav::KeyCode;
use duscan::walk::should_flush;
use duscan::walk::walk_error;
use duscan::walk::walker_threads;
use duscan::walk::DirMeta;
use duscan::walk::DirStep;
use duscan::walk::EntryKind;
use duscan::walk::EntryStep;
use duscan::walk::FileMeta;
use duscan::walk::FileStep;
use duscan::walk::Seen;
use duscan::walk::StatxId;
use duscan::walk::StatxLite;
use duscan::walk::WalkRules;
use duscan::walk::WalkStats;

// ---------------------------------------------------------------------------
// Devices and plans
// ---------------------------------------------------------------------------

const MOUNTS: &str = "\
21 1 8:1 / / rw - ext4 /dev/sda1 rw
22 1 0:45 / /nfs rw - nfs4 host:/x rw
23 1 8:1 / /again rw - xfs /dev/sda1 rw
24 1 8:x / /bad rw - ext4 /dev/x rw
25 1 8:2 / /two - - rw - ext4 /dev/x rw";

#[test]
fn devices_are_numbered_as_the_system_does() {
    let m = read_mount_info(MOUNTS);
    let sda1 = libc::makedev(8, 1);
    let nfs = libc::makedev(0, 45);
    assert_eq!(m.len(), 2);
    // The first mount of a device counts.
    assert_eq!(m[&sda1], "ext4");
    assert_eq!(m[&nfs], "nfs4");
    let big = libc::makedev(0x12345, 0x6789a);
    assert_eq!(rotational_path(big), format!("/sys/dev/block/{}:{}/queue/rotational", 0x12345, 0x6789a));
    assert_eq!(classify_device(nfs, &m, &None), "nfs");
    assert_eq!(classify_device(sda1, &m, &Some("1\n".into())), "hdd");
    assert_eq!(classify_device(sda1, &m, &Some("0\n".into())), "ssd");
}

fn config(targets: &[(&str, &str)]) -> Config {
    let mut cfg = Config::default();
    for (n, p) in targets {
        cfg.add_target(n, p, None, None).unwrap();
    }
    cfg
}

#[test]
fn targets_below_each_other_are_scanned_once() {
    let mut cfg = config(&[("sub", "/data/a"), ("all", "/data"), ("other", "/srv")]);
    cfg.add_team("dev", "sub").unwrap();
    cfg.add_user("alice", "dev", "sub").unwrap();
    let dev = |d: u64| Some(Device { dev: d, rotational: Some("0".into()) });
    let plan = build_scan_plan(&cfg, &vec![dev(1), dev(1), dev(2)], &Default::default(), 8, false);
    assert_eq!(plan.groups.len(), 2);
    let names: Vec<Vec<&str>> = plan
        .groups
        .iter()
        .map(|g| g.roots.iter().flat_map(|r| r.views.iter()).map(|v| v.name.as_str()).collect())
        .collect();
    // Each target is served by exactly one group.
    let mut all: Vec<&str> = names.concat();
    all.sort();
    assert_eq!(all, vec!["all", "other", "sub"]);
    let g = plan.groups.iter().find(|g| g.st_dev == 1).unwrap();
    assert_eq!(g.roots.len(), 1);
    assert_eq!(g.roots[0].scan_path, "/data");
    let sub = g.roots[0].views.iter().find(|v| v.name == "sub").unwrap();
    assert_eq!(sub.prefix.as_deref(), Some("/data/a"));
    assert_eq!(sub.team_map.get("alice"), Some(&1));
    assert_eq!(sub.team_names[&1], "dev");
    assert!(g.workers >= 1 && g.workers <= 8);
}

#[test]
fn workers_that_were_asked_for_go_to_every_device() {
    let cfg = config(&[("a", "/a"), ("b", "/b")]);
    let dev = |d: u64| Some(Device { dev: d, rotational: Some("1".into()) });
    let plan = build_scan_plan(&cfg, &vec![dev(1), dev(2)], &Default::default(), 64, true);
    let workers: Vec<usize> = plan.groups.iter().map(|g| g.workers).collect();
    assert_eq!(workers, vec![64, 64]);
    // Otherwise they share the budget, and a spinning disk has its cap.
    let plan = build_scan_plan(&cfg, &vec![dev(1), dev(2)], &Default::default(), 64, false);
    let workers: Vec<usize> = plan.groups.iter().map(|g| g.workers).collect();
    assert_eq!(workers, vec![8, 8]);
}

#[test]
fn keys_that_abort_a_scan() {
    let key = |code: KeyCode, ctrl: bool| Key { code, ctrl };
    assert!(asks_abort(key(KeyCode::Char('q'), false)));
    assert!(asks_abort(key(KeyCode::Esc, false)));
    assert!(asks_abort(key(KeyCode::Char('c'), true)));
    assert!(!asks_abort(key(KeyCode::Char('c'), false)));
    assert!(!asks_abort(key(KeyCode::Enter, true)));
}

#[test]
fn targets_that_cannot_be_read_are_left_out() {
    let cfg = config(&[("gone", "/gone"), ("here", "/here")]);
    let plan = build_scan_plan(
        &cfg,
        &vec![None, Some(Device { dev: 5, rotational: None })],
        &Default::default(),
        4,
        false,
    );
    assert_eq!(plan.groups.len(), 1);
    assert_eq!(plan.groups[0].roots[0].scan_path, "/here");
}

#[test]
fn targets_past_their_last_day_are_not_due() {
    assert!(past_end("20260102", &Some("20260101".into())));
    assert!(!past_end("20260101", &Some("20260101".into())));
    assert!(!past_end("20260101", &None));
    let mut cfg = config(&[("old", "/old"), ("new", "/new")]);
    cfg.find_target_mut("old").unwrap().end_scan = Some("20200101".into());
    let dev = || Some(Device { dev: 1, rotational: None });
    let plan = build_scan_plan(&cfg, &vec![dev(), dev()], &Default::default(), 4, false);
    let jobs = plan_scan_jobs(&plan, "20260101");
    assert_eq!(jobs.len(), 1);
    assert_eq!(jobs[0].jobs.len(), 1);
    let j = &jobs[0].jobs[0];
    let v = &plan.groups[jobs[0].group].roots[j.root].views[j.view];
    assert_eq!(v.name, "new");
}

#[test]
fn settings_of_a_target_take_precedence() {
    let s = view_settings(Some(true), Some(-3), Some(0), false, 3, 8);
    assert_eq!((s.tree_map, s.level, s.workers), (true, 0, 1));
    let s = view_settings(None, None, None, false, 3, 8);
    assert_eq!((s.tree_map, s.level, s.workers), (false, 3, 8));
    assert!(device_permits(0) > 1000);
    assert_eq!(device_permits(3), 3);
}

// ---------------------------------------------------------------------------
// The walk
// ---------------------------------------------------------------------------

fn rules(use_statx: bool) -> WalkRules {
    WalkRules {
        skip_dirs: vec!["/scan/skip".into()],
        mounts: build_mount_skip_sets("", &vec![], "/scan"),
        use_statx,
        root_dev: Some(7),
        root_mnt_id: Some(70),
        target_uids: Some(vec![1]),
    }
}

fn dir(dev: u64, ino: u64) -> Option<DirMeta> {
    Some(DirMeta { dev, ino, uid: 3, statx: None })
}

fn file(dev: u64, ino: u64, nlink: u64) -> Option<FileMeta> {
    Some(FileMeta { dev, ino, blocks: 8, uid: 1, nlink, statx: None })
}

#[test]
fn entries_by_their_kind() {
    let r = rules(false);
    assert!(matches!(r.entry_step("/scan/d", true, EntryKind::Dir), EntryStep::StatDir));
    assert!(matches!(r.entry_step("/scan/f", true, EntryKind::File), EntryStep::StatFile));
    assert!(matches!(r.entry_step("/scan/skip", true, EntryKind::Dir), EntryStep::Skip));
    assert!(matches!(r.entry_step("/scan/l", true, EntryKind::Symlink), EntryStep::CountInode));
}

#[test]
fn directories_are_entered_once_and_on_one_device() {
    let r = rules(false);
    let mut seen = Seen::new();
    assert!(matches!(
        r.dir_step(&mut seen, "/scan/a", true, dir(7, 1)),
        DirStep::Count { owner: Some(3) }
    ));
    assert!(matches!(r.dir_step(&mut seen, "/scan/b", true, dir(7, 1)), DirStep::Skip));
    assert!(matches!(r.dir_step(&mut seen, "/scan/c", true, dir(8, 2)), DirStep::Skip));
}

#[test]
fn a_file_with_several_names_is_counted_once() {
    let r = rules(false);
    let mut seen = Seen::new();
    assert!(matches!(
        r.file_step(&mut seen, None, file(7, 5, 2)),
        FileStep::Count { uid: 1, size: 4096, target: true }
    ));
    assert!(matches!(r.file_step(&mut seen, None, file(7, 5, 2)), FileStep::Duplicate));
    // A file with one name is not looked up.
    assert!(matches!(r.file_step(&mut seen, None, file(7, 6, 1)), FileStep::Count { .. }));
    assert!(matches!(r.file_step(&mut seen, None, file(7, 6, 1)), FileStep::Count { .. }));
    assert!(matches!(r.file_step(&mut seen, None, None), FileStep::Issue));
    assert!(matches!(r.file_step(&mut seen, None, file(8, 9, 1)), FileStep::Foreign));
}

#[test]
fn on_a_network_file_system_the_mount_identifies() {
    let r = rules(true);
    let mut seen = Seen::new();
    let lite = |ino: u64, nlink: u64| Some(StatxLite { ino, mnt_id: 70, blocks: 2, uid: 9, nlink });
    assert!(matches!(
        r.file_step(&mut seen, lite(5, 2), None),
        FileStep::Count { uid: 9, size: 1024, target: false }
    ));
    assert!(matches!(r.file_step(&mut seen, lite(5, 2), None), FileStep::Duplicate));
    assert_eq!(
        duscan::walk::hardlink_key(Some(StatxId { ino: 5, mnt_id: Some(70) }), 1, 2, true),
        (5, 70)
    );
    assert_eq!(
        duscan::walk::hardlink_key(Some(StatxId { ino: 5, mnt_id: None }), 1, 2, true),
        (5, 2)
    );
    assert_eq!(duscan::walk::hardlink_key(None, 1, 2, true), (1, 2));
}

#[test]
fn walks_are_added_up() {
    let mut a = WalkStats::new();
    a.count_dir();
    assert!(a.has_room(100));
    let e = a.count_file("/scan/d/f", 1, 100, true).unwrap();
    assert_eq!((e.uid, e.size, e.path.as_str()), (1, 100, "/scan/d/f"));
    // A user that is not asked for is counted without a record.
    assert!(a.count_file("/scan/d/g", 2, 50, false).is_none());
    a.count_issue();
    let mut b = WalkStats::new();
    b.count_inode();
    b.count_file("/scan/d/h", 1, 7, true);
    a.merge(&b);
    assert_eq!((a.files, a.dirs, a.inodes, a.size), (3, 1, 5, 157));
    assert_eq!(a.permission_issues, 1);
}

#[test]
fn users_add_up_where_all_are_reported_on() {
    let mut s = WalkStats::new();
    for (path, uid, size) in [("/r/a", 1, 100), ("/r/b", 2, 50), ("/r/d/c", 1, 7)] {
        s.count_file(path, uid, size, true);
    }
    let users = s.by_uid.list(0);
    assert_eq!(users.iter().map(|t| t.size).sum::<i64>(), s.size);
    assert_eq!(users.iter().map(|t| t.files).sum::<i64>() as u64, s.files);
}

#[test]
fn the_size_of_a_walk() {
    assert_eq!(walker_threads(2, None), 8);
    assert_eq!(walker_threads(100, None), 64);
    assert_eq!(walker_threads(0, None), 4);
    assert_eq!(walker_threads(2, Some(0)), 1);
    assert_eq!(walker_threads(2, Some(200)), 200);
    assert!(!should_flush(1, 1));
    assert!(should_flush(usize::MAX, 0));
    assert!(should_flush(0, usize::MAX));
    let e = walk_error("/a/b: Permission denied (os error 13)");
    assert_eq!((e.path.as_str(), e.errcode.as_str(), e.uid), ("/a/b", "EACCES", 0));
    assert_eq!(walk_error("odd").path, "");
}

// ---------------------------------------------------------------------------
// From the scan to the report
// ---------------------------------------------------------------------------

fn job() -> ViewJob {
    ViewJob {
        tree_map: true,
        sync_host: Some("h".into()),
        sync_dest_dir: Some("/d".into()),
        webhook_url: Some("u".into()),
    }
}

fn totals(cancelled: bool) -> ScanTotals {
    ScanTotals { files: 3, dirs: 2, size: 10, cancelled, has_records: true }
}

#[test]
fn a_target_goes_through_all_its_stages() {
    let (mut run, first) = ViewRun::start();
    assert!(matches!(first.action, ViewAction::Scan));
    let j = job();
    let steps = vec![
        (ViewEvent::Scanned(Ok(totals(false))), ViewAction::WaitForSlot),
        (ViewEvent::SlotTaken, ViewAction::BuildDetail),
        (ViewEvent::DetailBuilt(Ok(true)), ViewAction::BuildTreemap),
        (ViewEvent::TreemapBuilt, ViewAction::Merge),
        (ViewEvent::Merged(true), ViewAction::WriteHistory),
        (ViewEvent::HistoryWritten, ViewAction::WriteLog),
        (ViewEvent::LogWritten, ViewAction::Sync),
        (ViewEvent::SyncDone, ViewAction::Notify),
        (ViewEvent::Notified, ViewAction::Stop),
    ];
    let mut last = None;
    for (event, want) in steps {
        let step = run.advance(&j, event);
        assert_eq!(step.action, want);
        if let Some(s) = step.status {
            last = Some((s.stage, s.running));
        }
    }
    assert_eq!(last, Some(("done", false)));
}

#[test]
fn a_cancelled_scan_builds_nothing() {
    let (mut run, _) = ViewRun::start();
    let step = run.advance(&job(), ViewEvent::Scanned(Ok(totals(true))));
    assert_eq!(step.action, ViewAction::Stop);
    let (mut run, _) = ViewRun::start();
    let step = run.advance(&job(), ViewEvent::Scanned(Err("boom".into())));
    assert_eq!(step.action, ViewAction::Stop);
    let s = step.status.unwrap();
    assert_eq!((s.stage, s.running, s.error.as_str()), ("error", false, "boom"));
}

#[test]
fn a_target_without_a_directory_to_mirror_to_is_not_mirrored() {
    let j = ViewJob {
        tree_map: false,
        sync_host: Some("h".into()),
        sync_dest_dir: None,
        webhook_url: None,
    };
    let (mut run, _) = ViewRun::start();
    run.advance(&j, ViewEvent::Scanned(Ok(totals(false))));
    run.advance(&j, ViewEvent::SlotTaken);
    assert_eq!(run.advance(&j, ViewEvent::DetailBuilt(Ok(false))).action, ViewAction::Merge);
    run.advance(&j, ViewEvent::Merged(true));
    run.advance(&j, ViewEvent::HistoryWritten);
    assert_eq!(run.advance(&j, ViewEvent::LogWritten).action, ViewAction::SkipSync);
}

fn group() -> GroupPlan {
    let view = |n: &str, derived: bool| ViewPlan {
        name: n.into(),
        view_path: format!("/s/{}", n),
        output_subdir: format!("/o/{}", n),
        derived,
        purge_time: None,
    };
    GroupPlan {
        workers: 2,
        build_treemap: false,
        roots: vec![RootPlan { scan_path: "/s".into(), views: vec![view("a", false), view("b", true)] }],
    }
}

#[test]
fn a_group_runs_its_targets_one_after_the_other() {
    let plan = group();
    let mut run = GroupRun::start(&plan);
    assert_eq!(run.stage, Stage::Scan);
    run.advance(&plan, GroupEvent::Scanned(Ok(())));
    for name in ["a", "b"] {
        assert_eq!(run.stage, Stage::MakeDir, "{}", name);
        run.advance(&plan, GroupEvent::DirMade(Ok(())));
        assert_eq!(run.stage, Stage::Detail);
        run.advance(
            &plan,
            GroupEvent::DetailBuilt(Ok(Built {
                total_files: 1,
                seconds: "0.1".into(),
                aggregates: None,
            })),
        );
        assert_eq!(run.stage, Stage::Summarise);
        run.advance(&plan, GroupEvent::Summarised(Ok((1, 2))));
        run.advance(&plan, GroupEvent::ReportOpened(Ok(())));
        run.advance(&plan, GroupEvent::HistoryWritten(Ok(())));
        if run.stage == Stage::Purge {
            run.advance(&plan, GroupEvent::Purged(Ok(0)));
        }
        assert_eq!(run.stage, Stage::Merge);
        run.advance(&plan, GroupEvent::Merged(Ok(())));
    }
    assert_eq!(run.stage, Stage::Clean);
    run.advance(&plan, GroupEvent::Cleaned);
    assert_eq!(run.stage, Stage::Finished);
    assert_eq!(
        run.entries,
        vec![manifest_entry("a", "/s/a", false), manifest_entry("b", "/s/b", true)]
    );
}

#[test]
fn an_error_ends_a_group() {
    let plan = group();
    let mut run = GroupRun::start(&plan);
    run.advance(&plan, GroupEvent::Scanned(Err("boom".into())));
    assert_eq!(run.stage, Stage::Failed);
    assert!(run.error.contains("boom"));
}

#[test]
fn the_manifest_of_a_run() {
    let e = manifest_entry("a", "/p", false);
    assert_eq!(
        e,
        "{\"name\":\"a\",\"path\":\"/p\",\"kind\":\"physical_root\",\"status\":\"scanned\"}"
    );
    assert_eq!(manifest(&vec![Ok(vec![e.clone()])]).unwrap(), format!("{{\"targets\":[{}]}}", e));
    assert_eq!(
        manifest(&vec![Ok(vec![e.clone()]), Err("a \"b\"".into())]).unwrap(),
        format!("{{\"targets\":[{}],\"errors\":[\"a \\\"b\\\"\"]}}", e)
    );
    assert_eq!(manifest(&vec![Err("x".into()), Err("y".into())]).unwrap_err(), "x; y");
    assert_eq!(manifest(&vec![]).unwrap(), "{\"targets\":[]}");
}

#[test]
fn texts_of_a_run() {
    assert_eq!(scan_tmp_base_for("/o"), "/o/.scan_tmp");
    assert_eq!(
        status_json("scan", "m", 5, ",\"x\":1"),
        "{\"phase\":\"scan\",\"message\":\"m\",\"updated_at\":5,\"x\":1}"
    );
    assert_eq!(log_file_line(5, "scan", "m"), "[5] [scan] m");
    assert_eq!(json_to_i64(&PlanId::Number(Some(4))), Some(4));
    assert_eq!(json_to_i64(&PlanId::Text("12".into())), Some(12));
    assert_eq!(json_to_i64(&PlanId::Text("x".into())), None);
    assert_eq!(json_to_i64(&PlanId::Other), None);
    assert!(run_scan_plan_impl("{}".into(), false, 3, 0, false).is_err());
}

#[test]
fn users_and_teams_of_a_target() {
    let listed = vec![("alice".to_string(), 10), ("bob".to_string(), 5)];
    let users = vec![("alice".to_string(), Some(1))];
    let teams = vec![("dev".to_string(), Some(1))];
    let r = summarise_view(&listed, &users, &teams, &map_of(vec![]));
    assert!(r.teams.is_empty());
    let team_map = map_of(vec![("alice".to_string(), "1".to_string())]);
    let r = summarise_view(&listed, &users, &teams, &team_map);
    assert_eq!(r.users.len(), 2);
    assert_eq!((r.users[0].kind.as_str(), r.users[1].kind.as_str()), ("user", "other"));
    assert_eq!(r.teams.len(), 1);
    assert_eq!((r.teams[0].name.as_str(), r.teams[0].size), ("dev", 10));
}

#[test]
fn the_interpreter_stub_runs_in_place() {
    assert_eq!(PyRuntimeError::new_err("x".into()), "x");
    let n = Python::with_gil(|py| py.allow_threads(|| 41) + 1);
    assert_eq!(n, 42);
    assert!(Python::with_gil(|py| py.check_signals()).is_ok());
}

// ---------------------------------------------------------------------------
// The monitor
// ---------------------------------------------------------------------------

#[test]
fn the_monitor_adds_up_its_targets() {
    let mut s = AppState::new(&vec!["a".into(), "b".into()]);
    s.update("a", 10, 2, 100, "scanning", "");
    s.update("b", 5, 1, 50, "error", "boom");
    s.update("zzz", 5, 1, 50, "done", "");
    let t = s.totals();
    assert_eq!((t.files, t.dirs, t.size), (15, 3, 150));
    assert_eq!(s.target_mut("b").unwrap().error, "boom");
    assert!(s.target_mut("c").is_none());
    assert_eq!(s.state_text(), "running");
    s.abort = true;
    assert_eq!(s.state_text(), "ABORTING\u{2026}");
    assert_eq!(closing_line(false, 1506009, 225996, 265), "Scan complete: 1506009 files, 225996 dirs | 26.5s");
    assert_eq!(closing_line(true, 3, 2, 11), "Scan aborted: 3 files, 2 dirs (partial)");
    assert_eq!((files_since(5, 3), files_since(3, 5)), (2, 0));
    assert_eq!(phase_mark("done"), " \u{2713}");
    assert_eq!(phase_text("error", "x"), "error: x");
    assert_eq!(phase_text("error", ""), "error");
}
