use duscan::cli::UserList;
use duscan::config::Config;
use duscan::listing::TreeEntry;
use duscan::screen::footer_hint;
use duscan::screen::input_line;
use duscan::screen::App;
use duscan::screen::InputStep;
use duscan::screen::Request;
use duscan::screen_rows::crumb;
use duscan::screen_rows::override_rows;
use duscan::screen_rows::settings_rows;
use duscan::screen_rows::target_label;
use duscan::screen_rows::target_row;
use duscan::screen_rows::team_users_title;
use duscan::screen_rows::user_col_title;
use duscan::tui::bool_str;
use duscan::tui::cycle_sync_pass;
use duscan::tui::cycle_tree_map;
use duscan::tui::edit_setting;
use duscan::tui::edit_target;
use duscan::tui::is_path_input;
use duscan::tui::opt_i64_str;
use duscan::tui::InputKind;
use duscan::tui_nav::SettingField;
use duscan::tui_nav::TargetField;
use duscan::tracking::export_from_output;
use duscan::tracking::export_outcome;
use duscan::tracking::job_row_head;
use duscan::tracking::job_row_tail;
use duscan::tracking::jobs_done;
use duscan::tracking::note_planned;
use duscan::tracking::note_submitted;
use duscan::tracking::phase_display;
use duscan::tracking::poll_jobs;
use duscan::tracking::scan_finished;
use duscan::tracking::start_scan;
use duscan::tracking::submitted_jobs;
use duscan::tracking::ScanStart;
use duscan::tracking::TargetStatus;
use duscan::tui::abs_at_file_tokens;
use duscan::tui::longest_common_prefix;
use duscan::tui::opt_bool_str;
use duscan::tui::parse_opt_i64;
use duscan::tui::to_absolute;
use duscan::tui::Mode;
use duscan::tui_nav::handle_browse_key;
use duscan::tui_nav::next_tab;
use duscan::tui_nav::prev_tab;
use duscan::tui_nav::Facts;
use duscan::tui_nav::Key;
use duscan::tui_nav::KeyCode;
use duscan::tui_nav::OutputView;
use duscan::tui_nav::ScanState;
use duscan::tui_nav::Tab;

fn app() -> App {
    let mut cfg = Config::default();
    for n in ["one", "two"] {
        cfg.add_target(n, &format!("/{}", n), None, None).unwrap();
        cfg.add_team("dev", n).unwrap();
        for u in ["Alice", "bob", "carol"] {
            cfg.add_user(u, "dev", n).unwrap();
        }
    }
    App::new(cfg)
}

fn facts(a: &App) -> Facts {
    Facts {
        scan: ScanState::Idle,
        lsf: false,
        targets: a.cfg.targets.len(),
        teams: a.cfg.targets.get(a.cursor.target).map(|t| t.teams.len()).unwrap_or(0),
        users: a.filtered_team_users().len(),
        snapshots: 2,
        report_users: 2,
        children: 2,
    }
}

fn children() -> Vec<TreeEntry> {
    ["x", "y"]
        .iter()
        .enumerate()
        .map(|(i, n)| TreeEntry { id: i as i64 + 10, name: n.to_string(), size: 1, file_count: 1 })
        .collect()
}

fn press(a: &mut App, code: KeyCode) -> Request {
    let m = handle_browse_key(a.cursor, Key { code, ctrl: false }, facts(a));
    a.perform(m, &vec!["u1".into(), "u2".into()], &children())
}

fn keys(a: &mut App, text: &str) {
    for c in text.chars() {
        press(a, KeyCode::Char(c));
    }
}

/// Types a line into the input box and takes it.
fn enter(a: &mut App, line: &str) {
    while let Mode::Input { buf, .. } = &a.mode {
        if buf.is_empty() {
            break;
        }
        a.handle_input_key(KeyCode::Backspace);
    }
    for c in line.chars() {
        a.handle_input_key(KeyCode::Char(c));
    }
    assert_eq!(a.handle_input_key(KeyCode::Enter), InputStep::Commit);
    let table: Vec<(String, String)> =
        a.typed_paths().into_iter().map(|p| (p.clone(), format!("/cwd/{}", p))).collect();
    let files: Vec<UserList> = a
        .named_lists(&table)
        .into_iter()
        .map(|path| UserList { path, text: Ok("zoe\n".into()) })
        .collect();
    let done = a.commit_input(&table, &files).unwrap();
    a.finish(done, Ok(()));
}

#[test]
fn tabs_form_a_ring() {
    let mut t = Tab::Targets;
    for _ in 0..5 {
        assert_eq!(prev_tab(next_tab(t)), t);
        t = next_tab(t);
    }
    assert_eq!(t, Tab::Targets);
    let mut a = app();
    keys(&mut a, "4");
    assert_eq!(a.cursor.tab, Tab::Output);
    press(&mut a, KeyCode::Tab);
    assert_eq!(a.cursor.tab, Tab::Settings);
    press(&mut a, KeyCode::BackTab);
    assert_eq!(a.cursor.tab, Tab::Output);
}

#[test]
fn the_cursor_stays_among_the_targets() {
    let mut a = app();
    keys(&mut a, "jjjj");
    assert_eq!(a.cursor.target, 1);
    keys(&mut a, "kkkk");
    assert_eq!(a.cursor.target, 0);
}

#[test]
fn a_target_is_created_in_two_steps() {
    let mut a = app();
    keys(&mut a, "a");
    enter(&mut a, "");
    assert_eq!(a.status, "Error: target name cannot be empty");
    keys(&mut a, "a");
    enter(&mut a, " new ");
    assert!(matches!(&a.mode, Mode::Input { prompt, .. } if prompt == "Path to scan:"));
    enter(&mut a, "rel");
    assert_eq!(a.status, "Created target 'new'");
    assert_eq!(a.cfg.targets[2].path, "/cwd/rel");
    assert_eq!(a.cursor.target, 2);
    keys(&mut a, "a");
    enter(&mut a, "new");
    enter(&mut a, "/abs");
    assert_eq!(a.status, "Error: Target 'new' already exists");
}

#[test]
fn settings_of_a_target_are_typed() {
    let mut a = app();
    keys(&mut a, "p");
    enter(&mut a, "30");
    assert_eq!(a.cfg.targets[0].purge_time, Some(30));
    assert_eq!(a.status, "Updated purge_time of 'one'");
    keys(&mut a, "p");
    enter(&mut a, "soon");
    assert_eq!(a.status, "Error: must be a number or empty");
    keys(&mut a, "p");
    enter(&mut a, "");
    assert_eq!(a.cfg.targets[0].purge_time, None);
    keys(&mut a, "s");
    enter(&mut a, "20300101");
    assert_eq!(a.cfg.targets[0].end_scan.as_deref(), Some("20300101"));
    // A line that is taken as it is shown changes nothing.
    let before = format!("{:?}", a.cfg);
    keys(&mut a, "e");
    assert_eq!(a.handle_input_key(KeyCode::Enter), InputStep::Commit);
    let done = a.commit_input(&vec![], &vec![]).unwrap();
    a.finish(done, Ok(()));
    assert_eq!(before, format!("{:?}", a.cfg));
}

#[test]
fn switches_go_around() {
    let mut a = app();
    keys(&mut a, "3");
    let mut seen = vec![];
    for _ in 0..3 {
        assert!(matches!(press(&mut a, KeyCode::Enter), Request::Save));
        seen.push(a.cfg.targets[0].tree_map);
    }
    assert_eq!(seen, vec![Some(true), Some(false), None]);
    assert_eq!(a.status, "tree_map = (default)");
}

#[test]
fn global_settings_are_typed() {
    let mut a = app();
    keys(&mut a, "5jj");
    press(&mut a, KeyCode::Enter);
    enter(&mut a, "-4");
    assert_eq!(a.cfg.max_parallel_devices, 0);
    keys(&mut a, "j");
    press(&mut a, KeyCode::Enter);
    enter(&mut a, "0");
    assert_eq!(a.cfg.nfs_parallel, 1);
    press(&mut a, KeyCode::Enter);
    enter(&mut a, "many");
    assert_eq!(a.status, "Error: must be a number");
    keys(&mut a, "jjj");
    press(&mut a, KeyCode::Enter);
    enter(&mut a, "y");
    assert!(a.cfg.lsf.enabled);
    assert_eq!(a.status, "lsf.enabled = yes");
    keys(&mut a, "jj");
    press(&mut a, KeyCode::Enter);
    enter(&mut a, "");
    assert_eq!(a.status, "lsf.os cleared");
}

#[test]
fn teams_and_users_are_added_and_deleted() {
    let mut a = app();
    keys(&mut a, "2a");
    enter(&mut a, "ops");
    assert_eq!(a.status, "Added team 'ops'");
    assert_eq!(a.current_team_name().as_deref(), Some("ops"));
    keys(&mut a, "u");
    enter(&mut a, "dan, @list.txt ,dan");
    assert_eq!(a.status, "Added 2 user(s) to 'ops'");
    assert_eq!(a.current_team_users(), vec!["dan", "zoe"]);
    keys(&mut a, "u");
    enter(&mut a, " , ");
    assert_eq!(a.status, "Error: no users given");
    keys(&mut a, "x");
    assert!(a.handle_confirm_key(KeyCode::Char('n')).is_none());
    assert_eq!(a.status, "Cancelled.");
    keys(&mut a, "x");
    let done = a.handle_confirm_key(KeyCode::Char('y')).unwrap();
    a.finish(done, Ok(()));
    assert_eq!(a.status, "Removed user 'dan'");
    keys(&mut a, "d");
    let done = a.handle_confirm_key(KeyCode::Char('Y')).unwrap();
    a.finish(done, Err("disk full".into()));
    assert_eq!(a.status, "Error: disk full");
    assert_eq!(a.current_team_name().as_deref(), Some("dev"));
    keys(&mut a, "1d");
    let done = a.handle_confirm_key(KeyCode::Char('y')).unwrap();
    a.finish(done, Ok(()));
    assert_eq!(a.status, "Deleted target 'one'");
    assert_eq!(a.cfg.targets.len(), 1);
}

#[test]
fn the_filter_is_text_and_ignores_case() {
    let mut a = app();
    keys(&mut a, "2/");
    assert!(a.cursor.filtering);
    keys(&mut a, "aL");
    assert_eq!((a.filter.as_str(), a.filter_lower.as_str()), ("aL", "al"));
    assert_eq!(a.filtered_team_users(), vec!["Alice"]);
    // Keys that do something elsewhere are text here.
    keys(&mut a, "q");
    assert!(!a.quit);
    press(&mut a, KeyCode::Backspace);
    press(&mut a, KeyCode::Enter);
    assert!(!a.cursor.filtering);
    assert!(a.matches_filter("ROYAL"));
    assert!(!a.matches_filter("bob"));
    a.clear_filter();
    assert!(a.matches_filter("bob"));
}

#[test]
fn the_treemap_is_opened_and_left() {
    let mut a = app();
    keys(&mut a, "4t");
    assert_eq!(a.cursor.output, OutputView::Treemap);
    keys(&mut a, "j");
    assert!(matches!(press(&mut a, KeyCode::Enter), Request::Descend));
    assert_eq!(a.tm_stack, vec![(11, "y".to_string())]);
    a.settle_child(false);
    assert_eq!(crumb(&a), "/y");
    assert!(matches!(press(&mut a, KeyCode::Enter), Request::Descend));
    assert_eq!(crumb(&a), "/y/x");
    a.settle_child(true);
    assert_eq!(a.status, "Leaf directory (no sub-dirs).");
    press(&mut a, KeyCode::Backspace);
    assert!(a.tm_stack.is_empty());
}

#[test]
fn scans_are_asked_for_one_at_a_time() {
    let mut a = app();
    keys(&mut a, "r");
    assert_eq!(a.pending_scan, Some(vec!["one".to_string()]));
    keys(&mut a, "R");
    assert_eq!(a.pending_scan, Some(vec![]));
    let mut f = facts(&a);
    f.scan = ScanState::Running;
    let m = handle_browse_key(a.cursor, Key { code: KeyCode::Char('r'), ctrl: false }, f);
    a.pending_scan = None;
    a.perform(m, &vec![], &vec![]);
    assert!(a.pending_scan.is_none());
    let m = handle_browse_key(a.cursor, Key { code: KeyCode::Esc, ctrl: false }, f);
    assert!(matches!(a.perform(m, &vec![], &vec![]), Request::AbortScan));
    keys(&mut a, "q");
    assert!(a.quit);
}

#[test]
fn exports_name_a_user_or_all() {
    let mut a = app();
    keys(&mut a, "4dj");
    assert!(matches!(press(&mut a, KeyCode::Char('x')), Request::Export(Some(u)) if u == "u2"));
    assert!(matches!(press(&mut a, KeyCode::Char('X')), Request::Export(None)));
    let p = export_from_output(&a, &Some("u2".into()), false, true).unwrap();
    assert_eq!(p.dest, "exports/one");
    assert_eq!(p.starting, "Exporting u2\u{2026}");
    assert_eq!(
        export_from_output(&a, &None, true, true).err().unwrap(),
        "Export already in progress\u{2026}"
    );
    assert!(export_from_output(&a, &None, false, false).is_err());
    assert_eq!(export_outcome(&Ok(3), "d"), "Exported 3 user(s) -> d");
    assert_eq!(export_outcome(&Err("x".into()), "d"), "Export failed: x");
}

#[test]
fn paths_are_completed() {
    let mut a = app();
    keys(&mut a, "e");
    for c in "/du".chars() {
        a.handle_input_key(KeyCode::Char(c));
    }
    assert_eq!(a.handle_input_key(KeyCode::Tab), InputStep::Complete);
    let c = a.completion().unwrap();
    assert_eq!((c.dir.as_str(), c.prefix.as_str(), c.allow_files), ("/one/", "du", false));
    let entries = vec![
        ("dust".to_string(), true),
        ("dung".to_string(), true),
        ("dune.txt".to_string(), false),
        ("other".to_string(), true),
    ];
    a.complete(&c, &entries);
    match &a.mode {
        Mode::Input { buf, completions, .. } => {
            assert_eq!(buf, "/one/du");
            assert_eq!(completions, &vec!["dung/".to_string(), "dust/".to_string()]);
        }
        _ => panic!("no input"),
    }
    a.handle_input_key(KeyCode::Char('n'));
    let c = a.completion().unwrap();
    a.complete(&c, &entries);
    assert!(matches!(&a.mode, Mode::Input { buf, .. } if buf == "/one/dung/"));
    let c = a.completion().unwrap();
    a.complete(&c, &vec![]);
    assert_eq!(a.status, "no match for '/one/dung/'");
}

#[test]
fn list_files_are_completed_in_a_list_of_users() {
    let mut a = app();
    keys(&mut a, "2u");
    for c in "bob".chars() {
        a.handle_input_key(KeyCode::Char(c));
    }
    assert!(a.completion().is_none());
    for c in ", @li".chars() {
        a.handle_input_key(KeyCode::Char(c));
    }
    let c = a.completion().unwrap();
    assert_eq!((c.head.as_str(), c.prefix.as_str(), c.allow_files), ("bob, @", "li", true));
    a.complete(&c, &vec![("list.txt".to_string(), false)]);
    assert!(matches!(&a.mode, Mode::Input { buf, .. } if buf == "bob, @list.txt"));
}

#[test]
fn small_texts() {
    assert_eq!(opt_bool_str(None), "(default)");
    assert_eq!(parse_opt_i64(""), Ok(None));
    assert_eq!(parse_opt_i64("+5"), Ok(Some(5)));
    assert!(parse_opt_i64("-5").is_err());
    assert!(parse_opt_i64("5x").is_err());
    let v = |s: &[&str]| s.iter().map(|x| x.to_string()).collect::<Vec<_>>();
    assert_eq!(longest_common_prefix(&v(&["abc", "abd", "ab"])), "ab");
    assert_eq!(longest_common_prefix(&v(&["\u{e4}x", "\u{e5}x"])), "");
    assert_eq!(longest_common_prefix(&v(&[])), "");
    assert_eq!(to_absolute("/a", &Some("/b".into())), "/a");
    assert_eq!(to_absolute("a", &Some("/b/a".into())), "/b/a");
    assert_eq!(to_absolute("a", &None), "a");
    assert_eq!(to_absolute("", &Some("/b".into())), "");
    let table = vec![("rel/list.txt".to_string(), "/abs/rel/list.txt".to_string())];
    assert_eq!(
        abs_at_file_tokens("alice,@rel/list.txt,bob", &table),
        "alice,@/abs/rel/list.txt,bob"
    );
}

#[test]
fn hints_follow_the_mode() {
    let mut a = app();
    assert!(footer_hint(&a).contains("a add"));
    keys(&mut a, "e");
    assert!(footer_hint(&a).contains("Tab complete dir"));
    a.handle_input_key(KeyCode::Esc);
    assert_eq!(a.status, "Cancelled.");
    keys(&mut a, "d");
    assert!(footer_hint(&a).starts_with("y confirm"));
}

#[test]
fn rows_and_titles() {
    let mut a = app();
    assert_eq!(
        target_row(&a.cfg.targets[0]),
        format!(
            "{:<18} {:<32} teams:{:<3} users:{:<3} end:{:<9} purge:{}",
            "one", "/one", 1, 3, "-", "-"
        )
    );
    assert_eq!(target_label("one", 0, 2), "one [1/2]  ([ ] switch)");
    assert_eq!(user_col_title(&a, 1, 3), " Users (3) ");
    keys(&mut a, "2/b");
    assert_eq!(user_col_title(&a, 1, 3), " Users (1/3) \u{2014} /b_ ");
    assert_eq!(
        team_users_title(&a, "dev", 1, 3),
        " Users \u{2014} team: dev (1/3) \u{2014} /b_ "
    );
    let rows = settings_rows(&a.cfg, true);
    assert_eq!(rows.len(), 11);
    assert_eq!(rows[6], "lsf.enabled          = no [available]");
    assert_eq!(settings_rows(&a.cfg, false)[6], "lsf.enabled          = no [not found]");
    assert_eq!(rows[9], "lsf.mem_mb           = (omit)");
    let rows = override_rows(&a.cfg.targets[0]);
    assert_eq!(rows[0], "tree_map      = (default)");
    assert_eq!(rows[6], "export_dir    = (exports)");
}

#[test]
fn batch_jobs_are_followed() {
    let mut a = app();
    assert!(matches!(start_scan(&mut a, &vec![], false, true), ScanStart::Local));
    assert!(matches!(start_scan(&mut a, &vec![], true, false), ScanStart::Stopped));
    assert_eq!(a.status, "Cannot resolve duscan path for LSF submit.");
    let targets = match start_scan(&mut a, &vec![], true, true) {
        ScanStart::Lsf(t) => t,
        _ => panic!("no jobs"),
    };
    assert_eq!(targets, vec!["one", "two"]);
    assert!(!note_submitted(&mut a, 0, 2));
    assert!(note_submitted(&mut a, 1, 2));
    assert_eq!(a.status, "Submitted 1/2 target(s) to LSF \u{2014} tracking live...");

    let mut jobs = submitted_jobs(&targets);
    assert_eq!(job_row_tail(&jobs[0]), "  waiting for job to start...");
    let status = |running: bool| {
        Some(TargetStatus {
            stage: "scanning".into(),
            files: 1234,
            dirs: 5,
            size_bytes: 1500,
            error: "".into(),
            total_elapsed_sec: 9,
            running,
        })
    };
    assert!(!poll_jobs(&mut jobs, &vec![status(true), None], 3));
    assert_eq!(jobs[1].elapsed_sec, 3);
    assert_eq!(job_row_tail(&jobs[0]), "  1,234 files \u{b7} 5 dirs \u{b7} 1.5 KB  |  9.0s");
    assert_eq!(job_row_head("one", "scanning"), format!("{:<16}{:<18}", "one", "Scanning"));
    assert!(!jobs_done(&jobs));
    assert!(poll_jobs(&mut jobs, &vec![status(false), status(false)], 6));
    assert!(jobs_done(&jobs));
    assert!(!jobs_done(&vec![]));
    assert_eq!(phase_display("merging"), "Merging");
    assert_eq!(phase_display("odd"), "odd");

    note_planned(&mut a, Some(2));
    assert!(a.status.starts_with("Scanning 2 target(s)"));
    note_planned(&mut a, None);
    assert!(a.status.starts_with("Nothing to scan"));
    a.cursor.target = 1;
    scan_finished(&mut a, Config::default(), true);
    assert_eq!(a.cursor.target, 0);
    assert_eq!(a.status, "LSF scan finished \u{2014} back to config.");
}

#[test]
fn local_paths_are_taken_in_full() {
    let table = vec![
        ("data".to_string(), "/home/me/data".to_string()),
        ("list.txt".to_string(), "/home/me/list.txt".to_string()),
    ];
    let at = InputKind::NewTargetPath { name: "t".into() };
    assert_eq!(input_line(&at, " data ", &table), "/home/me/data");
    assert_eq!(input_line(&at, "/srv", &table), "/srv");
    assert_eq!(input_line(&at, "  ", &table), "");
    assert_eq!(input_line(&InputKind::Target(TargetField::ExportDir), "data", &table), "/home/me/data");
    assert_eq!(input_line(&InputKind::Target(TargetField::SyncDest), "data", &table), "data");
    let users = InputKind::AddUsers { team: "dev".into() };
    assert_eq!(input_line(&users, "bob,@list.txt", &table), "bob,@/home/me/list.txt");
    assert_eq!(input_line(&InputKind::NewTeam, " ops ", &table), "ops");
    assert!(is_path_input(&at));
    assert!(is_path_input(&InputKind::Setting(SettingField::OutputDir)));
    assert!(!is_path_input(&InputKind::NewTeam));
}

#[test]
fn fields_are_edited_by_line() {
    let mut cfg = Config::default();
    cfg.add_target("t", "/d", None, None).unwrap();
    assert!(edit_target(&mut cfg, 0, TargetField::Path, "/e").is_ok());
    assert_eq!(cfg.targets[0].path, "/e");
    assert!(edit_target(&mut cfg, 1, TargetField::Path, "/e").is_err());
    assert_eq!(
        edit_setting(&mut cfg, SettingField::NfsParallel, "many"),
        Err("must be a number".to_string())
    );
    assert!(edit_setting(&mut cfg, SettingField::NfsParallel, "12").is_ok());
    assert_eq!(cfg.nfs_parallel, 12);
    let mut seen = vec![cfg.targets[0].tree_map];
    for _ in 0..3 {
        cycle_tree_map(&mut cfg, 0).unwrap();
        seen.push(cfg.targets[0].tree_map);
    }
    assert_eq!(seen[0], seen[3]);
    assert!(seen[0] != seen[1] && seen[1] != seen[2] && seen[0] != seen[2]);
    assert!(cycle_sync_pass(&mut cfg, 7).is_err());
    assert!(cycle_sync_pass(&mut cfg, 0).is_ok());
    assert!(cfg.targets[0].sync_pass.is_some());
    assert_eq!((opt_i64_str(Some(-3)), opt_i64_str(None)), ("-3".to_string(), String::new()));
    assert_eq!((bool_str(&true), bool_str(&false)), ("yes".to_string(), "no".to_string()));
}
