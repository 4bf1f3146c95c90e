use duscan::config::default_hdd_parallel;
use duscan::config::default_lsf_cmd;
use duscan::config::default_nfs_parallel;
use duscan::config::default_output_dir;
use duscan::config::default_ssd_parallel;
use duscan::config::default_workers;
use duscan::config::sanitize_stem;
use duscan::config::target_from_file;
use duscan::config::target_to_file;
use duscan::config::Config;
use duscan::config::TargetFile;
use duscan::config::TargetSpec;
use duscan::config::TeamFile;
use duscan::config::TeamSpec;
use std::collections::BTreeMap;

fn spec(name: &str, path: &str, teams: &[(&str, &[&str])]) -> TargetSpec {
    TargetSpec {
        name: name.into(),
        path: path.into(),
        teams: teams
            .iter()
            .map(|(n, us)| TeamSpec {
                name: n.to_string(),
                users: us.iter().map(|u| u.to_string()).collect(),
            })
            .collect(),
        end_scan: None,
        purge_time: None,
    }
}

fn bare_file(name: &str, path: &str, teams: Vec<TeamFile>) -> TargetFile {
    TargetFile {
        name: name.into(),
        path: path.into(),
        teams,
        end_scan: None,
        purge_time: None,
        tree_map: None,
        level: None,
        workers: None,
        sync_host: None,
        sync_dest_dir: None,
        sync_user: None,
        export_dir: None,
        webhook_url: None,
        sync_pass: None,
    }
}

/// A file of a target becomes a target with numbered teams, and the target
/// becomes the file again.
#[test]
fn target_file_roundtrip_assigns_and_groups() {
    let tf = TargetFile {
        name: "backend".into(),
        path: "/data/backend".into(),
        teams: vec![
            TeamFile { name: "dev".into(), users: vec!["alice".into(), "bob".into()] },
            TeamFile { name: "ops".into(), users: vec!["carol".into()] },
        ],
        end_scan: Some("20270101".into()),
        purge_time: Some(90),
        tree_map: Some(true),
        level: Some(4),
        workers: None,
        sync_host: Some("h".into()),
        sync_dest_dir: None,
        sync_user: None,
        export_dir: Some("exp".into()),
        webhook_url: Some("https://x/hook".into()),
        sync_pass: Some(true),
    };
    let t = target_from_file(tf);
    assert_eq!(t.teams.len(), 2);
    assert_eq!(t.teams[0].team_id, 1);
    assert_eq!(t.teams[1].team_id, 2);
    let alice = t.users.iter().find(|u| u.name == "alice").unwrap();
    assert_eq!(alice.team_id, 1);
    let carol = t.users.iter().find(|u| u.name == "carol").unwrap();
    assert_eq!(carol.team_id, 2);

    let back = target_to_file(&t);
    assert_eq!(back.name, "backend");
    assert_eq!(back.teams.len(), 2);
    assert_eq!(back.teams[0].users, vec!["alice".to_string(), "bob".to_string()]);
    assert_eq!(back.teams[1].users, vec!["carol".to_string()]);
    assert_eq!(back.tree_map, Some(true));
    assert_eq!(back.level, Some(4));
    assert_eq!(back.export_dir.as_deref(), Some("exp"));
    assert_eq!(back.webhook_url.as_deref(), Some("https://x/hook"));
    assert_eq!(back.sync_pass, Some(true));
}

/// A full output directory stays, a relative one is below the program's.
#[test]
fn resolved_output_dir_absolute_vs_relative() {
    let mut cfg = Config::default();
    let base = "/opt/duscan";

    cfg.output_dir = "/data/reports".into();
    assert_eq!(cfg.resolved_output_dir(base), "/data/reports");

    cfg.output_dir = "reports".into();
    let resolved = cfg.resolved_output_dir(base);
    assert!(
        std::path::Path::new(&resolved).is_absolute(),
        "relative output_dir must resolve to an absolute path, got {}",
        resolved
    );
    assert!(resolved.ends_with("reports"));
    assert_eq!(resolved, std::path::Path::new(base).join("reports").to_string_lossy());
}

/// No name of a target leads out of the directory of targets.
#[test]
fn sanitize_stem_blocks_traversal() {
    assert_eq!(sanitize_stem("normal"), "normal");
    assert_eq!(sanitize_stem("a/b"), "a_b");
    assert_eq!(sanitize_stem("../etc"), "___etc");
    assert_eq!(sanitize_stem("a\\b"), "a_b");
    assert_eq!(sanitize_stem("with.dot"), "with_dot");
}

#[test]
fn upsert_replace_vs_merge() {
    let mut cfg = Config::default();
    cfg.upsert_target_full(&spec("t", "/p", &[("dev", &["alice"])]), false);
    assert_eq!(cfg.targets[0].users.len(), 1);

    cfg.upsert_target_full(&spec("t", "/p", &[("ops", &["bob"])]), true);
    let t = &cfg.targets[0];
    assert_eq!(t.teams.len(), 2);
    assert!(t.users.iter().any(|u| u.name == "alice"));
    assert!(t.users.iter().any(|u| u.name == "bob"));

    cfg.upsert_target_full(&spec("t", "/p2", &[("frontend", &["carol"])]), false);
    let t = &cfg.targets[0];
    assert_eq!(t.path, "/p2");
    assert_eq!(t.teams.len(), 1);
    assert_eq!(t.teams[0].name, "frontend");
    assert_eq!(t.users.len(), 1);
    assert_eq!(t.users[0].name, "carol");
}

#[test]
fn targets_are_added_once_and_removed_by_name() {
    let mut cfg = Config::default();
    assert!(cfg.add_target("a", "/a", None, None).is_ok());
    assert!(cfg.add_target("b", "/b", Some("20300101".into()), Some(7)).is_ok());
    assert_eq!(cfg.add_target("a", "/x", None, None).unwrap_err(), "Target 'a' already exists");
    assert_eq!(cfg.targets.len(), 2);
    assert_eq!(cfg.find_target("b").unwrap().purge_time, Some(7));
    assert!(cfg.find_target("c").is_none());
    cfg.find_target_mut("b").unwrap().path = "/bb".into();
    assert_eq!(cfg.targets[1].path, "/bb");
    assert!(cfg.remove_target("a").is_ok());
    assert_eq!(cfg.remove_target("a").unwrap_err(), "Target 'a' not found");
    assert_eq!(cfg.targets.len(), 1);
}

#[test]
fn teams_and_users_of_a_target() {
    let mut cfg = Config::default();
    cfg.add_target("t", "/t", None, None).unwrap();
    assert_eq!(cfg.add_team("dev", "x").unwrap_err(), "Target 'x' not found");
    cfg.add_team("dev", "t").unwrap();
    cfg.add_team("ops", "t").unwrap();
    assert_eq!(
        cfg.add_team("dev", "t").unwrap_err(),
        "Team 'dev' already exists in 't'"
    );
    assert_eq!(cfg.targets[0].teams[1].team_id, 2);
    assert!(cfg.add_user("alice", "dev", "t").unwrap());
    // A user is on one team only.
    assert!(!cfg.add_user("alice", "ops", "t").unwrap());
    assert_eq!(cfg.targets[0].users[0].team_id, 1);
    assert_eq!(
        cfg.add_user("bob", "none", "t").unwrap_err(),
        "Team 'none' not found in 't'"
    );
    assert_eq!(cfg.add_user("bob", "dev", "x").unwrap_err(), "Target 'x' not found");
    assert!(cfg.add_user("bob", "ops", "t").unwrap());
    // A team takes its users with it.
    cfg.remove_team("dev", "t").unwrap();
    assert_eq!(cfg.targets[0].teams.len(), 1);
    assert_eq!(cfg.targets[0].users.len(), 1);
    assert_eq!(cfg.targets[0].users[0].name, "bob");
    assert_eq!(cfg.remove_team("dev", "t").unwrap_err(), "Team 'dev' not found in 't'");
    cfg.remove_user("bob", "t").unwrap();
    assert!(cfg.targets[0].users.is_empty());
    assert_eq!(cfg.remove_user("bob", "x").unwrap_err(), "Target 'x' not found");
    // Ids are not given again while a higher one is there.
    cfg.add_team("new", "t").unwrap();
    assert_eq!(cfg.targets[0].teams[1].team_id, 3);
}

#[test]
fn merging_twice_changes_nothing_more() {
    let mut cfg = Config::default();
    let s = spec("t", "/p", &[("dev", &["alice", "bob"]), ("ops", &["bob", "carol"])]);
    cfg.upsert_target_full(&s, true);
    let once = format!("{:?}", cfg);
    cfg.upsert_target_full(&s, true);
    assert_eq!(once, format!("{:?}", cfg));
    // The first team that lists a user has it.
    let bob = cfg.targets[0].users.iter().find(|u| u.name == "bob").unwrap();
    assert_eq!(bob.team_id, 1);
}

#[test]
fn merging_twice_into_what_was_there_changes_nothing_more() {
    let mut cfg = Config::default();
    cfg.upsert_target_full(&spec("t", "/p", &[("old", &["dan"])]), false);
    // A team that is declared twice, and a user that is there already.
    let s = spec("t", "/p", &[("dev", &["alice", "dan"]), ("old", &["eve"]), ("dev", &["bob"])]);
    cfg.upsert_target_full(&s, true);
    let once = format!("{:?}", cfg);
    cfg.upsert_target_full(&s, true);
    assert_eq!(once, format!("{:?}", cfg));
    let names: Vec<&str> = cfg.targets[0].teams.iter().map(|t| t.name.as_str()).collect();
    assert_eq!(names, vec!["old", "dev"]);
    let users: Vec<(&str, i64)> =
        cfg.targets[0].users.iter().map(|u| (u.name.as_str(), u.team_id)).collect();
    assert_eq!(users, vec![("dan", 1), ("alice", 2), ("eve", 1), ("bob", 2)]);
}

#[test]
fn replacing_twice_changes_nothing_more() {
    let mut cfg = Config::default();
    let s = spec("t", "/p", &[("dev", &["alice"]), ("ops", &["bob"])]);
    cfg.upsert_target_full(&s, false);
    let once = format!("{:?}", cfg);
    cfg.upsert_target_full(&s, false);
    assert_eq!(once, format!("{:?}", cfg));
}

#[test]
fn applying_a_file_of_targets() {
    let mut cfg = Config::default();
    cfg.add_target("old", "/old", None, None).unwrap();
    cfg.add_target("both", "/both", None, None).unwrap();
    let specs = vec![spec("both", "/new", &[]), spec("add", "/add", &[])];

    let d = cfg.apply_diff(&specs, false);
    assert_eq!(d.added, vec!["add".to_string()]);
    assert_eq!(d.updated, vec!["both".to_string()]);
    assert_eq!(d.removed, vec!["old".to_string()]);
    assert!(cfg.apply_diff(&specs, true).removed.is_empty());

    cfg.apply_targets(&specs, false).unwrap();
    let names: Vec<&str> = cfg.targets.iter().map(|t| t.name.as_str()).collect();
    assert_eq!(names, vec!["both", "add"]);
    assert_eq!(cfg.targets[0].path, "/new");

    assert_eq!(cfg.apply_targets(&vec![], false).unwrap_err(), "file declares no targets");
    assert_eq!(cfg.targets.len(), 2);
}

#[test]
fn merging_a_file_of_targets_keeps_the_others() {
    let mut cfg = Config::default();
    cfg.add_target("old", "/old", None, None).unwrap();
    cfg.apply_targets(&vec![spec("add", "/add", &[])], true).unwrap();
    let names: Vec<&str> = cfg.targets.iter().map(|t| t.name.as_str()).collect();
    assert_eq!(names, vec!["old", "add"]);
}

#[test]
fn loading_files_and_telling_orphans() {
    let mut cfg = Config::default();
    assert!(cfg.accept_file(bare_file("a/b", "/x", vec![])));
    assert!(!cfg.accept_file(bare_file("a/b", "/y", vec![])));
    assert_eq!(cfg.targets.len(), 1);
    assert_eq!(cfg.targets[0].path, "/x");
    // The target's file is named after its stem.
    assert!(!cfg.is_orphan("a_b"));
    assert!(cfg.is_orphan("a"));
}

#[test]
fn a_saved_configuration_loads_back() {
    let mut cfg = Config::default();
    cfg.workers = "12".into();
    cfg.lsf.queue = "night".into();
    cfg.lsf.extra_args = vec!["-x".into()];
    cfg.upsert_target_full(&spec("a b", "/x", &[("dev", &["alice", "bob"])]), false);
    cfg.upsert_target_full(&spec("a", "/y", &[("ops", &["carol"]), ("none", &[])]), false);
    cfg.targets[0].level = Some(3);

    let mut files = BTreeMap::new();
    files.insert("gone.toml".to_string(), bare_file("gone", "/gone", vec![]));
    let plan = cfg.save(&vec!["a".to_string(), "gone".to_string()]);
    assert_eq!(plan.orphans, vec!["gone".to_string()]);
    for (stem, file) in plan.files {
        files.insert(format!("{}.toml", stem), file);
    }
    for stem in plan.orphans {
        files.remove(&format!("{}.toml", stem));
    }
    // The files are read in the order of their names.
    let names: Vec<&str> = files.keys().map(|n| n.as_str()).collect();
    assert_eq!(names, vec!["a b.toml", "a.toml"]);

    let (back, taken) = Config::load(plan.globals, files.into_values().collect());
    assert_eq!(taken, vec![true, true]);
    assert_eq!(format!("{:?}", back), format!("{:?}", cfg));
}

#[test]
fn the_first_file_of_a_name_is_taken() {
    let files = vec![bare_file("t", "/one", vec![]), bare_file("u", "/u", vec![]), bare_file("t", "/two", vec![])];
    let (cfg, taken) = Config::load(Config::default().globals(), files);
    assert_eq!(taken, vec![true, true, false]);
    let paths: Vec<&str> = cfg.targets.iter().map(|t| t.path.as_str()).collect();
    assert_eq!(paths, vec!["/one", "/u"]);
}

#[test]
fn a_file_gives_what_declaring_it_gives() {
    let team = |n: &str, us: &[&str]| TeamFile {
        name: n.into(),
        users: us.iter().map(|u| u.to_string()).collect(),
    };
    let t = target_from_file(bare_file("t", "/t", vec![team("a", &["x", "y", "x"]), team("b", &["y", "z"])]));
    let mut cfg = Config::default();
    cfg.upsert_target_full(&spec("t", "/t", &[("a", &["x", "y", "x"]), ("b", &["y", "z"])]), false);
    assert_eq!(format!("{:?}", cfg.targets[0]), format!("{:?}", t));
    let users: Vec<(&str, i64)> = t.users.iter().map(|u| (u.name.as_str(), u.team_id)).collect();
    assert_eq!(users, vec![("x", 1), ("y", 1), ("z", 2)]);
}

#[test]
fn only_new_teams_need_an_id() {
    let mut cfg = Config::default();
    cfg.upsert_target_full(&spec("t", "/t", &[("a", &[])]), false);
    cfg.targets[0].teams[0].team_id = i64::MAX;
    let known = spec("t", "/t", &[("a", &["x"]), ("a", &["y"])]);
    assert!(cfg.has_ids_left(&known, true));
    cfg.upsert_target_full(&known, true);
    assert_eq!(cfg.targets[0].users.len(), 2);
    assert!(!cfg.has_ids_left(&spec("t", "/t", &[("b", &[])]), true));
    assert!(cfg.has_ids_left(&spec("t", "/t", &[("b", &[])]), false));
    assert!(cfg.has_id_left("a", "t") && cfg.has_id_left("b", "other"));
    assert!(!cfg.has_id_left("b", "t"));
    assert!(cfg.add_team("a", "t").is_err());
}

#[test]
fn a_user_on_two_teams_loads_onto_the_first() {
    let t = target_from_file(bare_file(
        "t",
        "/t",
        vec![
            TeamFile { name: "a".into(), users: vec!["u".into(), "u".into()] },
            TeamFile { name: "b".into(), users: vec!["u".into(), "v".into()] },
        ],
    ));
    assert_eq!(t.users.len(), 2);
    assert_eq!(t.users[0].team_id, 1);
    let f = target_to_file(&t);
    assert_eq!(f.teams[0].users, vec!["u".to_string()]);
    assert_eq!(f.teams[1].users, vec!["v".to_string()]);
    // Loading what was saved gives the same target.
    let again = target_from_file(f);
    assert_eq!(format!("{:?}", again), format!("{:?}", t));
}

#[test]
fn selecting_targets_names_those_that_are_missing() {
    let mut cfg = Config::default();
    for n in ["a", "b", "c"] {
        cfg.add_target(n, "/x", None, None).unwrap();
    }
    let missing = cfg.select_targets(&vec!["c".into(), "z".into(), "a".into()]);
    assert_eq!(missing, vec!["z".to_string()]);
    let names: Vec<&str> = cfg.targets.iter().map(|t| t.name.as_str()).collect();
    assert_eq!(names, vec!["a", "c"]);
}

#[test]
fn defaults_of_a_configuration() {
    let cfg = Config::default();
    assert_eq!(cfg.output_dir, "reports");
    assert_eq!(cfg.workers, "auto");
    assert_eq!(cfg.max_parallel_devices, 0);
    assert_eq!(cfg.lsf.cmd, "bs");
    assert!(!cfg.lsf.enabled);
    assert!(cfg.targets.is_empty());
    let g = cfg.globals();
    assert_eq!(format!("{:?}", Config::from_globals(g)), format!("{:?}", cfg));
    assert_eq!(Config::path("/opt/x"), "/opt/x/duscan.toml");
    assert_eq!(Config::targets_dir("/opt/x"), "/opt/x/targets");
}

#[test]
fn defaults_are_the_documented_ones() {
    assert_eq!(default_output_dir(), "reports");
    assert_eq!(default_workers(), "auto");
    assert_eq!(default_lsf_cmd(), "bs");
    assert_eq!((default_nfs_parallel(), default_hdd_parallel(), default_ssd_parallel()), (64, 8, 0));
}

#[test]
fn imported_targets_are_taken_once() {
    let mut cfg = Config::default();
    cfg.add_target("a", "/a", None, None).unwrap();
    let mut other = Config::default();
    other.add_target("a", "/elsewhere", None, None).unwrap();
    other.add_target("b", "/b", None, None).unwrap();
    let taken: Vec<bool> = other.targets.into_iter().map(|t| cfg.accept_target(t)).collect();
    assert_eq!(taken, vec![false, true]);
    let paths: Vec<&str> = cfg.targets.iter().map(|t| t.path.as_str()).collect();
    assert_eq!(paths, vec!["/a", "/b"]);
}
