use duscan::cli::LsfChoice;
use duscan::cli::lsf_choice;
use duscan::cli::default_budget;
use duscan::cli::disk_figures;
use duscan::cli::import_refusal;
use duscan::cli::lsf_args;
use duscan::cli::nothing_imported;
use duscan::cli::parse_team_specs;
use duscan::cli::read_user_list;
use duscan::cli::reconstruct_run_args;
use duscan::cli::rsync_command;
use duscan::cli::status_names;
use duscan::cli::status_note;
use duscan::cli::status_times;
use duscan::cli::user_list_paths;
use duscan::cli::UserList;
use duscan::config::LsfConfig;

fn none() -> Vec<UserList> {
    Vec::new()
}

#[test]
fn parse_team_specs_basic_and_errors() {
    let specs =
        parse_team_specs(&vec!["dev=alice,bob".into(), "ops=carol".into()], &none()).unwrap();
    assert_eq!(specs.len(), 2);
    assert_eq!(specs[0].name, "dev");
    assert_eq!(specs[0].users, vec!["alice".to_string(), "bob".to_string()]);
    assert_eq!(specs[1].users, vec!["carol".to_string()]);

    let specs = parse_team_specs(&vec!["empty".into()], &none()).unwrap();
    assert!(specs[0].users.is_empty());

    assert!(parse_team_specs(&vec!["dev=a".into(), "dev=b".into()], &none()).is_err());
    assert!(parse_team_specs(&vec!["=a".into()], &none()).is_err());
}

#[test]
fn parse_team_specs_dedups_users() {
    let specs = parse_team_specs(&vec!["dev=alice,alice,bob".into()], &none()).unwrap();
    assert_eq!(specs[0].users, vec!["alice".to_string(), "bob".to_string()]);
}

#[test]
fn reconstruct_run_args_roundtrip() {
    let args = reconstruct_run_args(
        &Some("/tmp/out".into()),
        true,
        Some(8),
        5,
        &vec!["ABC".to_string(), "Test".to_string()],
        true,
    );
    assert_eq!(
        args,
        vec![
            "run", "--output-dir", "/tmp/out", "--tree-map", "--workers", "8", "--level", "5",
            "--target", "ABC", "--target", "Test", "--debug",
        ]
    );
}

#[test]
fn reconstruct_run_args_minimal() {
    let args = reconstruct_run_args(&None, false, None, 3, &vec![], false);
    assert_eq!(args, vec!["run", "--level", "3"]);
}

#[test]
fn user_lists_are_expanded_in_place() {
    let raw = vec!["dev=zed,@/l/a.txt,amy".to_string()];
    assert_eq!(user_list_paths(&raw), vec!["/l/a.txt".to_string()]);
    let files = vec![UserList {
        path: "/l/a.txt".into(),
        text: Ok("# people\nbob, eve\n\n  carol dave # not these\n".into()),
    }];
    let specs = parse_team_specs(&raw, &files).unwrap();
    assert_eq!(
        specs[0].users,
        vec!["zed", "bob", "eve", "carol", "dave", "amy"]
    );
}

#[test]
fn a_list_that_cannot_be_read_is_an_error() {
    let raw = vec!["dev=@/l/a.txt".to_string()];
    let files = vec![UserList { path: "/l/a.txt".into(), text: Err("no such file".into()) }];
    let e = parse_team_specs(&raw, &files).unwrap_err();
    assert!(e.contains("no such file"), "{}", e);
    // Nor is a list passed over that was not handed in.
    let e = parse_team_specs(&raw, &vec![]).unwrap_err();
    assert_eq!(e, "read user list '/l/a.txt': not read");
}

#[test]
fn comments_and_separators_of_a_user_list() {
    assert_eq!(
        read_user_list("a,b\n#c\nd\te # f\n"),
        vec!["a", "b", "d", "e"]
    );
    assert!(read_user_list("").is_empty());
    // Every white space parts names, not the usual ones alone.
    assert_eq!(
        read_user_list("alice, bob # x\n# note\n\ncarol\tbob\u{c}dave"),
        vec!["alice", "bob", "carol", "dave"]
    );
}

#[test]
fn the_arguments_of_a_batch_job() {
    let lsf = LsfConfig {
        enabled: true,
        cmd: "bs".into(),
        os: "RHEL8".into(),
        mem_mb: 4096,
        queue: "long".into(),
        extra_args: vec!["-x".into()],
    };
    let args = lsf_args(&lsf, "/opt/duscan", &vec!["run".into(), "--level".into(), "3".into()]);
    assert!(args.contains(&"RHEL8".to_string()));
    assert!(args.contains(&"4096".to_string()));
    assert!(args.contains(&"long".to_string()));
    assert!(args.contains(&"-x".to_string()));
    let at = args.iter().position(|a| a == "/opt/duscan").unwrap();
    assert_eq!(&args[at + 1..at + 4], ["run", "--level", "3"]);
}

#[test]
fn the_command_of_a_mirror() {
    let c = rsync_command("/out/t//", "host", "/dest", &Some("me".into()), false);
    assert_eq!(c.program, "rsync");
    assert_eq!(
        c.args,
        vec!["-az", "--delete", "-e", "ssh -o BatchMode=yes", "/out/t/", "me@host:/dest"]
    );
    let c = rsync_command("/out/t", "host", "/dest", &None, true);
    assert_eq!(c.program, "sshpass");
    assert_eq!(c.args[0], "-e");
    assert_eq!(c.args.last().unwrap(), "host:/dest");
}

#[test]
fn times_and_notes_of_a_status() {
    let t = status_times(100, 40, 90, true);
    assert_eq!((t.total_elapsed, t.phase_elapsed, t.finished_at), (60, 10, 0));
    let t = status_times(100, 140, 90, false);
    assert_eq!((t.total_elapsed, t.phase_elapsed, t.finished_at), (0, 10, 100));
    assert_eq!(status_note("", true, 100, 90), "running");
    assert_eq!(status_note("", false, 100, 90), "idle/done");
    assert_eq!(status_note("boom", true, 100, 90), "ERROR: boom");
    assert_eq!(status_note("", true, 10_000, 0), "running (stale 10000s)");
}

#[test]
fn the_targets_of_a_status() {
    let all = vec!["a".to_string(), "b".to_string()];
    assert_eq!(status_names(&None, &all), all);
    assert_eq!(status_names(&Some("z".into()), &all), vec!["z".to_string()]);
}

#[test]
fn figures_of_a_disk() {
    assert_eq!(disk_figures(4096, 100, 40, 30), (409600, 245760, 122880));
    assert_eq!(default_budget(None), 8);
    assert_eq!(default_budget(Some(12)), 24);
    assert_eq!(default_budget(Some(40)), 32);
}

#[test]
fn importing_is_refused_where_something_would_be_lost() {
    assert_eq!(
        import_refusal("/d", false, false, false, "/c", "/t").unwrap(),
        "'/d' is not a directory"
    );
    assert_eq!(
        import_refusal("/d", true, true, false, "/c", "/t").unwrap(),
        "config already exists (/c / /t) \u{2014} use --force to overwrite"
    );
    assert!(import_refusal("/d", true, true, true, "/c", "/t").is_none());
    assert_eq!(nothing_imported("/d"), "no valid <target>/config.json found under '/d'");
}

#[test]
fn scans_are_submitted_where_a_cluster_is_set_up() {
    let mut lsf = LsfConfig::default();
    assert_eq!(lsf_choice(&lsf, false, false, true), LsfChoice::Local);
    lsf.enabled = true;
    assert_eq!(lsf_choice(&lsf, false, false, true), LsfChoice::Submit);
    assert_eq!(lsf_choice(&lsf, false, false, false), LsfChoice::WrapperMissing);
    assert_eq!(lsf_choice(&lsf, true, false, true), LsfChoice::Local);
    assert_eq!(lsf_choice(&lsf, false, true, true), LsfChoice::Local);
}
