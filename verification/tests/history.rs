use duscan::db::carry_history_table;
use duscan::db::shared_columns;
use duscan::history::compare_history;
use duscan::history::compute_growth;
use duscan::history::date_number;
use duscan::history::hist_snapshot_added_columns;
use duscan::history::migrate_hist_snapshots;
use duscan::history::purge_time;
use duscan::history::snapshot_rows;
use duscan::history::trend_indicator;
use duscan::history::usage_series;
use duscan::history::Growth;
use duscan::history::SnapshotMeta;
use duscan::history::SnapshotRows;
use duscan::history::UsageRow;
use duscan::schema::HISTORY_DDL;
use duscan::snapshots::purge_older_than;
use duscan::snapshots::upsert_snapshot;
use duscan::snapshots::DayRow;
use duscan::text::map_of;
use rusqlite::Connection;
use std::collections::HashMap;
use std::path::Path;
use std::path::PathBuf;

fn pct(g: &Growth) -> Option<f64> {
    g.base.map(|b| g.abs as f64 / b as f64 * 100.0)
}

#[test]
fn compute_growth_basic() {
    let g = compute_growth(&[1000, 3000, 8000]);
    assert_eq!(g.abs, 7000);
    assert_eq!(pct(&g), Some(700.0));
    assert_eq!(g.trend, "^");

    let g = compute_growth(&[9000, 6000, 2000]);
    assert_eq!(g.abs, -7000);
    assert_eq!(g.trend, "v");

    let g = compute_growth(&[500]);
    assert_eq!(g.abs, 0);
    assert!(pct(&g).is_none());
    assert_eq!(g.trend, "-");
}

#[test]
fn compute_growth_zero_baseline_uses_first_nonzero() {
    let g = compute_growth(&[0, 2000, 4000]);
    assert_eq!(g.abs, 4000 - 2000);
    assert_eq!(pct(&g), Some(100.0));
    // A negative figure is a baseline too, but no base of a percentage.
    let g = compute_growth(&[0, -5, 10]);
    assert_eq!(g.abs, 15);
    assert!(pct(&g).is_none());
}

#[test]
fn trend_indicator_rules() {
    assert_eq!(trend_indicator(&[1, 2]), "-");
    assert_eq!(trend_indicator(&[5, 5, 5]), "-");
    assert_eq!(trend_indicator(&[1, 2, 3, 4]), "^");
    assert_eq!(trend_indicator(&[4, 3, 2, 1]), "v");
    assert_eq!(trend_indicator(&[1, 5, 2, 6]), "~");
}

#[test]
fn more_than_seven_tenths_of_the_steps_make_a_trend() {
    let mut series = vec![0i64, 1, 2, 3, 4, 5, 6, 7, 8, 7, 6];
    assert_eq!(trend_indicator(&series), "^");
    series.reverse();
    assert_eq!(trend_indicator(&series), "v");
    assert_eq!(trend_indicator(&[0, 1, 2, 3, 4, 5, 6, 7, 6, 5, 4]), "~");
}

#[test]
fn flat_series_do_not_grow() {
    let g = compute_growth(&[7, 7, 7, 7]);
    assert_eq!((g.abs, g.trend), (0, "-"));
    let g = compute_growth(&[0, 0, 0]);
    assert_eq!(g.abs, 0);
    assert!(g.base.is_none());
    let g = compute_growth(&[]);
    assert_eq!(g.abs, 0);
}

#[test]
fn days_are_numbers_in_their_order() {
    assert_eq!(date_number(126, 6, 24), 20260724);
    assert_eq!(date_number(126, 0, 1), 20260101);
    assert!(date_number(125, 11, 31) < date_number(126, 0, 1));
}

#[test]
fn history_is_purged_by_days() {
    assert_eq!(purge_time(1_000_000, Some(2)), Some(1_000_000 - 2 * 86_400));
    assert_eq!(purge_time(1_000_000, Some(0)), None);
    assert_eq!(purge_time(1_000_000, None), None);
}

#[test]
fn users_are_counted_with_their_teams() {
    let listed = vec![
        ("alice".to_string(), 10),
        ("root".to_string(), 5),
        ("bob".to_string(), 7),
    ];
    let teams = map_of(vec![("alice".to_string(), 1), ("bob".to_string(), 1)]);
    let names = HashMap::from([(1, "dev".to_string())]);
    let r = snapshot_rows(&listed, &teams, &names);
    assert_eq!(r.users.len(), 3);
    assert_eq!((r.users[0].team_id, r.users[0].size), (Some(1), 10));
    assert_eq!(r.users[1].team_id, None);
    assert_eq!(r.teams.len(), 1);
    assert_eq!((r.teams[0].name.as_str(), r.teams[0].size), ("dev", 17));
}

#[test]
fn growth_is_ranked_by_what_was_added() {
    let day = |v: &[(&str, i64)]| v.iter().map(|(n, s)| (n.to_string(), *s)).collect::<Vec<_>>();
    let days = vec![
        day(&[("a", 10), ("b", 100)]),
        day(&[("a", 90), ("b", 110), ("c", 5)]),
    ];
    let series = usage_series(&days);
    assert_eq!(series.len(), 3);
    let c = series.iter().find(|r| r.name == "c").unwrap();
    assert_eq!(c.values, vec![0, 5]);
    let rows = compare_history(&days, 2).unwrap();
    assert_eq!(rows.len(), 2);
    assert_eq!(rows[0].name, "a");
    assert_eq!(rows[0].growth.abs, 80);
    assert_eq!(rows[1].name, "b");
    assert!(compare_history(&vec![day(&[("a", 1)])], 2).is_none());
}

// ---------------------------------------------------------------------------
// On a database
// ---------------------------------------------------------------------------

/// The table as it was before the inode columns.
const OLD_DDL: &str = "
CREATE TABLE hist_snapshots (
  id         INTEGER PRIMARY KEY,
  scan_date  INTEGER NOT NULL UNIQUE,
  scanned_at INTEGER,
  path       TEXT,
  total      INTEGER,
  used       INTEGER,
  available  INTEGER
);";

fn columns(conn: &Connection, table: &str) -> Vec<String> {
    let mut stmt = conn.prepare(&format!("PRAGMA {}", table)).unwrap();
    let rows = stmt.query_map([], |r| r.get::<_, String>(1)).unwrap();
    rows.map(|r| r.unwrap()).collect()
}

fn ensure_schema(conn: &Connection) {
    conn.execute_batch(HISTORY_DDL).unwrap();
    for sql in migrate_hist_snapshots(&columns(conn, "table_info(hist_snapshots)")) {
        conn.execute_batch(&sql).unwrap();
    }
}

fn meta() -> SnapshotMeta {
    SnapshotMeta {
        path: "/data".to_string(),
        total: 1000,
        used: 400,
        available: 600,
        inodes_total: 500,
        inodes_used: 120,
        inodes_free: 380,
        inodes_scanned: 90,
    }
}

fn days(conn: &Connection) -> Vec<DayRow> {
    let mut stmt = conn.prepare("SELECT id, scan_date FROM hist_snapshots ORDER BY id").unwrap();
    let rows =
        stmt.query_map([], |r| Ok(DayRow { id: r.get(0)?, scan_date: r.get(1)? })).unwrap();
    rows.map(|r| r.unwrap()).collect()
}

fn upsert(conn: &Connection, timestamp: i64, date: i64, m: SnapshotMeta) {
    ensure_schema(conn);
    let none = SnapshotRows { teams: vec![], users: vec![] };
    let w = upsert_snapshot(&days(conn), date, timestamp, m, none);
    for id in &w.replaced {
        conn.execute("DELETE FROM hist_snapshots WHERE id = ?1", [id]).unwrap();
    }
    conn.execute(
        "INSERT INTO hist_snapshots (scan_date, scanned_at, path, total, used, available,
           inodes_total, inodes_used, inodes_free, inodes_scanned)
         VALUES (?1, ?2, ?3, ?4, ?5, ?6, ?7, ?8, ?9, ?10)",
        (
            w.scan_date,
            w.scanned_at,
            &w.meta.path,
            w.meta.total,
            w.meta.used,
            w.meta.available,
            w.meta.inodes_total,
            w.meta.inodes_used,
            w.meta.inodes_free,
            w.meta.inodes_scanned,
        ),
    )
    .unwrap();
}

#[test]
fn a_scan_takes_the_place_of_its_day_only() {
    let listed = vec![
        DayRow { id: 1, scan_date: 20260101 },
        DayRow { id: 2, scan_date: 20260102 },
        DayRow { id: 5, scan_date: 20260103 },
    ];
    let rows = SnapshotRows {
        teams: vec![],
        users: vec![UsageRow { name: "ann".into(), team_id: None, size: 7, kind: "other".into() }],
    };
    let w = upsert_snapshot(&listed, 20260102, 1767312000, meta(), rows);
    assert_eq!(w.replaced, vec![2]);
    assert_eq!((w.scan_date, w.scanned_at), (20260102, 1767312000));
    assert_eq!(w.meta.used, 400);
    assert_eq!(w.rows.users[0].name, "ann");
    let none = SnapshotRows { teams: vec![], users: vec![] };
    assert!(upsert_snapshot(&listed, 20260104, 0, meta(), none).replaced.is_empty());
}

#[test]
fn a_purge_takes_the_days_before_its_limit() {
    let listed = vec![
        DayRow { id: 1, scan_date: 20251231 },
        DayRow { id: 2, scan_date: 20260101 },
        DayRow { id: 3, scan_date: 20251130 },
    ];
    assert_eq!(purge_older_than(&listed, 20260101), vec![1, 3]);
    assert!(purge_older_than(&listed, 20251130).is_empty());
    assert_eq!(purge_older_than(&listed, 20260102), vec![1, 2, 3]);
}

#[test]
fn widens_a_pre_inode_database_and_keeps_its_rows() {
    let conn = Connection::open_in_memory().unwrap();
    conn.execute_batch(OLD_DDL).unwrap();
    conn.execute(
        "INSERT INTO hist_snapshots (scan_date, scanned_at, path, total, used, available)
         VALUES (20260101, 100, '/data', 1000, 400, 600)",
        [],
    )
    .unwrap();

    ensure_schema(&conn);

    let cols = columns(&conn, "table_info(hist_snapshots)");
    for want in hist_snapshot_added_columns() {
        assert!(cols.contains(&want), "missing column {}", want);
    }
    let (used, inodes): (i64, Option<i64>) = conn
        .query_row(
            "SELECT used, inodes_used FROM hist_snapshots WHERE scan_date = 20260101",
            [],
            |r| Ok((r.get(0)?, r.get(1)?)),
        )
        .unwrap();
    assert_eq!(used, 400);
    assert_eq!(inodes, None);
}

#[test]
fn migration_is_idempotent() {
    let conn = Connection::open_in_memory().unwrap();
    conn.execute_batch(OLD_DDL).unwrap();
    ensure_schema(&conn);
    let first = columns(&conn, "table_info(hist_snapshots)");
    assert!(migrate_hist_snapshots(&first).is_empty());
    ensure_schema(&conn);
    assert_eq!(first, columns(&conn, "table_info(hist_snapshots)"));
}

#[test]
fn upsert_stores_inode_figures() {
    let conn = Connection::open_in_memory().unwrap();
    upsert(&conn, 1767225600, 20260101, meta());

    let (total, used, free, scanned): (i64, i64, i64, i64) = conn
        .query_row(
            "SELECT inodes_total, inodes_used, inodes_free, inodes_scanned
               FROM hist_snapshots",
            [],
            |r| Ok((r.get(0)?, r.get(1)?, r.get(2)?, r.get(3)?)),
        )
        .unwrap();
    assert_eq!((total, used, free, scanned), (500, 120, 380, 90));
}

#[test]
fn rescanning_the_same_day_replaces_the_inode_figures() {
    let conn = Connection::open_in_memory().unwrap();
    let ts = 1767225600;
    upsert(&conn, ts, 20260101, meta());

    let mut later = meta();
    later.inodes_scanned = 91_000;
    upsert(&conn, ts + 3600, 20260101, later);

    let rows: i64 =
        conn.query_row("SELECT COUNT(*) FROM hist_snapshots", [], |r| r.get(0)).unwrap();
    let scanned: i64 =
        conn.query_row("SELECT inodes_scanned FROM hist_snapshots", [], |r| r.get(0)).unwrap();
    assert_eq!(rows, 1);
    assert_eq!(scanned, 91_000);
}

fn snapshot_by_name(db: &Path, col: &str) -> Option<i64> {
    let conn = Connection::open(db).unwrap();
    conn.query_row(
        &format!("SELECT {} FROM hist_snapshots WHERE scan_date = 20240101", col),
        [],
        |r| r.get::<_, Option<i64>>(0),
    )
    .unwrap()
}

/// Carries the history of `report.db` into a new `merged.db`.
fn merge(dir: &Path) -> PathBuf {
    let merged = dir.join("merged.db");
    let conn = Connection::open(&merged).unwrap();
    conn.execute_batch(HISTORY_DDL).unwrap();
    let source = dir.join("report.db");
    conn.execute("ATTACH DATABASE ?1 AS srcreport", [source.to_string_lossy().as_ref()]).unwrap();
    let mine = columns(&conn, "main.table_info(hist_snapshots)");
    let theirs = columns(&conn, "srcreport.table_info(hist_snapshots)");
    if let Some(sql) = carry_history_table("hist_snapshots", &mine, &theirs) {
        conn.execute_batch(&sql).unwrap();
    }
    conn.execute("DETACH DATABASE srcreport", []).unwrap();
    merged
}

fn merge_over_source(dir: &Path, columns: &str, values: &str) -> PathBuf {
    {
        let conn = Connection::open(dir.join("report.db")).unwrap();
        conn.execute_batch(&format!(
            "CREATE TABLE hist_snapshots ({columns});
             INSERT INTO hist_snapshots VALUES ({values});"
        ))
        .unwrap();
    }
    merge(dir)
}

#[test]
fn carries_history_from_a_report_missing_newer_columns() {
    let dir = tempfile::tempdir().unwrap();
    let merged = merge_over_source(
        dir.path(),
        "id INTEGER PRIMARY KEY, scan_date INTEGER NOT NULL UNIQUE, scanned_at INTEGER, \
         path TEXT, total INTEGER, used INTEGER, available INTEGER",
        "1, 20240101, 1704067200, '/', 10000, 6000, 4000",
    );
    assert_eq!(snapshot_by_name(&merged, "used"), Some(6000));
    assert_eq!(snapshot_by_name(&merged, "inodes_total"), None);
}

#[test]
fn carries_history_from_a_report_whose_columns_are_declared_in_another_order() {
    let dir = tempfile::tempdir().unwrap();
    let merged = merge_over_source(
        dir.path(),
        "id INTEGER PRIMARY KEY, scan_date INTEGER NOT NULL UNIQUE, scanned_at INTEGER, \
         path TEXT, total INTEGER, used INTEGER, available INTEGER, \
         inodes_total INTEGER, inodes_used INTEGER, inodes_free INTEGER, \
         inodes_scanned INTEGER, scanned_size INTEGER",
        "1, 20240101, 1704067200, '/', 10000, 6000, 4000, 8000, 3000, 5000, 31, 777",
    );
    assert_eq!(snapshot_by_name(&merged, "scanned_size"), Some(777));
    assert_eq!(snapshot_by_name(&merged, "inodes_total"), Some(8000));
    assert_eq!(snapshot_by_name(&merged, "inodes_scanned"), Some(31));
}

#[test]
fn merges_a_report_with_no_history_tables_at_all() {
    let dir = tempfile::tempdir().unwrap();
    let source = dir.path().join("report.db");
    drop(Connection::open(&source).unwrap());
    let merged = merge(dir.path());

    let conn = Connection::open(&merged).unwrap();
    let rows: i64 =
        conn.query_row("SELECT COUNT(*) FROM hist_snapshots", [], |r| r.get(0)).unwrap();
    assert_eq!(rows, 0);
}

#[test]
fn columns_are_carried_by_name() {
    let a: Vec<String> = ["id", "x", "y"].iter().map(|s| s.to_string()).collect();
    let b: Vec<String> = ["y", "z", "id"].iter().map(|s| s.to_string()).collect();
    assert_eq!(shared_columns(&a, &b), vec!["id", "y"]);
    assert!(carry_history_table("t", &a, &vec![]).is_none());
    let sql = carry_history_table("t", &a, &b).unwrap();
    assert_eq!(sql, "INSERT OR IGNORE INTO t (id, y) SELECT id, y FROM srcreport.t;");
}
