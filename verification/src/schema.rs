//! The tables and indexes of the report databases.

use crate::text;
use vstd::prelude::*;
use vstd::string::*;

verus! {

/// The columns of a table of names.
pub const NAMES: &'static str = "(id INTEGER PRIMARY KEY, name TEXT NOT NULL)";

/// The columns of the owners of the treemap.
pub const OWNERS: &'static str = "(uid INTEGER PRIMARY KEY, username TEXT NOT NULL)";

/// The columns of the directories of the treemap.
pub const TREE_DIRS: &'static str =
    "(id INTEGER PRIMARY KEY, parent_id INTEGER, name_id INTEGER NOT NULL, \
     total_size INTEGER NOT NULL, file_count INTEGER NOT NULL, dir_count INTEGER NOT NULL, \
     owner_uid INTEGER NOT NULL, has_files INTEGER NOT NULL)";

/// The columns of the users of the details.
pub const USERS: &'static str =
    "(uid INTEGER PRIMARY KEY, username TEXT NOT NULL, team_id TEXT, \
     total_files INTEGER NOT NULL, total_dirs INTEGER NOT NULL, total_size INTEGER NOT NULL, \
     permission_issues INTEGER NOT NULL DEFAULT 0, is_target INTEGER NOT NULL DEFAULT 0, \
     owned_dirs INTEGER NOT NULL DEFAULT 0)";

/// The columns of the directories of the details.
pub const DIRS: &'static str =
    "(id INTEGER NOT NULL, uid INTEGER NOT NULL, parent_id INTEGER, \
     path TEXT NOT NULL, owner_uid INTEGER NOT NULL, size INTEGER NOT NULL, \
     files INTEGER NOT NULL, PRIMARY KEY (id, uid))";

/// The columns of the files of the details.
pub const FILES: &'static str =
    "(dir_id INTEGER NOT NULL, name_id INTEGER NOT NULL, ext TEXT NOT NULL, \
     uid INTEGER NOT NULL, size INTEGER NOT NULL)";

/// The columns of the permission issues.
pub const ISSUES: &'static str =
    "(id INTEGER PRIMARY KEY, user TEXT NOT NULL, item_type TEXT NOT NULL, \
     error TEXT NOT NULL, path TEXT NOT NULL)";

/// The columns of what is said of a database.
pub const META: &'static str = "(key TEXT PRIMARY KEY, value TEXT)";

/// The indexes of a treemap database.
pub const TREEMAP_INDEX_DDL: &'static str =
    "CREATE INDEX ix_dirs_parent_size ON dirs(parent_id, total_size DESC);";

/// The indexes of a detail database.
pub const DETAIL_INDEX_DDL: &'static str = "
CREATE INDEX ix_files_uid_size_dir_name ON files(uid, size DESC, dir_id ASC, name_id ASC);
CREATE INDEX ix_dirs_uid_size_dir       ON dirs(uid, size DESC, id ASC);
CREATE INDEX ix_file_names_name         ON file_names(name);
";

/// The indexes of a merged report.
pub const MERGED_INDEX_DDL: &'static str = "
CREATE INDEX IF NOT EXISTS ix_detail_files_uid_size_dir_name
    ON detail_files(uid, size DESC, dir_id ASC, name_id ASC);
CREATE INDEX IF NOT EXISTS ix_detail_files_uid_ext_size_dir_name
    ON detail_files(uid, ext, size DESC, dir_id ASC, name_id ASC);
CREATE INDEX IF NOT EXISTS ix_detail_dirs_uid_size_dir
    ON detail_dirs(uid, size DESC, id ASC);
CREATE INDEX IF NOT EXISTS ix_detail_files_name_id
    ON detail_files(name_id, size DESC, dir_id ASC);
CREATE INDEX IF NOT EXISTS ix_treemap_dirs_name_id
    ON treemap_dirs(name_id, total_size DESC);
CREATE INDEX IF NOT EXISTS ix_detail_file_names_name ON detail_file_names(name);
CREATE INDEX IF NOT EXISTS ix_treemap_dirs_parent_size
    ON treemap_dirs(parent_id, total_size DESC);
CREATE INDEX IF NOT EXISTS ix_detail_users_files ON detail_users(total_files DESC);
CREATE INDEX IF NOT EXISTS ix_perm_user ON perm_issues(user);
CREATE INDEX IF NOT EXISTS ix_perm_user_type ON perm_issues(user, item_type);
CREATE INDEX IF NOT EXISTS ix_perm_path ON perm_issues(path COLLATE NOCASE);
CREATE INDEX IF NOT EXISTS ix_hist_team_snap ON hist_team_usage(snapshot_id);
CREATE INDEX IF NOT EXISTS ix_hist_user_snap ON hist_user_usage(snapshot_id);
";

/// Trigram indexes for searching names. They read the names from the tables they
/// index, so they are built when those are full.
pub const MERGED_FTS_DDL: &'static str = "
CREATE VIRTUAL TABLE IF NOT EXISTS fts_file_names USING fts5(
  name, content='detail_file_names', content_rowid='id', tokenize='trigram'
);
CREATE VIRTUAL TABLE IF NOT EXISTS fts_dir_names USING fts5(
  name, content='treemap_names', content_rowid='id', tokenize='trigram'
);
INSERT INTO fts_file_names(fts_file_names) VALUES('rebuild');
INSERT INTO fts_dir_names(fts_dir_names) VALUES('rebuild');
";

/// The tables that keep one snapshot a day. They outlive every rebuild of the
/// other tables.
pub const HISTORY_DDL: &'static str = "
CREATE TABLE IF NOT EXISTS hist_snapshots (
  id             INTEGER PRIMARY KEY,
  scan_date      INTEGER NOT NULL UNIQUE,
  scanned_at     INTEGER,
  path           TEXT,
  total          INTEGER,
  used           INTEGER,
  available      INTEGER,
  inodes_total   INTEGER,
  inodes_used    INTEGER,
  inodes_free    INTEGER,
  inodes_scanned INTEGER,
  scanned_size   INTEGER
);
CREATE TABLE IF NOT EXISTS hist_team_usage (
  snapshot_id INTEGER NOT NULL,
  name        TEXT,
  team_id     INTEGER,
  size        INTEGER,
  FOREIGN KEY(snapshot_id) REFERENCES hist_snapshots(id) ON DELETE CASCADE
);
CREATE TABLE IF NOT EXISTS hist_user_usage (
  snapshot_id INTEGER NOT NULL,
  name        TEXT,
  team_id     INTEGER,
  size        INTEGER,
  kind        TEXT,
  FOREIGN KEY(snapshot_id) REFERENCES hist_snapshots(id) ON DELETE CASCADE
);
CREATE INDEX IF NOT EXISTS ix_hist_team_snap ON hist_team_usage(snapshot_id);
CREATE INDEX IF NOT EXISTS ix_hist_user_snap ON hist_user_usage(snapshot_id);
";

/// The indexes of the permission issues' own database, and their statistics.
pub const ISSUES_INDEX_DDL: &'static str = "
CREATE INDEX ix_perm_user      ON issues(user);
CREATE INDEX ix_perm_user_type ON issues(user, item_type);
CREATE INDEX ix_perm_path      ON issues(path COLLATE NOCASE);
ANALYZE;
";

/// The statement that makes a table where there is none.
pub open spec fn creation(name: Seq<char>, columns: Seq<char>) -> Seq<char> {
    "CREATE TABLE IF NOT EXISTS "@ + name + seq![' '] + columns + seq![';']
}

/// The statement that makes a table where there is none.
fn create_table(name: &str, columns: &str) -> (r: String)
    ensures
        r@ == creation(name@, columns@),
{
    let mut v = text::to_chars("CREATE TABLE IF NOT EXISTS ");
    text::append_chars(&mut v, text::to_chars(name).as_slice());
    v.push(' ');
    text::append_chars(&mut v, text::to_chars(columns).as_slice());
    v.push(';');
    assert(v@ =~= creation(name@, columns@));
    text::from_chars(&v)
}

/// The statements that make the tables of a treemap database.
pub fn treemap_tables() -> (r: Vec<String>)
    ensures
        text::strs(r@) == seq![
            creation("meta"@, META@),
            creation("names"@, NAMES@),
            creation("owners"@, OWNERS@),
            creation("dirs"@, TREE_DIRS@),
        ],
{
    let mut r: Vec<String> = Vec::new();
    r.push(create_table("meta", META));
    r.push(create_table("names", NAMES));
    r.push(create_table("owners", OWNERS));
    r.push(create_table("dirs", TREE_DIRS));
    assert(text::strs(r@) =~= seq![
        creation("meta"@, META@),
        creation("names"@, NAMES@),
        creation("owners"@, OWNERS@),
        creation("dirs"@, TREE_DIRS@),
    ]);
    r
}

/// The statements that make the tables of a detail database.
pub fn detail_tables() -> (r: Vec<String>)
    ensures
        text::strs(r@) == seq![
            creation("meta"@, META@),
            creation("users"@, USERS@),
            creation("file_names"@, NAMES@),
            creation("dirs"@, DIRS@),
            creation("files"@, FILES@),
        ],
{
    let mut r: Vec<String> = Vec::new();
    r.push(create_table("meta", META));
    r.push(create_table("users", USERS));
    r.push(create_table("file_names", NAMES));
    r.push(create_table("dirs", DIRS));
    r.push(create_table("files", FILES));
    assert(text::strs(r@) =~= seq![
        creation("meta"@, META@),
        creation("users"@, USERS@),
        creation("file_names"@, NAMES@),
        creation("dirs"@, DIRS@),
        creation("files"@, FILES@),
    ]);
    r
}

/// The statements that make the tables of the permission issues' own database.
pub fn issue_tables() -> (r: Vec<String>)
    ensures
        text::strs(r@) == seq![creation("meta"@, META@), creation("issues"@, ISSUES@)],
{
    let mut r: Vec<String> = Vec::new();
    r.push(create_table("meta", META));
    r.push(create_table("issues", ISSUES));
    assert(text::strs(r@) =~= seq![creation("meta"@, META@), creation("issues"@, ISSUES@)]);
    r
}

/// The statements that make the tables of a merged report. The merge copies whole
/// rows, so each table has the columns, in the order, of the one that its rows
/// come from.
pub fn merged_tables() -> (r: Vec<String>)
    ensures
        text::strs(r@) == seq![
            creation("meta"@, META@),
            creation("detail_users"@, USERS@),
            creation("detail_file_names"@, NAMES@),
            creation("detail_dirs"@, DIRS@),
            creation("detail_files"@, FILES@),
            creation("treemap_names"@, NAMES@),
            creation("treemap_owners"@, OWNERS@),
            creation("treemap_dirs"@, TREE_DIRS@),
            creation("perm_issues"@, ISSUES@),
        ],
{
    let mut r: Vec<String> = Vec::new();
    r.push(create_table("meta", META));
    r.push(create_table("detail_users", USERS));
    r.push(create_table("detail_file_names", NAMES));
    r.push(create_table("detail_dirs", DIRS));
    r.push(create_table("detail_files", FILES));
    r.push(create_table("treemap_names", NAMES));
    r.push(create_table("treemap_owners", OWNERS));
    r.push(create_table("treemap_dirs", TREE_DIRS));
    r.push(create_table("perm_issues", ISSUES));
    assert(text::strs(r@) =~= seq![
        creation("meta"@, META@),
        creation("detail_users"@, USERS@),
        creation("detail_file_names"@, NAMES@),
        creation("detail_dirs"@, DIRS@),
        creation("detail_files"@, FILES@),
        creation("treemap_names"@, NAMES@),
        creation("treemap_owners"@, OWNERS@),
        creation("treemap_dirs"@, TREE_DIRS@),
        creation("perm_issues"@, ISSUES@),
    ]);
    r
}

} // verus!
