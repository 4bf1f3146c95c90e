//! What reports and listings show: rows for the screens, exported text files,
//! the directory tree, notifications and the scan log.

use crate::display;
use crate::history;
use crate::order;
use crate::paths;
use crate::text;
use vstd::prelude::*;

verus! {

/// One day of a target's history, with its largest users.
pub struct HistorySnapshot {
    pub scan_date: i64,
    pub path: String,
    pub total: i64,
    pub used: i64,
    pub available: i64,
    pub top_users: Vec<(String, i64)>,
}

/// One user's totals, largest directories and largest files.
pub struct UserDetail {
    pub uid: i64,
    pub total_files: i64,
    pub total_dirs: i64,
    pub total_size: i64,
    pub top_dirs: Vec<(i64, String)>,
    pub top_files: Vec<(i64, String)>,
}

/// A directory of the treemap.
pub struct TreeEntry {
    pub id: i64,
    pub name: String,
    pub size: i64,
    pub file_count: i64,
}

/// A user of a report, and whether the user is on a team.
pub struct ReportUser {
    pub username: String,
    pub size: i64,
    pub has_team: bool,
}

/// An entry that could not be read.
pub struct PermIssue {
    pub item_type: String,
    pub error: String,
    pub path: String,
}

/// How many files a directory holds.
pub struct InodeDir {
    pub files: i64,
    pub size: i64,
    pub path: String,
}

// ---------------------------------------------------------------------------
// Where a report is
// ---------------------------------------------------------------------------

/// The database of a target's report.
pub open spec fn report_db(out: Seq<char>, target: Seq<char>) -> Seq<char> {
    paths::joined(paths::joined(out, target), "report.db"@)
}

/// The database of a target's report.
pub fn report_db_path(out: &str, target: &str) -> (r: String)
    ensures
        r@ == report_db(out@, target@),
{
    let dir = paths::join_path(out, target);
    paths::join_path(dir.as_str(), "report.db")
}

/// The database of a target's report, if it is there.
pub fn resolve_report_db(out: &str, target: &str, exists: bool) -> (r: Option<String>)
    ensures
        text::opt(r) == (if exists {
            Some(report_db(out@, target@))
        } else {
            None
        }),
{
    if exists {
        Some(report_db_path(out, target))
    } else {
        None
    }
}

// ---------------------------------------------------------------------------
// The users of a report
// ---------------------------------------------------------------------------

/// Whether a report's user is on a team.
pub fn on_team(team_id: &Option<String>) -> (r: bool)
    ensures
        r == (match *team_id {
            Some(t) => text::trim(t@).len() > 0,
            None => false,
        }),
{
    match team_id {
        Some(t) => {
            let cs = text::to_chars(t.as_str());
            text::trim_chars(&cs).len() > 0
        },
        None => false,
    }
}

/// Users on a team come first, and the larger before the smaller.
pub open spec fn ranks_before(users: Seq<ReportUser>) -> spec_fn(int, int) -> bool {
    |i: int, j: int|
        (users[i].has_team && !users[j].has_team) || (users[i].has_team == users[j].has_team
            && users[i].size > users[j].size)
}

/// The users of a report: those on a team first, and the larger before the
/// smaller; ties stay in their order.
pub fn rank_users(users: &Vec<ReportUser>) -> (r: Vec<ReportUser>)
    ensures
        r@.len() == users@.len(),
        exists|p: Seq<usize>| #[trigger]
            order::sorted_range(p, 0, users@.len() as int, ranks_before(users@)) && forall|k: int|
                0 <= k < r@.len() ==> {
                    &&& (#[trigger] r@[k]).username@ == users@[p[k] as int].username@
                    &&& r@[k].size == users@[p[k] as int].size
                    &&& r@[k].has_team == users@[p[k] as int].has_team
                },
{
    let n: usize = users.len();
    let less = |i: usize, j: usize| -> (b: bool)
        requires
            i < users@.len(),
            j < users@.len(),
        ensures
            b == ((users@[i as int].has_team && !users@[j as int].has_team) || (
            users@[i as int].has_team == users@[j as int].has_team && users@[i as int].size
                > users@[j as int].size)),
        {
            (users[i].has_team && !users[j].has_team) || (users[i].has_team == users[j].has_team
                && users[i].size > users[j].size)
        };
    let ghost lt = ranks_before(users@);
    let p = order::sort_indices(n, &less, Ghost(lt));
    let mut out: Vec<ReportUser> = Vec::new();
    let mut k: usize = 0;
    while k < p.len()
        invariant
            k <= p@.len(),
            p@.len() == users@.len(),
            forall|x: int| 0 <= x < p@.len() ==> 0 <= #[trigger] p@[x] < users@.len(),
            out@.len() == k,
            forall|x: int|
                0 <= x < k ==> {
                    &&& (#[trigger] out@[x]).username@ == users@[p@[x] as int].username@
                    &&& out@[x].size == users@[p@[x] as int].size
                    &&& out@[x].has_team == users@[p@[x] as int].has_team
                },
        decreases p@.len() - k,
    {
        let u: &ReportUser = &users[p[k]];
        out.push(
            ReportUser { username: u.username.clone(), size: u.size, has_team: u.has_team },
        );
        k = k + 1;
    }
    assert(order::sorted_range(p@, 0, users@.len() as int, ranks_before(users@)));
    out
}

// ---------------------------------------------------------------------------
// Exported text
// ---------------------------------------------------------------------------

/// Whether a character is a letter or a digit of any script.
pub uninterp spec fn letter_or_digit(c: char) -> bool;

/// Says of `char::is_alphanumeric` that its answer depends on the character
/// alone, and that among ASCII characters it holds of just the letters and
/// digits.
pub assume_specification[ char::is_alphanumeric ](c: char) -> (r: bool)
    ensures
        r == letter_or_digit(c),
        (c as u32) < 128 ==> r == text::is_ascii_alnum_char(c),
;

/// A character of a user's name in the name of an exported file.
pub open spec fn export_char(c: char) -> char {
    if letter_or_digit(c) || c == '-' || c == '_' {
        c
    } else {
        '_'
    }
}

/// A user's name in the name of an exported file.
pub fn export_user_name(username: &str) -> (r: String)
    ensures
        r@ == username@.map_values(|c: char| export_char(c)),
        forall|i: int| 0 <= i < r@.len() ==> #[trigger] r@[i] != '/',
{
    let v = text::to_chars(username);
    let mut out: Vec<char> = Vec::new();
    let mut i: usize = 0;
    while i < v.len()
        invariant
            i <= v.len(),
            out@.len() == i,
            forall|k: int| 0 <= k < i ==> #[trigger] out@[k] == export_char(v@[k]),
            forall|k: int| 0 <= k < i ==> #[trigger] out@[k] != '/',
        decreases v.len() - i,
    {
        let c: char = v[i];
        if c.is_alphanumeric() || c == '-' || c == '_' {
            out.push(c);
        } else {
            out.push('_');
        }
        i = i + 1;
    }
    assert(out@ =~= username@.map_values(|c: char| export_char(c)));
    text::from_chars(&out)
}

/// `n` times one character.
pub open spec fn rule(c: char, n: nat) -> Seq<char> {
    Seq::new(n, |i: int| c)
}

pub(crate) fn rule_chars(c: char, n: usize) -> (r: Vec<char>)
    ensures
        r@ == rule(c, n as nat),
{
    let none: Vec<char> = Vec::new();
    let r = text::pad_left_chars(&none, n, c);
    assert(r@ =~= rule(c, n as nat));
    r
}

/// One row of a listing: what it is, whose, how large, and where.
pub open spec fn listing_row(
    kind: Seq<char>,
    kind_width: nat,
    gap: Seq<char>,
    user: Seq<char>,
    size: Seq<char>,
    path: Seq<char>,
) -> Seq<char> {
    text::pad_right(kind, kind_width) + gap + text::pad_right(user, 20) + gap + text::pad_left(size, 12, ' ') + "  "@
        + path
}

pub(crate) fn row_text(kind: &str, kind_width: usize, gap: &str, user: &str, size: &str, path: &str) -> (r:
    String)
    ensures
        r@ == listing_row(kind@, kind_width as nat, gap@, user@, size@, path@),
{
    let k = text::to_chars(kind);
    let mut v = text::pad_right_chars(&k, kind_width);
    let g = text::to_chars(gap);
    text::append_chars(&mut v, &g);
    let u = text::to_chars(user);
    let u = text::pad_right_chars(&u, 20);
    text::append_chars(&mut v, &u);
    text::append_chars(&mut v, &g);
    let s = text::to_chars(size);
    let s = text::pad_left_chars(&s, 12, ' ');
    text::append_chars(&mut v, &s);
    let two = text::to_chars("  ");
    text::append_chars(&mut v, &two);
    let p = text::to_chars(path);
    text::append_chars(&mut v, &p);
    text::from_chars(&v)
}

/// The head of an exported file.
pub fn export_header() -> (r: String)
    ensures
        r@ == listing_row("Type"@, 5, " "@, "User"@, "Size"@, "Path"@) + "\n"@ + rule('-', 90)
            + "\n"@,
{
    let h = row_text("Type", 5, " ", "User", "Size", "Path");
    let line = rule_chars('-', 90);
    let line = text::from_chars(&line);
    text::cat4(h.as_str(), "\n", line.as_str(), "\n")
}

/// One row of an exported file.
pub fn export_row(kind: &str, username: &str, size: i64, path: &str) -> (r: String)
    ensures
        r@ == listing_row(kind@, 5, " "@, username@, display::size_text(size as int), path@),
{
    let s = display::fmt_size(size);
    row_text(kind, 5, " ", username, s.as_str(), path)
}

/// The path of a file in a directory.
pub open spec fn file_in(dir: Seq<char>, name: Seq<char>) -> Seq<char> {
    paths::drop_slashes_end(dir) + "/"@ + name
}

/// The path of a file in a directory.
pub fn path_in(dir: &str, name: &str) -> (r: String)
    ensures
        r@ == file_in(dir@, name@),
{
    let cs = text::to_chars(dir);
    let kept = paths::without_slashes_end(&cs);
    let kept = text::from_chars(kept);
    text::cat3(kept.as_str(), "/", name)
}

/// The users that are exported: the one asked for, or all. It is an error if
/// there is none.
pub open spec fn export_choice(users: Seq<(i64, Seq<char>)>, only: Option<Seq<char>>) -> Seq<
    (i64, Seq<char>),
> {
    users.filter(|u: (i64, Seq<char>)| only is None || u.1 == only->0)
}

/// The ids and names of users.
pub open spec fn id_views(v: Seq<(i64, String)>) -> Seq<(i64, Seq<char>)> {
    Seq::new(v.len(), |i: int| (v[i].0, v[i].1@))
}

/// The users that are exported.
pub fn export_users(users: &Vec<(i64, String)>, only: &Option<String>) -> (r: Result<
    Vec<(i64, String)>,
    String,
>)
    ensures
        match r {
            Ok(v) => {
                &&& v@.len() > 0
                &&& id_views(v@) == export_choice(id_views(users@), text::opt(*only))
            },
            Err(e) => {
                &&& export_choice(id_views(users@), text::opt(*only)).len() == 0
                &&& e@ == (match *only {
                    Some(u) => "user '"@ + u@ + "' not found in report.db"@,
                    None => "no users in report.db"@,
                })
            },
        },
{
    let ghost all = id_views(users@);
    let ghost want = text::opt(*only);
    let ghost f = |u: (i64, Seq<char>)| want is None || u.1 == want->0;
    let mut out: Vec<(i64, String)> = Vec::new();
    let mut i: usize = 0;
    proof {
        reveal(Seq::filter);
        assert(id_views(out@) =~= all.take(0).filter(f));
    }
    while i < users.len()
        invariant
            i <= users.len(),
            all == id_views(users@),
            want == text::opt(*only),
            f == (|u: (i64, Seq<char>)| want is None || u.1 == want->0),
            id_views(out@) == all.take(i as int).filter(f),
        decreases users.len() - i,
    {
        proof {
            reveal(Seq::filter);
            assert(all.take(i + 1).drop_last() =~= all.take(i as int));
            assert(all.take(i + 1).last() == all[i as int]);
        }
        let take: bool = match only {
            Some(u) => text::str_eq(users[i].1.as_str(), u.as_str()),
            None => true,
        };
        if take {
            let ghost before = id_views(out@);
            out.push((users[i].0, users[i].1.clone()));
            assert(id_views(out@) =~= before.push(all[i as int]));
        }
        i = i + 1;
    }
    assert(all.take(i as int) =~= all);
    assert(export_choice(all, want) == all.filter(f));
    if out.len() == 0 {
        assert(id_views(out@).len() == 0);
        return Err(
            match only {
                Some(u) => text::cat3("user '", u.as_str(), "' not found in report.db"),
                None => "no users in report.db".to_string(),
            },
        );
    }
    assert(id_views(out@).len() == out@.len());
    Ok(out)
}

// ---------------------------------------------------------------------------
// The directory tree
// ---------------------------------------------------------------------------

/// One line of the printed tree: its text, the entry that it shows, whether the
/// entry's own children follow, and what their paths begin with.
pub struct TreeLine {
    pub text: String,
    pub entry: usize,
    pub descend: bool,
    pub child_prefix: &'static str,
}

/// What a line of the tree shows.
pub open spec fn tree_text(last: bool, shown: Seq<char>, size: i64) -> Seq<char> {
    (if last {
        "\u{2514}\u{2500}\u{2500} "@
    } else {
        "\u{251c}\u{2500}\u{2500} "@
    }) + shown + " ["@ + display::size_text(size as int) + "]"@
}

/// Whether an entry of the tree is shown: where something is searched for, its
/// path has to hold that.
pub open spec fn is_shown(prefix: Seq<char>, name: Seq<char>, search: Option<Seq<char>>) -> bool {
    search matches Some(k) ==> text::has_sub(file_in(prefix, name), k)
}

/// The entries of a directory that are shown.
pub open spec fn shown_entries(
    prefix: Seq<char>,
    names: Seq<Seq<char>>,
    search: Option<Seq<char>>,
    n: int,
) -> Seq<int>
    decreases n,
{
    if n <= 0 {
        Seq::empty()
    } else {
        let before = shown_entries(prefix, names, search, n - 1);
        if is_shown(prefix, names[n - 1], search) {
            before.push(n - 1)
        } else {
            before
        }
    }
}

/// The names of treemap entries.
pub open spec fn entry_names(v: Seq<TreeEntry>) -> Seq<Seq<char>> {
    Seq::new(v.len(), |i: int| v[i].name@)
}

/// `l` shows the entry at `i`.
pub open spec fn is_tree_line(
    l: TreeLine,
    entries: Seq<TreeEntry>,
    i: int,
    depth: int,
    max_depth: int,
    prefix: Seq<char>,
) -> bool {
    let e = entries[i];
    let last = i == entries.len() - 1;
    &&& 0 <= i < entries.len()
    &&& l.entry == i
    &&& l.text@ == tree_text(
        last,
        if depth == 0 {
            file_in(prefix, e.name@)
        } else {
            e.name@
        },
        e.size,
    )
    &&& l.descend == (e.file_count > 0 && depth + 1 < max_depth)
    &&& l.child_prefix@ == (if last {
        "    "@
    } else {
        "\u{2502}   "@
    })
}

/// The lines of the entries of one directory. At the top whole paths are shown,
/// below it names. Children follow where the entry holds files and the depth
/// allows it.
pub fn tree_lines(
    entries: &Vec<TreeEntry>,
    depth: usize,
    max_depth: usize,
    prefix: &str,
    search: &Option<String>,
) -> (r: Vec<TreeLine>)
    requires
        depth < usize::MAX,
    ensures
        ({
            let shown = shown_entries(
                prefix@,
                entry_names(entries@),
                text::opt(*search),
                entries@.len() as int,
            );
            &&& r@.len() == shown.len()
            &&& forall|k: int|
                0 <= k < r@.len() ==> is_tree_line(
                    #[trigger] r@[k],
                    entries@,
                    shown[k],
                    depth as int,
                    max_depth as int,
                    prefix@,
                )
        }),
{
    let ghost names = entry_names(entries@);
    let mut out: Vec<TreeLine> = Vec::new();
    let n: usize = entries.len();
    let mut i: usize = 0;
    while i < n
        invariant
            i <= n,
            n == entries@.len(),
            depth < usize::MAX,
            names == entry_names(entries@),
            out@.len() == shown_entries(prefix@, names, text::opt(*search), i as int).len(),
            forall|k: int|
                0 <= k < out@.len() ==> is_tree_line(
                    #[trigger] out@[k],
                    entries@,
                    shown_entries(prefix@, names, text::opt(*search), i as int)[k],
                    depth as int,
                    max_depth as int,
                    prefix@,
                ),
        decreases n - i,
    {
        let e: &TreeEntry = &entries[i];
        let last = i == n - 1;
        let full = path_in(prefix, e.name.as_str());
        let ghost before = shown_entries(prefix@, names, text::opt(*search), i as int);
        let ghost now = shown_entries(prefix@, names, text::opt(*search), i + 1);
        let ghost had = out@;
        let show: bool = match search {
            Some(k) => {
                let f = text::to_chars(full.as_str());
                let p = text::to_chars(k.as_str());
                text::find_chars(&f, &p).is_some()
            },
            None => true,
        };
        if show {
            let size = display::fmt_size(e.size);
            let connector: &'static str = if last {
                "\u{2514}\u{2500}\u{2500} "
            } else {
                "\u{251c}\u{2500}\u{2500} "
            };
            let child_prefix: &'static str = if last {
                "    "
            } else {
                "\u{2502}   "
            };
            let text = if depth == 0 {
                text::cat5(connector, full.as_str(), " [", size.as_str(), "]")
            } else {
                text::cat5(connector, e.name.as_str(), " [", size.as_str(), "]")
            };
            out.push(
                TreeLine {
                    text,
                    entry: i,
                    descend: e.file_count > 0 && depth + 1 < max_depth,
                    child_prefix,
                },
            );
        }
        proof {
            assert(show == is_shown(prefix@, names[i as int], text::opt(*search)));
            assert forall|k: int| 0 <= k < out@.len() implies is_tree_line(
                #[trigger] out@[k],
                entries@,
                now[k],
                depth as int,
                max_depth as int,
                prefix@,
            ) by {
                if k < had.len() {
                    assert(out@[k] == had[k]);
                    assert(now[k] == before[k]);
                }
            }
        }
        i = i + 1;
    }
    out
}

// ---------------------------------------------------------------------------
// Notifications and logs
// ---------------------------------------------------------------------------

/// The lines of a notification, one for each user.
pub open spec fn usage_lines(rows: Seq<(Seq<char>, i64)>) -> Seq<Seq<char>> {
    Seq::new(
        rows.len(),
        |i: int| "- **"@ + rows[i].0 + "**: "@ + display::size_text(rows[i].1 as int),
    )
}

/// What a notification says of users.
pub fn notification_lines(users: &Vec<(String, i64)>) -> (r: String)
    ensures
        r@ == (if users@.len() == 0 {
            "- No data"@
        } else {
            text::join(usage_lines(history::usages(users@)), "\n"@)
        }),
{
    if users.len() == 0 {
        return "- No data".to_string();
    }
    let ghost all = history::usages(users@);
    let mut out: Vec<String> = Vec::new();
    let mut i: usize = 0;
    while i < users.len()
        invariant
            i <= users.len(),
            all == history::usages(users@),
            out@.len() == i,
            forall|k: int| 0 <= k < i ==> (#[trigger] out@[k])@ == usage_lines(all)[k],
        decreases users.len() - i,
    {
        let s = display::fmt_size(users[i].1);
        out.push(text::cat4("- **", users[i].0.as_str(), "**: ", s.as_str()));
        i = i + 1;
    }
    assert(text::strs(out@) =~= usage_lines(all));
    text::join_strings(&out, "\n")
}

/// The figures of a scan's log.
pub struct ScanFigures {
    pub files: u64,
    pub dirs: u64,
    pub inodes: u64,
    pub total_size: i64,
    pub permission_issues: u64,
    pub elapsed: i64,
}

/// Files for each second; all of them where no time passed.
pub open spec fn scan_rate(files: u64, elapsed: i64) -> int {
    if elapsed > 0 {
        files as int / elapsed as int
    } else {
        files as int
    }
}

/// The head of a scan's log, line by line.
pub open spec fn log_head_lines(
    target: Seq<char>,
    dir: Seq<char>,
    started: Seq<char>,
    f: ScanFigures,
) -> Seq<Seq<char>> {
    seq![
        "=== STARTING DISK USAGE SCAN ==="@,
        "Target: "@ + target,
        "Directory: "@ + dir,
        "Started: "@ + started,
        ""@,
        rule('=', 60),
        "SCAN COMPLETED in "@ + text::dec_int(f.elapsed as int) + "s"@,
        rule('=', 60),
        "Total directories: "@ + text::dec(f.dirs as nat),
        "Total files:       "@ + text::dec(f.files as nat),
        "Total inodes:      "@ + text::dec(f.inodes as nat),
        "Total size:        "@ + display::size_text(f.total_size as int),
        "Scan rate:         "@ + text::dec_int(scan_rate(f.files, f.elapsed)) + " files/sec"@,
        "Permission issues: "@ + text::dec(f.permission_issues as nat),
        rule('=', 60),
    ]
}

/// The head of a scan's log.
pub fn scan_log_head(target: &str, dir: &str, started: &str, f: &ScanFigures) -> (r: Vec<String>)
    ensures
        text::strs(r@) == log_head_lines(target@, dir@, started@, *f),
{
    let bar = rule_chars('=', 60);
    let bar = text::from_chars(&bar);
    let rate: u64 = if f.elapsed > 0 {
        f.files / (f.elapsed as u64)
    } else {
        f.files
    };
    let elapsed = text::dec_int_string(f.elapsed);
    let dirs = text::dec_string(f.dirs);
    let files = text::dec_string(f.files);
    let inodes = text::dec_string(f.inodes);
    let size = display::fmt_size(f.total_size);
    let rate = text::dec_string(rate);
    let issues = text::dec_string(f.permission_issues);
    let mut v: Vec<String> = Vec::new();
    v.push("=== STARTING DISK USAGE SCAN ===".to_string());
    v.push(text::cat2("Target: ", target));
    v.push(text::cat2("Directory: ", dir));
    v.push(text::cat2("Started: ", started));
    v.push("".to_string());
    v.push(bar.clone());
    v.push(text::cat3("SCAN COMPLETED in ", elapsed.as_str(), "s"));
    v.push(bar.clone());
    v.push(text::cat2("Total directories: ", dirs.as_str()));
    v.push(text::cat2("Total files:       ", files.as_str()));
    v.push(text::cat2("Total inodes:      ", inodes.as_str()));
    v.push(text::cat2("Total size:        ", size.as_str()));
    v.push(text::cat3("Scan rate:         ", rate.as_str(), " files/sec"));
    v.push(text::cat2("Permission issues: ", issues.as_str()));
    v.push(bar);
    assert(text::strs(v@) =~= log_head_lines(target@, dir@, started@, *f));
    v
}

/// The tail of a scan's log, line by line.
pub open spec fn log_tail_lines(detail_files: u64, tree_map: bool, merge_ok: bool) -> Seq<
    Seq<char>,
> {
    seq!["[Phase 2] Detail DB built: "@ + text::dec(detail_files as nat) + " files"@] + (if tree_map {
        seq!["[Phase 2] Treemap built"@]
    } else {
        Seq::empty()
    }) + seq![
        "[Phase 3] Merged into report.db ("@ + (if merge_ok {
            "ok"@
        } else {
            "FAILED"@
        }) + ")"@,
        "=== SCAN COMPLETED SUCCESSFULLY ==="@,
    ]
}

/// The tail of a scan's log.
pub fn scan_log_tail(detail_files: u64, tree_map: bool, merge_ok: bool) -> (r: Vec<String>)
    ensures
        text::strs(r@) == log_tail_lines(detail_files, tree_map, merge_ok),
{
    let n = text::dec_string(detail_files);
    let mut v: Vec<String> = Vec::new();
    v.push(text::cat3("[Phase 2] Detail DB built: ", n.as_str(), " files"));
    if tree_map {
        v.push("[Phase 2] Treemap built".to_string());
    }
    let outcome: &'static str = if merge_ok {
        "ok"
    } else {
        "FAILED"
    };
    v.push(text::cat3("[Phase 3] Merged into report.db (", outcome, ")"));
    v.push("=== SCAN COMPLETED SUCCESSFULLY ===".to_string());
    assert(text::strs(v@) =~= log_tail_lines(detail_files, tree_map, merge_ok));
    v
}

// ---------------------------------------------------------------------------
// Laws
// ---------------------------------------------------------------------------

/// The users of a report are ranked with nobody lost: whoever is on a team stands before
/// whoever is not, within these whoever takes more stands first, and users that take the
/// same stay in their order.
pub proof fn law_ranked_users(users: Seq<ReportUser>, p: Seq<usize>)
    requires
        order::sorted_range(p, 0, users.len() as int, ranks_before(users)),
    ensures
        p.len() == users.len(),
        forall|i: usize| i < users.len() ==> #[trigger] p.contains(i),
        forall|k: int, l: int|
            0 <= k < l < p.len() ==> {
                let a = users[#[trigger] p[k] as int];
                let b = users[#[trigger] p[l] as int];
                &&& b.has_team ==> a.has_team
                &&& a.has_team == b.has_team ==> a.size >= b.size
                &&& a.has_team == b.has_team && a.size == b.size ==> p[k] < p[l]
            },
{
    let lt = ranks_before(users);
    assert forall|k: int, l: int| 0 <= k < l < p.len() implies ({
        let a = users[#[trigger] p[k] as int];
        let b = users[#[trigger] p[l] as int];
        &&& b.has_team ==> a.has_team
        &&& a.has_team == b.has_team ==> a.size >= b.size
        &&& a.has_team == b.has_team && a.size == b.size ==> p[k] < p[l]
    }) by {
        assert(order::before(lt, p[k] as int, p[l] as int));
    }
}

/// The users that are exported are those that are listed, in their order, each with its
/// own id: all of them, or those of the name that is asked for.
pub proof fn law_exported_users(
    users: Seq<(i64, Seq<char>)>,
    only: Option<Seq<char>>,
    u: (i64, Seq<char>),
)
    ensures
        only is None ==> export_choice(users, only) == users,
        only is Some ==> (export_choice(users, only).contains(u) <==> users.contains(u) && u.1
            == only->0),
    decreases users.len(),
{
    reveal(Seq::filter);
    if users.len() > 0 {
        let head = users.drop_last();
        let e = users.last();
        law_exported_users(head, only, u);
        let before = export_choice(head, only);
        let now = export_choice(users, only);
        if only is None {
            assert(now =~= users);
        } else {
            if now.contains(u) {
                let i = choose|i: int| 0 <= i < now.len() && now[i] == u;
                if i < before.len() {
                    assert(before[i] == u);
                    let j = choose|j: int| 0 <= j < head.len() && head[j] == u;
                    assert(users[j] == u);
                } else {
                    assert(users[users.len() - 1] == u);
                }
            }
            if users.contains(u) && u.1 == only->0 {
                let j = choose|j: int| 0 <= j < users.len() && users[j] == u;
                if j < head.len() {
                    assert(head[j] == u);
                    let i = choose|i: int| 0 <= i < before.len() && before[i] == u;
                    assert(now[i] == u);
                } else {
                    assert(now[now.len() - 1] == u);
                }
            }
        }
    } else {
        assert(export_choice(users, only) =~= users);
    }
}

/// The tree shows the entries of a directory in their order, and an entry exactly if
/// nothing is searched for or its path holds what is.
pub proof fn law_shown_entries(
    prefix: Seq<char>,
    names: Seq<Seq<char>>,
    search: Option<Seq<char>>,
    n: int,
)
    requires
        0 <= n <= names.len(),
    ensures
        forall|a: int, b: int|
            0 <= a < b < shown_entries(prefix, names, search, n).len() ==> (
            #[trigger] shown_entries(prefix, names, search, n)[a]) < (#[trigger] shown_entries(
                prefix,
                names,
                search,
                n,
            )[b]),
        forall|i: int| #[trigger]
            shown_entries(prefix, names, search, n).contains(i) <==> 0 <= i < n && (search is None
                || text::has_sub(
                paths::drop_slashes_end(prefix) + "/"@ + names[i],
                search->0,
            )),
    decreases n,
{
    if n > 0 {
        law_shown_entries(prefix, names, search, n - 1);
        let before = shown_entries(prefix, names, search, n - 1);
        let now = shown_entries(prefix, names, search, n);
        assert forall|a: int| 0 <= a < before.len() implies (#[trigger] before[a]) < n - 1 by {
            assert(before.contains(before[a]));
        }
        assert forall|a: int, b: int| 0 <= a < b < now.len() implies (#[trigger] now[a]) < (
        #[trigger] now[b]) by {
            if b < before.len() {
                assert(before[a] < before[b]);
            } else {
                assert(now[a] == before[a]);
            }
        }
        assert forall|i: int| #[trigger] now.contains(i) <==> 0 <= i < n && (search is None
            || text::has_sub(paths::drop_slashes_end(prefix) + "/"@ + names[i], search->0)) by {
            assert(before.contains(i) <==> 0 <= i < n - 1 && (search is None || text::has_sub(
                paths::drop_slashes_end(prefix) + "/"@ + names[i],
                search->0,
            )));
            if before.contains(i) {
                let a = choose|a: int| 0 <= a < before.len() && before[a] == i;
                assert(now[a] == i);
            }
            if i == n - 1 && is_shown(prefix, names[i], search) {
                assert(now[before.len() as int] == i);
            }
            if now.contains(i) {
                let a = choose|a: int| 0 <= a < now.len() && now[a] == i;
                if a < before.len() {
                    assert(before[a] == i);
                }
            }
        }
    }
}

/// A line of the tree shows its own entry: the whole path at the top and the name below,
/// with the size of that entry in brackets. What lies in it follows where it holds files
/// and is not as deep as the tree goes.
pub proof fn law_tree_lines(
    l: TreeLine,
    entries: Seq<TreeEntry>,
    i: int,
    depth: int,
    max_depth: int,
    prefix: Seq<char>,
)
    requires
        is_tree_line(l, entries, i, depth, max_depth, prefix),
    ensures
        l.entry == i,
        l.text@.len() > 4,
        depth == 0 ==> l.text@.skip(4) == paths::drop_slashes_end(prefix) + seq!['/']
            + entries[i].name@ + seq![' ', '['] + display::size_text(entries[i].size as int)
            + seq![']'],
        depth != 0 ==> l.text@.skip(4) == entries[i].name@ + seq![' ', '[']
            + display::size_text(entries[i].size as int) + seq![']'],
        l.text@[0] == (if i == entries.len() - 1 {
            '\u{2514}'
        } else {
            '\u{251c}'
        }),
        l.descend <==> entries[i].file_count >= 1 && depth < max_depth - 1,
        l.child_prefix@.len() == 4,
        l.child_prefix@[0] == (if i == entries.len() - 1 {
            ' '
        } else {
            '\u{2502}'
        }),
{
    reveal_strlit("\u{2514}\u{2500}\u{2500} ");
    reveal_strlit("\u{251c}\u{2500}\u{2500} ");
    reveal_strlit("/");
    reveal_strlit(" [");
    reveal_strlit("]");
    reveal_strlit("    ");
    reveal_strlit("\u{2502}   ");
    assert("/"@ =~= seq!['/']);
    assert(" ["@ =~= seq![' ', '[']);
    assert("]"@ =~= seq![']']);
    let size = display::size_text(entries[i].size as int);
    if depth == 0 {
        assert(l.text@.skip(4) =~= paths::drop_slashes_end(prefix) + seq!['/'] + entries[i].name@
            + seq![' ', '['] + size + seq![']']);
    } else {
        assert(l.text@.skip(4) =~= entries[i].name@ + seq![' ', '['] + size + seq![']']);
    }
}

/// A notification has a line for each user, in their order, that names the user and the
/// user's own size.
pub proof fn law_notification_lines(rows: Seq<(Seq<char>, i64)>, i: int)
    requires
        0 <= i < rows.len(),
    ensures
        usage_lines(rows).len() == rows.len(),
        usage_lines(rows)[i] == seq!['-', ' ', '*', '*'] + rows[i].0 + seq!['*', '*', ':', ' ']
            + display::size_text(rows[i].1 as int),
{
    reveal_strlit("- **");
    reveal_strlit("**: ");
    assert("- **"@ =~= seq!['-', ' ', '*', '*']);
    assert("**: "@ =~= seq!['*', '*', ':', ' ']);
}

/// The log of a scan tells each of its figures on a line of its own, and the files for
/// each second: as many as went into the time that passed, rounded down.
pub proof fn law_scan_log(
    target: Seq<char>,
    dir: Seq<char>,
    started: Seq<char>,
    f: ScanFigures,
)
    ensures
        log_head_lines(target, dir, started, f).len() == 15,
        log_head_lines(target, dir, started, f)[1] == "Target: "@ + target,
        log_head_lines(target, dir, started, f)[2] == "Directory: "@ + dir,
        log_head_lines(target, dir, started, f)[8] == "Total directories: "@ + text::dec(
            f.dirs as nat,
        ),
        log_head_lines(target, dir, started, f)[9] == "Total files:       "@ + text::dec(
            f.files as nat,
        ),
        log_head_lines(target, dir, started, f)[10] == "Total inodes:      "@ + text::dec(
            f.inodes as nat,
        ),
        log_head_lines(target, dir, started, f)[11] == "Total size:        "@ + display::size_text(
            f.total_size as int,
        ),
        log_head_lines(target, dir, started, f)[13] == "Permission issues: "@ + text::dec(
            f.permission_issues as nat,
        ),
        f.elapsed <= 0 ==> scan_rate(f.files, f.elapsed) == f.files,
        f.elapsed > 0 ==> scan_rate(f.files, f.elapsed) * f.elapsed <= f.files < (scan_rate(
            f.files,
            f.elapsed,
        ) + 1) * f.elapsed,
{
    if f.elapsed > 0 {
        let (a, b) = (f.files as int, f.elapsed as int);
        assert((a / b) * b <= a < (a / b + 1) * b) by (nonlinear_arith)
            requires
                b > 0,
        ;
    }
}

} // verus!
