//! The lines that the commands print: how scans stand, what is configured, what a
//! report holds of a user, and how a scan or an export without a screen goes on.

use crate::cli;
use crate::config::Target;
use crate::config::TargetModel;
use crate::config::TeamModel;
use crate::config::UserModel;
use crate::config;
use crate::display;
use crate::history::GrowthRow;
use crate::listing::HistorySnapshot;
use crate::listing::InodeDir;
use crate::listing::PermIssue;
use crate::listing::UserDetail;
use crate::listing;
use crate::text;
use crate::tracking::TargetStatus;
use vstd::prelude::*;
use vstd::string::*;

verus! {

// ---------------------------------------------------------------------------
// Cells
// ---------------------------------------------------------------------------

/// A text in a column of `w`, at its left edge.
pub open spec fn at_left(s: Seq<char>, w: nat) -> Seq<char> {
    text::pad_right(s, w)
}

/// A text in a column of `w`, at its right edge.
pub open spec fn at_right(s: Seq<char>, w: nat) -> Seq<char> {
    text::pad_left(s, w, ' ')
}

fn left(s: &str, w: usize) -> (r: String)
    ensures
        r@ == at_left(s@, w as nat),
{
    let cs = text::to_chars(s);
    let v = text::pad_right_chars(&cs, w);
    text::from_chars(&v)
}

fn right(s: &str, w: usize) -> (r: String)
    ensures
        r@ == at_right(s@, w as nat),
{
    let cs = text::to_chars(s);
    let v = text::pad_left_chars(&cs, w, ' ');
    text::from_chars(&v)
}

fn rule_line(c: char, n: usize) -> (r: String)
    ensures
        r@ == listing::rule(c, n as nat),
{
    let v = listing::rule_chars(c, n);
    text::from_chars(&v)
}

fn push_line(v: &mut Vec<String>, s: String)
    ensures
        text::strs(final(v)@) == text::strs(old(v)@).push(s@),
{
    let ghost before = text::strs(v@);
    v.push(s);
    assert(text::strs(v@) =~= before.push(s@));
}

// ---------------------------------------------------------------------------
// How scans stand
// ---------------------------------------------------------------------------

/// A row of the status table.
pub open spec fn status_cells(
    name: Seq<char>,
    stage: Seq<char>,
    files: Seq<char>,
    dirs: Seq<char>,
    size: Seq<char>,
    elapsed: Seq<char>,
    note: Seq<char>,
) -> Seq<char> {
    at_left(name, 18) + " "@ + at_left(stage, 10) + " "@ + at_right(files, 12) + " "@ + at_right(
        dirs,
        10,
    ) + " "@ + at_right(size, 10) + " "@ + at_right(elapsed, 8) + "  "@ + note
}

fn status_line(
    name: &str,
    stage: &str,
    files: &str,
    dirs: &str,
    size: &str,
    elapsed: &str,
    note: &str,
) -> (r: String)
    ensures
        r@ == status_cells(name@, stage@, files@, dirs@, size@, elapsed@, note@),
{
    let mut s = left(name, 18);
    s.append(" ");
    s.append(left(stage, 10).as_str());
    s.append(" ");
    s.append(right(files, 12).as_str());
    s.append(" ");
    s.append(right(dirs, 10).as_str());
    s.append(" ");
    s.append(right(size, 10).as_str());
    s.append(" ");
    s.append(right(elapsed, 8).as_str());
    s.append("  ");
    s.append(note);
    s
}

/// The head of the status table.
pub fn status_head() -> (r: Vec<String>)
    ensures
        text::strs(r@) == seq![
            status_cells("Target"@, "Stage"@, "Files"@, "Dirs"@, "Size"@, "Elapsed"@, "Note"@),
            listing::rule('-', 90),
        ],
{
    let mut v: Vec<String> = Vec::new();
    assert(text::strs(v@) =~= Seq::<Seq<char>>::empty());
    push_line(&mut v, status_line("Target", "Stage", "Files", "Dirs", "Size", "Elapsed", "Note"));
    push_line(&mut v, rule_line('-', 90));
    assert(text::strs(v@) =~= seq![
        status_cells("Target"@, "Stage"@, "Files"@, "Dirs"@, "Size"@, "Elapsed"@, "Note"@),
        listing::rule('-', 90),
    ]);
    v
}

/// The row of a target that was heard of at `updated_at`.
pub open spec fn status_text(
    name: Seq<char>,
    s: TargetStatus,
    now: i64,
    updated_at: i64,
) -> Seq<char> {
    status_cells(
        display::truncated(name, 18),
        s.stage@,
        text::group3(text::dec(s.files as nat)),
        text::group3(text::dec(s.dirs as nat)),
        display::size_text(s.size_bytes as i64 as int),
        text::dec_int(s.total_elapsed_sec as int) + "s"@,
        cli::note_text(s.error@, s.running, cli::clamped_sub(now, updated_at)),
    )
}

/// The row of a target that was heard of at `updated_at`.
pub fn status_row(name: &str, s: &TargetStatus, now: i64, updated_at: i64) -> (r: String)
    ensures
        r@ == status_text(name@, *s, now, updated_at),
{
    let shown = display::truncate_str(name, 18);
    let files = display::fmt_count_u64(s.files);
    let dirs = display::fmt_count_u64(s.dirs);
    let size = display::fmt_size(#[verifier::truncate] (s.size_bytes as i64));
    let secs = text::dec_int_string(s.total_elapsed_sec);
    let secs = text::cat2(secs.as_str(), "s");
    let note = cli::status_note(s.error.as_str(), s.running, now, updated_at);
    status_line(
        shown.as_str(),
        s.stage.as_str(),
        files.as_str(),
        dirs.as_str(),
        size.as_str(),
        secs.as_str(),
        note.as_str(),
    )
}

// ---------------------------------------------------------------------------
// What is configured
// ---------------------------------------------------------------------------

/// A row of the table of targets.
pub open spec fn target_cells(
    name: Seq<char>,
    path: Seq<char>,
    teams: Seq<char>,
    users: Seq<char>,
) -> Seq<char> {
    at_left(name, 20) + " "@ + at_left(path, 40) + " "@ + at_left(teams, 6) + " "@ + at_left(
        users,
        6,
    )
}

fn target_line(name: &str, path: &str, teams: &str, users: &str) -> (r: String)
    ensures
        r@ == target_cells(name@, path@, teams@, users@),
{
    let mut s = left(name, 20);
    s.append(" ");
    s.append(left(path, 40).as_str());
    s.append(" ");
    s.append(left(teams, 6).as_str());
    s.append(" ");
    s.append(left(users, 6).as_str());
    s
}

/// The table of targets.
pub open spec fn target_table_of(ts: Seq<TargetModel>) -> Seq<Seq<char>> {
    seq![
        target_cells("Target"@, "Path"@, "Teams"@, "Users"@),
        listing::rule('-', 80),
    ] + ts.map_values(
        |t: TargetModel|
            target_cells(t.name, t.path, text::dec(t.teams.len()), text::dec(t.users.len())),
    )
}

/// The table of targets.
pub fn target_table(targets: &Vec<Target>) -> (r: Vec<String>)
    ensures
        text::strs(r@) == target_table_of(config::target_views(targets@)),
{
    let ghost ts = config::target_views(targets@);
    let ghost f = |t: TargetModel|
        target_cells(t.name, t.path, text::dec(t.teams.len()), text::dec(t.users.len()));
    let ghost head = seq![
        target_cells("Target"@, "Path"@, "Teams"@, "Users"@),
        listing::rule('-', 80),
    ];
    let mut v: Vec<String> = Vec::new();
    assert(text::strs(v@) =~= Seq::<Seq<char>>::empty());
    push_line(&mut v, target_line("Target", "Path", "Teams", "Users"));
    push_line(&mut v, rule_line('-', 80));
    assert(text::strs(v@) =~= head + ts.take(0).map_values(f));
    let mut i: usize = 0;
    while i < targets.len()
        invariant
            i <= targets@.len(),
            ts == config::target_views(targets@),
            f == (|t: TargetModel|
                target_cells(t.name, t.path, text::dec(t.teams.len()), text::dec(t.users.len()))),
            text::strs(v@) == head + ts.take(i as int).map_values(f),
        decreases targets@.len() - i,
    {
        let t: &Target = &targets[i];
        let teams = text::dec_string(t.teams.len() as u64);
        let users = text::dec_string(t.users.len() as u64);
        let ghost before = text::strs(v@);
        push_line(
            &mut v,
            target_line(t.name.as_str(), t.path.as_str(), teams.as_str(), users.as_str()),
        );
        proof {
            assert(ts[i as int] == t@);
            assert(before.push(f(ts[i as int])) =~= head + ts.take(i + 1).map_values(f));
        }
        i = i + 1;
    }
    assert(ts.take(i as int) =~= ts);
    v
}

/// The names of a team's users, in order.
pub open spec fn members_of(us: Seq<UserModel>, id: i64) -> Seq<Seq<char>>
    decreases us.len(),
{
    if us.len() == 0 {
        Seq::empty()
    } else {
        let r = members_of(us.drop_last(), id);
        if us.last().team_id == id {
            r.push(us.last().name)
        } else {
            r
        }
    }
}

fn members(t: &Target, id: i64) -> (r: Vec<String>)
    ensures
        text::strs(r@) == members_of(t@.users, id),
{
    let ghost us = t@.users;
    let mut v: Vec<String> = Vec::new();
    assert(text::strs(v@) =~= Seq::<Seq<char>>::empty());
    let mut i: usize = 0;
    while i < t.users.len()
        invariant
            i <= t.users@.len(),
            us == t@.users,
            us.len() == t.users@.len(),
            text::strs(v@) == members_of(us.take(i as int), id),
        decreases t.users@.len() - i,
    {
        proof {
            assert(us.take(i + 1).drop_last() =~= us.take(i as int));
            assert(us[i as int] == t.users@[i as int]@);
        }
        if t.users[i].team_id == id {
            push_line(&mut v, t.users[i].name.clone());
        }
        i = i + 1;
    }
    assert(us.take(i as int) =~= us);
    v
}

/// The line of a team.
pub open spec fn team_text(m: TeamModel, us: Seq<UserModel>) -> Seq<char> {
    let names = members_of(us, m.team_id);
    "  "@ + m.name + " ("@ + text::dec(names.len()) + "): "@ + text::join(names, ", "@)
}

/// The lines of the teams, of all or of those with the name that is asked for.
pub open spec fn team_lines(
    ms: Seq<TeamModel>,
    us: Seq<UserModel>,
    only: Option<Seq<char>>,
) -> Seq<Seq<char>>
    decreases ms.len(),
{
    if ms.len() == 0 {
        Seq::empty()
    } else {
        let r = team_lines(ms.drop_last(), us, only);
        if only is None || only == Some(ms.last().name) {
            r.push(team_text(ms.last(), us))
        } else {
            r
        }
    }
}

/// What is shown of one target, with all its teams or one of them.
pub open spec fn target_lines_of(t: TargetModel, only: Option<Seq<char>>) -> Seq<Seq<char>> {
    seq![
        Seq::<char>::empty(),
        "=== Target: "@ + t.name + " ("@ + t.path + ") ==="@,
        "Teams: "@ + text::dec(t.teams.len()),
        "Users: "@ + text::dec(t.users.len()),
    ] + (match t.end_scan {
        Some(e) => seq!["End scan: "@ + e],
        None => Seq::empty(),
    }) + (match t.purge_time {
        Some(n) => seq!["Max store: "@ + text::dec_int(n as int) + " days"@],
        None => Seq::empty(),
    }) + (if t.teams.len() == 0 {
        Seq::empty()
    } else {
        seq![Seq::<char>::empty(), "Teams:"@] + team_lines(t.teams, t.users, only)
    })
}

fn is_asked(only: &Option<String>, name: &str) -> (r: bool)
    ensures
        r == (text::opt(*only) is None || text::opt(*only) == Some(name@)),
{
    match only {
        Some(o) => text::str_eq(o.as_str(), name),
        None => true,
    }
}

/// What is shown of one target, with all its teams or one of them.
pub fn target_lines(t: &Target, only: &Option<String>) -> (r: Vec<String>)
    ensures
        text::strs(r@) == target_lines_of(t@, text::opt(*only)),
{
    let ghost o = text::opt(*only);
    let mut v: Vec<String> = Vec::new();
    assert(text::strs(v@) =~= Seq::<Seq<char>>::empty());
    let blank = String::new();
    assert(blank@ =~= Seq::<char>::empty());
    push_line(&mut v, blank);
    let head = text::cat4("=== Target: ", t.name.as_str(), " (", t.path.as_str());
    push_line(&mut v, text::cat2(head.as_str(), ") ==="));
    let n = text::dec_string(t.teams.len() as u64);
    push_line(&mut v, text::cat2("Teams: ", n.as_str()));
    let n = text::dec_string(t.users.len() as u64);
    push_line(&mut v, text::cat2("Users: ", n.as_str()));
    let ghost a = text::strs(v@);
    proof {
        assert(a =~= seq![
            Seq::<char>::empty(),
            "=== Target: "@ + t.name@ + " ("@ + t.path@ + ") ==="@,
            "Teams: "@ + text::dec(t@.teams.len()),
            "Users: "@ + text::dec(t@.users.len()),
        ]);
    }
    match &t.end_scan {
        Some(e) => push_line(&mut v, text::cat2("End scan: ", e.as_str())),
        None => {},
    }
    let ghost b = match t@.end_scan {
        Some(e) => seq!["End scan: "@ + e],
        None => Seq::empty(),
    };
    assert(text::strs(v@) =~= a + b);
    match t.purge_time {
        Some(p) => {
            let n = text::dec_int_string(p);
            push_line(&mut v, text::cat3("Max store: ", n.as_str(), " days"));
        },
        None => {},
    }
    let ghost c = match t@.purge_time {
        Some(n) => seq!["Max store: "@ + text::dec_int(n as int) + " days"@],
        None => Seq::empty(),
    };
    assert(text::strs(v@) =~= a + b + c);
    if t.teams.len() == 0 {
        assert(a + b + c + Seq::<Seq<char>>::empty() =~= a + b + c);
        return v;
    }
    let blank = String::new();
    assert(blank@ =~= Seq::<char>::empty());
    push_line(&mut v, blank);
    push_line(&mut v, "Teams:".to_string());
    let ghost d = seq![Seq::<char>::empty(), "Teams:"@];
    let ghost ms = t@.teams;
    let ghost us = t@.users;
    proof {
        assert(team_lines(ms.take(0), us, o) =~= Seq::<Seq<char>>::empty());
        assert(text::strs(v@) =~= a + b + c + (d + team_lines(ms.take(0), us, o)));
    }
    let mut i: usize = 0;
    while i < t.teams.len()
        invariant
            i <= t.teams@.len(),
            ms == t@.teams,
            us == t@.users,
            o == text::opt(*only),
            ms.len() == t.teams@.len(),
            text::strs(v@) == a + b + c + (d + team_lines(ms.take(i as int), us, o)),
        decreases t.teams@.len() - i,
    {
        let m: &config::Team = &t.teams[i];
        let ghost before = team_lines(ms.take(i as int), us, o);
        proof {
            assert(ms.take(i + 1).drop_last() =~= ms.take(i as int));
            assert(ms[i as int] == m@);
        }
        if is_asked(only, m.name.as_str()) {
            let names = members(t, m.team_id);
            let n = text::dec_string(names.len() as u64);
            let all = text::join_strings(&names, ", ");
            let s = text::cat5("  ", m.name.as_str(), " (", n.as_str(), "): ");
            let s = text::cat2(s.as_str(), all.as_str());
            let ghost line = s@;
            push_line(&mut v, s);
            proof {
                assert(line == team_text(m@, us));
                assert((a + b + c + (d + before)).push(line) =~= a + b + c + (d + before.push(
                    line,
                )));
            }
        }
        i = i + 1;
    }
    assert(ms.take(i as int) =~= ms);
    v
}

/// Whether a team of that name has the id.
pub open spec fn names_team(ms: Seq<TeamModel>, name: Seq<char>, id: i64) -> bool {
    exists|k: int| 0 <= k < ms.len() && (#[trigger] ms[k]).name == name && ms[k].team_id == id
}

/// The users that are listed, by place: all, or those of the team that is asked for.
pub open spec fn listed_of(ms: Seq<TeamModel>, us: Seq<UserModel>, only: Option<Seq<char>>) -> Seq<
    int,
>
    decreases us.len(),
{
    if us.len() == 0 {
        Seq::empty()
    } else {
        let r = listed_of(ms, us.drop_last(), only);
        if only is None || names_team(ms, only->0, us.last().team_id) {
            r.push(us.len() - 1)
        } else {
            r
        }
    }
}

fn team_has(t: &Target, name: &str, id: i64) -> (r: bool)
    ensures
        r == names_team(t@.teams, name@, id),
{
    let ghost ms = t@.teams;
    let mut i: usize = 0;
    while i < t.teams.len()
        invariant
            i <= t.teams@.len(),
            ms == t@.teams,
            ms.len() == t.teams@.len(),
            forall|k: int| 0 <= k < i ==> (#[trigger] ms[k]).name != name@ || ms[k].team_id != id,
        decreases t.teams@.len() - i,
    {
        let m: &config::Team = &t.teams[i];
        assert(ms[i as int] == m@);
        if m.team_id == id && text::str_eq(m.name.as_str(), name) {
            return true;
        }
        i = i + 1;
    }
    false
}

/// The users that are listed, by place.
pub fn listed_users(t: &Target, only: &Option<String>) -> (r: Vec<usize>)
    ensures
        r@.map_values(|i: usize| i as int) == listed_of(t@.teams, t@.users, text::opt(*only)),
        forall|k: int| 0 <= k < r@.len() ==> #[trigger] r@[k] < t.users@.len(),
{
    let ghost o = text::opt(*only);
    let ghost ms = t@.teams;
    let ghost us = t@.users;
    let ghost f = |i: usize| i as int;
    let mut v: Vec<usize> = Vec::new();
    assert(v@.map_values(f) =~= listed_of(ms, us.take(0), o));
    let mut i: usize = 0;
    while i < t.users.len()
        invariant
            i <= t.users@.len(),
            ms == t@.teams,
            us == t@.users,
            us.len() == t.users@.len(),
            o == text::opt(*only),
            f == (|i: usize| i as int),
            v@.map_values(f) == listed_of(ms, us.take(i as int), o),
            forall|k: int| 0 <= k < v@.len() ==> #[trigger] v@[k] < i,
        decreases t.users@.len() - i,
    {
        let ghost before = v@;
        proof {
            assert(us.take(i + 1).drop_last() =~= us.take(i as int));
            assert(us[i as int] == t.users@[i as int]@);
        }
        let take = match only {
            Some(name) => team_has(t, name.as_str(), t.users[i].team_id),
            None => true,
        };
        if take {
            v.push(i);
            assert(v@.map_values(f) =~= before.map_values(f).push(i as int));
        }
        i = i + 1;
    }
    assert(us.take(i as int) =~= us);
    v
}

// ---------------------------------------------------------------------------
// What a report holds of a user
// ---------------------------------------------------------------------------

/// A row of a user's permission issues.
pub open spec fn issue_cells(kind: Seq<char>, error: Seq<char>, path: Seq<char>) -> Seq<char> {
    "  "@ + at_left(kind, 10) + "  "@ + at_left(error, 22) + "  "@ + path
}

fn issue_line(kind: &str, error: &str, path: &str) -> (r: String)
    ensures
        r@ == issue_cells(kind@, error@, path@),
{
    let mut s = "  ".to_owned();
    s.append(left(kind, 10).as_str());
    s.append("  ");
    s.append(left(error, 22).as_str());
    s.append("  ");
    s.append(path);
    s
}

/// The head of a user's permission issues, of which there are `total`.
pub open spec fn issues_head(
    user: Seq<char>,
    target: Seq<char>,
    total: int,
    search: Option<Seq<char>>,
) -> Seq<Seq<char>> {
    seq![
        Seq::<char>::empty(),
        "=== permission issues: "@ + user + " on "@ + target + " ==="@,
        "  Total: "@ + text::dec_int(total),
    ] + (match search {
        Some(kw) => seq!["  Search: '"@ + kw + "'"@],
        None => Seq::empty(),
    }) + seq![
        issue_cells("Type"@, "Error"@, "Path"@),
        "  "@ + listing::rule('\u{2500}', 72),
    ]
}

/// What is printed of a user's permission issues.
pub open spec fn issue_table(
    user: Seq<char>,
    target: Seq<char>,
    total: int,
    search: Option<Seq<char>>,
    rows: Seq<PermIssue>,
) -> Seq<Seq<char>> {
    issues_head(user, target, total, search) + Seq::new(
        rows.len(),
        |i: int| issue_cells(rows[i].item_type@, rows[i].error@, rows[i].path@),
    )
}

/// What is printed of a user's permission issues.
pub fn issue_lines(
    user: &str,
    target: &str,
    total: i64,
    search: &Option<String>,
    rows: &Vec<PermIssue>,
) -> (r: Vec<String>)
    ensures
        text::strs(r@) == issue_table(user@, target@, total as int, text::opt(*search), rows@),
{
    let ghost f = |i: int| issue_cells(rows@[i].item_type@, rows@[i].error@, rows@[i].path@);
    let ghost head = issues_head(user@, target@, total as int, text::opt(*search));
    let mut v: Vec<String> = Vec::new();
    assert(text::strs(v@) =~= Seq::<Seq<char>>::empty());
    let blank = String::new();
    assert(blank@ =~= Seq::<char>::empty());
    push_line(&mut v, blank);
    push_line(&mut v, text::cat5("=== permission issues: ", user, " on ", target, " ==="));
    let n = text::dec_int_string(total);
    push_line(&mut v, text::cat2("  Total: ", n.as_str()));
    match search {
        Some(kw) => push_line(&mut v, text::cat3("  Search: '", kw.as_str(), "'")),
        None => {},
    }
    push_line(&mut v, issue_line("Type", "Error", "Path"));
    let bar = rule_line('\u{2500}', 72);
    push_line(&mut v, text::cat2("  ", bar.as_str()));
    assert(text::strs(v@) =~= head + Seq::new(0, f));
    let mut i: usize = 0;
    while i < rows.len()
        invariant
            i <= rows@.len(),
            f == (|i: int| issue_cells(rows@[i].item_type@, rows@[i].error@, rows@[i].path@)),
            text::strs(v@) == head + Seq::new(i as nat, f),
        decreases rows@.len() - i,
    {
        let p: &PermIssue = &rows[i];
        let ghost before = text::strs(v@);
        push_line(&mut v, issue_line(p.item_type.as_str(), p.error.as_str(), p.path.as_str()));
        assert(before.push(f(i as int)) =~= head + Seq::new((i + 1) as nat, f));
        i = i + 1;
    }
    v
}

/// A row of a user's directories by their files.
pub open spec fn inode_cells(files: Seq<char>, size: Seq<char>, path: Seq<char>) -> Seq<char> {
    "  "@ + at_right(files, 10) + "  "@ + at_right(size, 10) + "  "@ + path
}

fn inode_line(files: &str, size: &str, path: &str) -> (r: String)
    ensures
        r@ == inode_cells(files@, size@, path@),
{
    let mut s = "  ".to_owned();
    s.append(right(files, 10).as_str());
    s.append("  ");
    s.append(right(size, 10).as_str());
    s.append("  ");
    s.append(path);
    s
}

/// The head of a user's directories by their files.
pub open spec fn inodes_head(user: Seq<char>, target: Seq<char>, files: int, dirs: int) -> Seq<
    Seq<char>,
> {
    seq![
        Seq::<char>::empty(),
        "=== inode report: "@ + user + " on "@ + target + " ==="@,
        "  Total files: "@ + text::dec_int(files) + "   Total dirs: "@ + text::dec_int(dirs),
        inode_cells("Files"@, "Size"@, "Directory"@),
        "  "@ + listing::rule('\u{2500}', 72),
    ]
}

/// What is printed of a user's directories by their files.
pub open spec fn inode_table(
    user: Seq<char>,
    target: Seq<char>,
    files: int,
    dirs: int,
    rows: Seq<InodeDir>,
) -> Seq<Seq<char>> {
    inodes_head(user, target, files, dirs) + Seq::new(
        rows.len(),
        |i: int|
            inode_cells(
                text::dec_int(rows[i].files as int),
                display::size_text(rows[i].size as int),
                rows[i].path@,
            ),
    )
}

/// What is printed of a user's directories by their files.
pub fn inode_lines(user: &str, target: &str, files: i64, dirs: i64, rows: &Vec<InodeDir>) -> (r:
    Vec<String>)
    ensures
        text::strs(r@) == inode_table(user@, target@, files as int, dirs as int, rows@),
{
    let ghost f = |i: int|
        inode_cells(
            text::dec_int(rows@[i].files as int),
            display::size_text(rows@[i].size as int),
            rows@[i].path@,
        );
    let ghost head = inodes_head(user@, target@, files as int, dirs as int);
    let mut v: Vec<String> = Vec::new();
    assert(text::strs(v@) =~= Seq::<Seq<char>>::empty());
    let blank = String::new();
    assert(blank@ =~= Seq::<char>::empty());
    push_line(&mut v, blank);
    push_line(&mut v, text::cat5("=== inode report: ", user, " on ", target, " ==="));
    let n = text::dec_int_string(files);
    let m = text::dec_int_string(dirs);
    push_line(&mut v, text::cat4("  Total files: ", n.as_str(), "   Total dirs: ", m.as_str()));
    push_line(&mut v, inode_line("Files", "Size", "Directory"));
    let bar = rule_line('\u{2500}', 72);
    push_line(&mut v, text::cat2("  ", bar.as_str()));
    assert(text::strs(v@) =~= head + Seq::new(0, f));
    let mut i: usize = 0;
    while i < rows.len()
        invariant
            i <= rows@.len(),
            f == (|i: int|
                inode_cells(
                    text::dec_int(rows@[i].files as int),
                    display::size_text(rows@[i].size as int),
                    rows@[i].path@,
                )),
            text::strs(v@) == head + Seq::new(i as nat, f),
        decreases rows@.len() - i,
    {
        let d: &InodeDir = &rows[i];
        let n = text::dec_int_string(d.files);
        let size = display::fmt_size(d.size);
        let ghost before = text::strs(v@);
        push_line(&mut v, inode_line(n.as_str(), size.as_str(), d.path.as_str()));
        assert(before.push(f(i as int)) =~= head + Seq::new((i + 1) as nat, f));
        i = i + 1;
    }
    v
}

/// The rows of a user's largest directories or files.
pub open spec fn top_lines(rows: Seq<(i64, String)>) -> Seq<Seq<char>> {
    Seq::new(
        rows.len(),
        |i: int|
            "    "@ + at_right(display::size_text(rows[i].0 as int), 10) + "  "@ + rows[i].1@,
    )
}

fn push_top(v: &mut Vec<String>, rows: &Vec<(i64, String)>)
    ensures
        text::strs(final(v)@) == text::strs(old(v)@) + top_lines(rows@),
{
    let ghost f = |i: int|
        "    "@ + at_right(display::size_text(rows@[i].0 as int), 10) + "  "@ + rows@[i].1@;
    let ghost start = text::strs(v@);
    assert(start =~= start + Seq::new(0, f));
    let mut i: usize = 0;
    while i < rows.len()
        invariant
            i <= rows@.len(),
            f == (|i: int|
                "    "@ + at_right(display::size_text(rows@[i].0 as int), 10) + "  "@ + rows@[i].1@),
            text::strs(v@) == start + Seq::new(i as nat, f),
        decreases rows@.len() - i,
    {
        let size = display::fmt_size(rows[i].0);
        let cell = right(size.as_str(), 10);
        let ghost before = text::strs(v@);
        push_line(v, text::cat4("    ", cell.as_str(), "  ", rows[i].1.as_str()));
        assert(before.push(f(i as int)) =~= start + Seq::new((i + 1) as nat, f));
        i = i + 1;
    }
    assert(Seq::new(i as nat, f) =~= top_lines(rows@));
}

/// What is printed of a user's usage.
pub open spec fn usage_lines_of(target: Seq<char>, d: UserDetail) -> Seq<Seq<char>> {
    seq![
        Seq::<char>::empty(),
        "=== root on "@ + target + " ==="@,
        "  Files: "@ + text::dec_int(d.total_files as int) + "  Dirs: "@ + text::dec_int(
            d.total_dirs as int,
        ) + "  Size: "@ + display::size_text(d.total_size as int),
        Seq::<char>::empty(),
        "  "@ + listing::rule('\u{2500}', 40) + "  Top Directories"@,
    ] + top_lines(d.top_dirs@) + seq![
        Seq::<char>::empty(),
        "  "@ + listing::rule('\u{2500}', 40) + "  Top Files"@,
    ] + top_lines(d.top_files@)
}

/// What is printed of a user's usage.
pub fn usage_lines(target: &str, d: &UserDetail) -> (r: Vec<String>)
    ensures
        text::strs(r@) == usage_lines_of(target@, *d),
{
    let mut v: Vec<String> = Vec::new();
    assert(text::strs(v@) =~= Seq::<Seq<char>>::empty());
    let blank = String::new();
    assert(blank@ =~= Seq::<char>::empty());
    push_line(&mut v, blank);
    push_line(&mut v, text::cat3("=== root on ", target, " ==="));
    let files = text::dec_int_string(d.total_files);
    let dirs = text::dec_int_string(d.total_dirs);
    let size = display::fmt_size(d.total_size);
    let s = text::cat5("  Files: ", files.as_str(), "  Dirs: ", dirs.as_str(), "  Size: ");
    push_line(&mut v, text::cat2(s.as_str(), size.as_str()));
    let blank = String::new();
    assert(blank@ =~= Seq::<char>::empty());
    push_line(&mut v, blank);
    let bar = rule_line('\u{2500}', 40);
    push_line(&mut v, text::cat3("  ", bar.as_str(), "  Top Directories"));
    let ghost a = text::strs(v@);
    assert(a =~= seq![
        Seq::<char>::empty(),
        "=== root on "@ + target@ + " ==="@,
        "  Files: "@ + text::dec_int(d.total_files as int) + "  Dirs: "@ + text::dec_int(
            d.total_dirs as int,
        ) + "  Size: "@ + display::size_text(d.total_size as int),
        Seq::<char>::empty(),
        "  "@ + listing::rule('\u{2500}', 40) + "  Top Directories"@,
    ]);
    push_top(&mut v, &d.top_dirs);
    let ghost b = text::strs(v@);
    let blank = String::new();
    assert(blank@ =~= Seq::<char>::empty());
    push_line(&mut v, blank);
    push_line(&mut v, text::cat3("  ", bar.as_str(), "  Top Files"));
    assert(text::strs(v@) =~= b + seq![
        Seq::<char>::empty(),
        "  "@ + listing::rule('\u{2500}', 40) + "  Top Files"@,
    ]);
    push_top(&mut v, &d.top_files);
    v
}

// ---------------------------------------------------------------------------
// History
// ---------------------------------------------------------------------------

/// The line of a snapshot, of which `percent` is used.
pub open spec fn snapshot_text(s: HistorySnapshot, percent: Seq<char>) -> Seq<char> {
    "  "@ + display::date_text(s.scan_date as int) + "  used "@ + display::size_text(s.used as int)
        + " / "@ + display::size_text(s.total as int) + " ("@ + percent + "%)  free "@
        + display::size_text(s.available as int)
}

/// The lines of a snapshot and its five largest users.
pub open spec fn snapshot_table(s: HistorySnapshot, percent: Seq<char>) -> Seq<Seq<char>> {
    seq![snapshot_text(s, percent)] + Seq::new(
        if s.top_users@.len() < 5 {
            s.top_users@.len()
        } else {
            5
        },
        |i: int|
            "      "@ + at_left(s.top_users@[i].0@, 16) + " "@ + display::size_text(
                s.top_users@[i].1 as int,
            ),
    )
}

/// The lines of a snapshot and its five largest users.
pub fn snapshot_lines(s: &HistorySnapshot, percent: &str) -> (r: Vec<String>)
    ensures
        text::strs(r@) == snapshot_table(*s, percent@),
{
    let ghost f = |i: int|
        "      "@ + at_left(s.top_users@[i].0@, 16) + " "@ + display::size_text(
            s.top_users@[i].1 as int,
        );
    let mut v: Vec<String> = Vec::new();
    assert(text::strs(v@) =~= Seq::<Seq<char>>::empty());
    let mut head = "  ".to_owned();
    head.append(display::fmt_date(s.scan_date).as_str());
    head.append("  used ");
    head.append(display::fmt_size(s.used).as_str());
    head.append(" / ");
    head.append(display::fmt_size(s.total).as_str());
    head.append(" (");
    head.append(percent);
    head.append("%)  free ");
    head.append(display::fmt_size(s.available).as_str());
    push_line(&mut v, head);
    let ghost first = seq![snapshot_text(*s, percent@)];
    assert(text::strs(v@) =~= first + Seq::new(0, f));
    let n: usize = if s.top_users.len() < 5 {
        s.top_users.len()
    } else {
        5
    };
    let mut i: usize = 0;
    while i < n
        invariant
            i <= n,
            n <= s.top_users@.len(),
            f == (|i: int|
                "      "@ + at_left(s.top_users@[i].0@, 16) + " "@ + display::size_text(
                    s.top_users@[i].1 as int,
                )),
            text::strs(v@) == first + Seq::new(i as nat, f),
        decreases n - i,
    {
        let name = left(s.top_users[i].0.as_str(), 16);
        let size = display::fmt_size(s.top_users[i].1);
        let ghost before = text::strs(v@);
        push_line(&mut v, text::cat4("      ", name.as_str(), " ", size.as_str()));
        assert(before.push(f(i as int)) =~= first + Seq::new((i + 1) as nat, f));
        i = i + 1;
    }
    v
}

/// A row of the comparison: a name in a column of `width`, a cell for each day, and
/// the growth.
pub open spec fn growth_cells(
    name: Seq<char>,
    width: nat,
    days: Seq<Seq<char>>,
    abs: Seq<char>,
    percent: Seq<char>,
    trend: Seq<char>,
) -> Seq<char> {
    "  "@ + at_left(name, width) + day_cells(days) + "  "@ + at_right(abs, 10) + "  "@ + at_right(
        percent,
        7,
    ) + "  "@ + trend
}

/// The cells of the days.
pub open spec fn day_cells(days: Seq<Seq<char>>) -> Seq<char>
    decreases days.len(),
{
    if days.len() == 0 {
        Seq::empty()
    } else {
        day_cells(days.drop_last()) + "  "@ + at_right(days.last(), 10)
    }
}

fn growth_line(
    name: &str,
    width: usize,
    days: &Vec<String>,
    abs: &str,
    percent: &str,
    trend: &str,
) -> (r: String)
    ensures
        r@ == growth_cells(name@, width as nat, text::strs(days@), abs@, percent@, trend@),
{
    let ghost ds = text::strs(days@);
    let mut cells = String::new();
    assert(cells@ =~= day_cells(ds.take(0)));
    let mut i: usize = 0;
    while i < days.len()
        invariant
            i <= days@.len(),
            ds == text::strs(days@),
            cells@ == day_cells(ds.take(i as int)),
        decreases days@.len() - i,
    {
        proof {
            assert(ds.take(i + 1).drop_last() =~= ds.take(i as int));
            assert(ds[i as int] == days@[i as int]@);
        }
        cells.append("  ");
        cells.append(right(days[i].as_str(), 10).as_str());
        i = i + 1;
    }
    assert(ds.take(i as int) =~= ds);
    let mut s = "  ".to_owned();
    s.append(left(name, width).as_str());
    s.append(cells.as_str());
    s.append("  ");
    s.append(right(abs, 10).as_str());
    s.append("  ");
    s.append(right(percent, 7).as_str());
    s.append("  ");
    s.append(trend);
    s
}

/// The head of the comparison of the days `dates`.
pub fn growth_head(width: usize, dates: &Vec<i64>) -> (r: String)
    ensures
        r@ == growth_cells(
            "User"@,
            width as nat,
            dates@.map_values(|d: i64| display::short_date_text(d as int)),
            "Abs"@,
            "%"@,
            "Trend"@,
        ),
{
    let ghost f = |d: i64| display::short_date_text(d as int);
    let mut days: Vec<String> = Vec::new();
    assert(text::strs(days@) =~= dates@.take(0).map_values(f));
    let mut i: usize = 0;
    while i < dates.len()
        invariant
            i <= dates@.len(),
            f == (|d: i64| display::short_date_text(d as int)),
            text::strs(days@) == dates@.take(i as int).map_values(f),
        decreases dates@.len() - i,
    {
        let ghost before = text::strs(days@);
        push_line(&mut days, display::fmt_date_short(dates[i]));
        assert(before.push(f(dates@[i as int])) =~= dates@.take(i + 1).map_values(f));
        i = i + 1;
    }
    assert(dates@.take(i as int) =~= dates@);
    growth_line("User", width, &days, "Abs", "%", "Trend")
}

/// The row of a user in the comparison.
pub open spec fn growth_text(row: GrowthRow, width: nat, percent: Seq<char>) -> Seq<char> {
    growth_cells(
        row.name@,
        width,
        row.values@.map_values(|v: i64| display::size_text(v as int)),
        display::size_text(row.growth.abs as int),
        percent,
        row.growth.trend@,
    )
}

/// The row of a user in the comparison.
pub fn growth_row(row: &GrowthRow, width: usize, percent: &str) -> (r: String)
    ensures
        r@ == growth_text(*row, width as nat, percent@),
{
    let ghost f = |v: i64| display::size_text(v as int);
    let mut days: Vec<String> = Vec::new();
    assert(text::strs(days@) =~= row.values@.take(0).map_values(f));
    let mut i: usize = 0;
    while i < row.values.len()
        invariant
            i <= row.values@.len(),
            f == (|v: i64| display::size_text(v as int)),
            text::strs(days@) == row.values@.take(i as int).map_values(f),
        decreases row.values@.len() - i,
    {
        let ghost before = text::strs(days@);
        push_line(&mut days, display::fmt_size(row.values[i]));
        assert(before.push(f(row.values@[i as int])) =~= row.values@.take(i + 1).map_values(f));
        i = i + 1;
    }
    assert(row.values@.take(i as int) =~= row.values@);
    let abs = display::fmt_size(row.growth.abs);
    growth_line(row.name.as_str(), width, &days, abs.as_str(), percent, row.growth.trend)
}

// ---------------------------------------------------------------------------
// Exports
// ---------------------------------------------------------------------------

/// What is told of a user who is exported: the two files with their rows.
pub open spec fn exported_of(user: Seq<char>, safe: Seq<char>, dirs: nat, files: nat) -> Seq<
    Seq<char>,
> {
    seq![
        "Exporting '"@ + user + "'..."@,
        "  usage_dir_"@ + safe + ".txt   \u{2014} "@ + text::dec(dirs) + " dirs"@,
        "  usage_file_"@ + safe + ".txt  \u{2014} "@ + text::dec(files) + " files"@,
    ]
}

/// What is told of a user who is exported, with `dirs` and `files` rows.
pub fn exported_lines(user: &str, dirs: u64, files: u64) -> (r: Vec<String>)
    ensures
        text::strs(r@) == exported_of(
            user@,
            user@.map_values(|c: char| listing::export_char(c)),
            dirs as nat,
            files as nat,
        ),
{
    let safe = listing::export_user_name(user);
    let d = text::dec_string(dirs);
    let f = text::dec_string(files);
    let mut v: Vec<String> = Vec::new();
    assert(text::strs(v@) =~= Seq::<Seq<char>>::empty());
    push_line(&mut v, text::cat3("Exporting '", user, "'..."));
    push_line(
        &mut v,
        text::cat5("  usage_dir_", safe.as_str(), ".txt   \u{2014} ", d.as_str(), " dirs"),
    );
    push_line(
        &mut v,
        text::cat5("  usage_file_", safe.as_str(), ".txt  \u{2014} ", f.as_str(), " files"),
    );
    assert(text::strs(v@) =~= exported_of(user@, safe@, dirs as nat, files as nat));
    v
}

/// What is told when an export is over.
pub fn export_line(users: u64, tenths: u64) -> (r: String)
    ensures
        r@ == "Exported "@ + text::dec(users as nat) + " user(s) in "@ + display::seconds_text(
            tenths as nat,
        ),
{
    let n = text::dec_string(users);
    let t = display::fmt_seconds(tenths);
    text::cat4("Exported ", n.as_str(), " user(s) in ", t.as_str())
}

// ---------------------------------------------------------------------------
// Laws
// ---------------------------------------------------------------------------

/// The row of a target holds, in columns of 18, 10, 12, 10, 10 and 8 with a blank between
/// them, its name, its stage, the files and directories with their thousands apart, the
/// size and the seconds, and at the end what there is to note.
pub proof fn law_status_rows(name: Seq<char>, s: TargetStatus, now: i64, updated_at: i64)
    requires
        name.len() <= 18,
        s.size_bytes <= i64::MAX,
    ensures
        status_text(name, s, now, updated_at) == text::pad_right(name, 18) + seq![' ']
            + text::pad_right(s.stage@, 10) + seq![' '] + text::pad_left(
            text::group3(text::dec(s.files as nat)),
            12,
            ' ',
        ) + seq![' '] + text::pad_left(text::group3(text::dec(s.dirs as nat)), 10, ' ') + seq![' ']
            + text::pad_left(display::size_text(s.size_bytes as int), 10, ' ') + seq![' ']
            + text::pad_left(text::dec_int(s.total_elapsed_sec as int) + seq!['s'], 8, ' ') + seq![
            ' ',
            ' ',
        ] + cli::note_text(s.error@, s.running, cli::clamped_sub(now, updated_at)),
{
    reveal_strlit(" ");
    reveal_strlit("  ");
    reveal_strlit("s");
    assert(" "@ =~= seq![' ']);
    assert("  "@ =~= seq![' ', ' ']);
    assert("s"@ =~= seq!['s']);
}

/// Every target has a row of its own in the table of targets, in the order of the
/// targets, with the number of its teams and of its users.
pub proof fn law_target_table(ts: Seq<TargetModel>, i: int)
    requires
        0 <= i < ts.len(),
    ensures
        target_table_of(ts).len() == 2 + ts.len(),
        target_table_of(ts)[2 + i] == text::pad_right(ts[i].name, 20) + seq![' ']
            + text::pad_right(ts[i].path, 40) + seq![' '] + text::pad_right(
            text::dec(ts[i].teams.len()),
            6,
        ) + seq![' '] + text::pad_right(text::dec(ts[i].users.len()), 6),
{
    reveal_strlit(" ");
    assert(" "@ =~= seq![' ']);
}

/// The names of a team's users are those of the users with its id, and no others.
pub proof fn law_members_of_a_team(us: Seq<UserModel>, id: i64, name: Seq<char>)
    ensures
        members_of(us, id).contains(name) <==> exists|k: int|
            0 <= k < us.len() && (#[trigger] us[k]).name == name && us[k].team_id == id,
        members_of(us, id).len() <= us.len(),
    decreases us.len(),
{
    if us.len() > 0 {
        let head = us.drop_last();
        law_members_of_a_team(head, id, name);
        let before = members_of(head, id);
        let now = members_of(us, id);
        if before.contains(name) {
            let i = choose|i: int| 0 <= i < before.len() && before[i] == name;
            assert(now[i] == name);
        }
        if now.contains(name) {
            let i = choose|i: int| 0 <= i < now.len() && now[i] == name;
            if i < before.len() {
                assert(before[i] == name);
                let k = choose|k: int|
                    0 <= k < head.len() && (#[trigger] head[k]).name == name && head[k].team_id
                        == id;
                assert(us[k] == head[k]);
            } else {
                assert(us[us.len() - 1].name == name);
            }
        }
        if exists|k: int|
            0 <= k < us.len() && (#[trigger] us[k]).name == name && us[k].team_id == id {
            let k = choose|k: int|
                0 <= k < us.len() && (#[trigger] us[k]).name == name && us[k].team_id == id;
            if k < head.len() {
                assert(head[k] == us[k]);
            } else {
                assert(now[before.len() as int] == name);
            }
        }
    }
}

/// The users that are listed are all of them, or those on a team of the name that is
/// asked for; each once and in their order.
pub proof fn law_listed_users(
    ms: Seq<TeamModel>,
    us: Seq<UserModel>,
    only: Option<Seq<char>>,
    i: int,
)
    ensures
        listed_of(ms, us, only).contains(i) <==> 0 <= i < us.len() && (only is None || exists|
            k: int,
        |
            0 <= k < ms.len() && (#[trigger] ms[k]).name == only->0 && ms[k].team_id
                == us[i].team_id),
        forall|a: int, b: int|
            0 <= a < b < listed_of(ms, us, only).len() ==> (#[trigger] listed_of(
                ms,
                us,
                only,
            )[a]) < (#[trigger] listed_of(ms, us, only)[b]),
        forall|a: int|
            0 <= a < listed_of(ms, us, only).len() ==> 0 <= (#[trigger] listed_of(
                ms,
                us,
                only,
            )[a]) < us.len(),
    decreases us.len(),
{
    if us.len() > 0 {
        let head = us.drop_last();
        law_listed_users(ms, head, only, i);
        let before = listed_of(ms, head, only);
        let now = listed_of(ms, us, only);
        if 0 <= i < head.len() {
            assert(head[i] == us[i]);
        }
        if before.contains(i) {
            let a = choose|a: int| 0 <= a < before.len() && before[a] == i;
            assert(now[a] == i);
        }
        if now.contains(i) {
            let a = choose|a: int| 0 <= a < now.len() && now[a] == i;
            if a < before.len() {
                assert(before[a] == i);
            }
        }
        if i == us.len() - 1 && (only is None || names_team(ms, only->0, us[i].team_id)) {
            assert(now[before.len() as int] == i);
        }
        assert forall|a: int, b: int| 0 <= a < b < now.len() implies (#[trigger] now[a]) < (
        #[trigger] now[b]) by {
            assert(now[a] == before[a]);
            if b < before.len() {
                assert(now[b] == before[b]);
            }
        }
    }
}

/// What is printed of a user's issues ends with a line for each of them, in their order,
/// that tells its kind, its error and its path.
pub proof fn law_issue_table(
    user: Seq<char>,
    target: Seq<char>,
    total: int,
    search: Option<Seq<char>>,
    rows: Seq<PermIssue>,
    i: int,
)
    requires
        0 <= i < rows.len(),
    ensures
        ({
            let t = issue_table(user, target, total, search, rows);
            let head = if search is Some {
                6int
            } else {
                5
            };
            &&& t.len() == head + rows.len()
            &&& t[2] == "  Total: "@ + text::dec_int(total)
            &&& t[head + i] == seq![' ', ' '] + text::pad_right(rows[i].item_type@, 10) + seq![
                ' ',
                ' ',
            ] + text::pad_right(rows[i].error@, 22) + seq![' ', ' '] + rows[i].path@
        }),
{
    reveal_strlit("  ");
    assert("  "@ =~= seq![' ', ' ']);
}

/// What is printed of a user's directories ends with a line for each of them, in their
/// order, that tells the number of its files, their size and where it lies.
pub proof fn law_inode_table(
    user: Seq<char>,
    target: Seq<char>,
    files: int,
    dirs: int,
    rows: Seq<InodeDir>,
    i: int,
)
    requires
        0 <= i < rows.len(),
    ensures
        ({
            let t = inode_table(user, target, files, dirs, rows);
            &&& t.len() == 5 + rows.len()
            &&& t[2] == "  Total files: "@ + text::dec_int(files) + "   Total dirs: "@
                + text::dec_int(dirs)
            &&& t[5 + i] == seq![' ', ' '] + text::pad_left(
                text::dec_int(rows[i].files as int),
                10,
                ' ',
            ) + seq![' ', ' '] + text::pad_left(
                display::size_text(rows[i].size as int),
                10,
                ' ',
            ) + seq![' ', ' '] + rows[i].path@
        }),
{
    reveal_strlit("  ");
    assert("  "@ =~= seq![' ', ' ']);
}

/// What is printed of a user's usage: the totals, then the largest directories and then
/// the largest files, each with its own size and in its order.
pub proof fn law_usage_lines(target: Seq<char>, d: UserDetail, i: int, j: int)
    requires
        0 <= i < d.top_dirs@.len(),
        0 <= j < d.top_files@.len(),
    ensures
        ({
            let t = usage_lines_of(target, d);
            let n = d.top_dirs@.len();
            &&& t.len() == 7 + n + d.top_files@.len()
            &&& t[2] == "  Files: "@ + text::dec_int(d.total_files as int) + "  Dirs: "@
                + text::dec_int(d.total_dirs as int) + "  Size: "@ + display::size_text(
                d.total_size as int,
            )
            &&& t[5 + i] == "    "@ + text::pad_left(
                display::size_text(d.top_dirs@[i].0 as int),
                10,
                ' ',
            ) + "  "@ + d.top_dirs@[i].1@
            &&& t[7 + n + j] == "    "@ + text::pad_left(
                display::size_text(d.top_files@[j].0 as int),
                10,
                ' ',
            ) + "  "@ + d.top_files@[j].1@
        }),
{
    let a = top_lines(d.top_dirs@);
    let b = top_lines(d.top_files@);
    let t = usage_lines_of(target, d);
    assert(t[5 + i] == a[i]);
    assert(t[7 + a.len() + j] == b[j]);
}

/// A snapshot is told with its day and what is used, there in all and free, and then its
/// largest users, five at most, each with its own size.
pub proof fn law_snapshot_table(s: HistorySnapshot, percent: Seq<char>, i: int)
    ensures
        snapshot_table(s, percent).len() == 1 + (if s.top_users@.len() <= 5 {
            s.top_users@.len()
        } else {
            5
        }),
        snapshot_table(s, percent)[0] == "  "@ + display::date_text(s.scan_date as int)
            + "  used "@ + display::size_text(s.used as int) + " / "@ + display::size_text(
            s.total as int,
        ) + " ("@ + percent + "%)  free "@ + display::size_text(s.available as int),
        0 <= i < 5 && i < s.top_users@.len() ==> snapshot_table(s, percent)[1 + i] == "      "@
            + text::pad_right(s.top_users@[i].0@, 16) + " "@ + display::size_text(
            s.top_users@[i].1 as int,
        ),
{
}

/// A row of the comparison holds the user's name, the size of each day in the order of
/// the days, and at the end what the user grew by and in which direction.
pub proof fn law_growth_rows(row: GrowthRow, width: nat, percent: Seq<char>)
    ensures
        ({
            let cells = row.values@.map_values(|v: i64| display::size_text(v as int));
            growth_text(row, width, percent) == "  "@ + text::pad_right(row.name@, width)
                + day_cells(cells) + "  "@ + text::pad_left(
                display::size_text(row.growth.abs as int),
                10,
                ' ',
            ) + "  "@ + text::pad_left(percent, 7, ' ') + "  "@ + row.growth.trend@
        }),
{
}

/// The cell of a day stands behind those of the days before it: two blanks and the text
/// at the right of ten columns.
pub proof fn law_cells_of_days(days: Seq<Seq<char>>, k: int)
    requires
        0 <= k < days.len(),
    ensures
        day_cells(days.take(k + 1)) == day_cells(days.take(k)) + "  "@ + text::pad_left(
            days[k],
            10,
            ' ',
        ),
{
    assert(days.take(k + 1).drop_last() =~= days.take(k));
    assert(days.take(k + 1).last() == days[k]);
}

} // verus!
