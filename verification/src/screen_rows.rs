//! The rows and titles that the configuration screen shows.

use crate::config::Config;
use crate::config::SettingsModel;
use crate::config::Target;
use crate::config::TargetModel;
use crate::screen::App;
use crate::screen::ScreenModel;
use crate::screen;
use crate::text;
use crate::tui;
use crate::tui_nav::SettingField;
use crate::tui_nav;
use vstd::prelude::*;

verus! {

/// A text, or another where it is empty.
pub open spec fn or_else(s: Seq<char>, other: Seq<char>) -> Seq<char> {
    if s.len() == 0 {
        other
    } else {
        s
    }
}

fn text_or(s: &str, other: &str) -> (r: String)
    ensures
        r@ == or_else(s@, other@),
{
    if s.is_empty() {
        other.to_string()
    } else {
        s.to_string()
    }
}

/// A text that may be unset, or another.
pub open spec fn unset_as(s: Option<Seq<char>>, other: Seq<char>) -> Seq<char> {
    match s {
        Some(t) => t,
        None => other,
    }
}

fn opt_or(s: &Option<String>, other: &str) -> (r: String)
    ensures
        r@ == unset_as(text::opt(*s), other@),
{
    match s {
        Some(t) => t.clone(),
        None => other.to_string(),
    }
}

/// A number that may be unset, or a text.
pub open spec fn number_or(n: Option<i64>, other: Seq<char>) -> Seq<char> {
    match n {
        Some(k) => text::dec_int(k as int),
        None => other,
    }
}

fn num_or(n: Option<i64>, other: &str) -> (r: String)
    ensures
        r@ == number_or(n, other@),
{
    match n {
        Some(k) => text::dec_int_string(k),
        None => other.to_string(),
    }
}

fn row(v: &mut Vec<String>, label: &str, value: &String)
    ensures
        text::strs(final(v)@) == text::strs(old(v)@).push(label@ + value@),
{
    let line = text::cat2(label, value.as_str());
    text::push_text(v, line.as_str());
}

/// What is said beside `lsf.enabled`: whether the command that submits jobs was
/// found.
pub open spec fn lsf_mark_of(found: bool) -> Seq<char> {
    if found {
        " [available]"@
    } else {
        " [not found]"@
    }
}

/// What is said beside `lsf.enabled`.
pub fn lsf_mark(found: bool) -> (r: &'static str)
    ensures
        r@ == lsf_mark_of(found),
{
    if found {
        " [available]"
    } else {
        " [not found]"
    }
}

/// The rows of the settings tab.
pub open spec fn setting_lines(s: SettingsModel, found: bool) -> Seq<Seq<char>> {
    seq![
        "output_dir           = "@ + s.output_dir,
        "workers              = "@ + s.workers,
        "max_parallel_devices = "@ + text::dec_int(s.max_parallel_devices as int),
        "nfs_parallel         = "@ + text::dec_int(s.nfs_parallel as int),
        "hdd_parallel         = "@ + text::dec_int(s.hdd_parallel as int),
        "ssd_parallel         = "@ + text::dec_int(s.ssd_parallel as int),
        "lsf.enabled          = "@ + (if s.lsf.enabled {
            "yes"@
        } else {
            "no"@
        }) + lsf_mark_of(found),
        "lsf.cmd              = "@ + s.lsf.cmd,
        "lsf.os               = "@ + or_else(s.lsf.os, "(none)"@),
        "lsf.mem_mb           = "@ + (if s.lsf.mem_mb <= 0 {
            "(omit)"@
        } else {
            text::dec_int(s.lsf.mem_mb as int)
        }),
        "lsf.queue            = "@ + or_else(s.lsf.queue, "(none)"@),
    ]
}

/// The rows of the settings tab, where `found` says whether the command that submits
/// jobs was found.
pub fn settings_rows(cfg: &Config, found: bool) -> (r: Vec<String>)
    ensures
        text::strs(r@) == setting_lines(cfg.settings(), found),
{
    let mut v: Vec<String> = Vec::new();
    assert(text::strs(v@) =~= Seq::<Seq<char>>::empty());
    row(&mut v, "output_dir           = ", &cfg.output_dir);
    row(&mut v, "workers              = ", &cfg.workers);
    row(&mut v, "max_parallel_devices = ", &text::dec_int_string(cfg.max_parallel_devices));
    row(&mut v, "nfs_parallel         = ", &text::dec_int_string(cfg.nfs_parallel));
    row(&mut v, "hdd_parallel         = ", &text::dec_int_string(cfg.hdd_parallel));
    row(&mut v, "ssd_parallel         = ", &text::dec_int_string(cfg.ssd_parallel));
    let enabled = tui::bool_str(&cfg.lsf.enabled);
    row(&mut v, "lsf.enabled          = ", &text::cat2(enabled.as_str(), lsf_mark(found)));
    row(&mut v, "lsf.cmd              = ", &cfg.lsf.cmd);
    row(&mut v, "lsf.os               = ", &text_or(cfg.lsf.os.as_str(), "(none)"));
    let mem = if cfg.lsf.mem_mb <= 0 {
        "(omit)".to_string()
    } else {
        text::dec_int_string(cfg.lsf.mem_mb)
    };
    row(&mut v, "lsf.mem_mb           = ", &mem);
    row(&mut v, "lsf.queue            = ", &text_or(cfg.lsf.queue.as_str(), "(none)"));
    let ghost want = setting_lines(cfg.settings(), found);
    assert("lsf.enabled          = "@ + (enabled@ + lsf_mark_of(found)) =~= "lsf.enabled          = "@
        + enabled@ + lsf_mark_of(found));
    assert(text::strs(v@) =~= want);
    v
}

/// The rows of the tab of a target's overrides.
pub open spec fn override_lines(t: TargetModel) -> Seq<Seq<char>> {
    let o = t.overrides;
    seq![
        "tree_map      = "@ + tui::switch_text(o.tree_map),
        "level         = "@ + number_or(o.level, "(default)"@),
        "workers       = "@ + number_or(o.workers, "(default)"@),
        "sync_host     = "@ + unset_as(o.sync_host, "(none)"@),
        "sync_dest_dir = "@ + unset_as(o.sync_dest_dir, "(none)"@),
        "sync_user     = "@ + unset_as(o.sync_user, "(none)"@),
        "export_dir    = "@ + unset_as(o.export_dir, "(exports)"@),
        "webhook_url   = "@ + unset_as(o.webhook_url, "(none)"@),
        "sync_pass     = "@ + tui::switch_text(o.sync_pass),
    ]
}

/// The rows of the tab of a target's overrides.
pub fn override_rows(t: &Target) -> (r: Vec<String>)
    ensures
        text::strs(r@) == override_lines(t@),
{
    let mut v: Vec<String> = Vec::new();
    assert(text::strs(v@) =~= Seq::<Seq<char>>::empty());
    row(&mut v, "tree_map      = ", &tui::opt_bool_str(t.tree_map));
    row(&mut v, "level         = ", &num_or(t.level, "(default)"));
    row(&mut v, "workers       = ", &num_or(t.workers, "(default)"));
    row(&mut v, "sync_host     = ", &opt_or(&t.sync_host, "(none)"));
    row(&mut v, "sync_dest_dir = ", &opt_or(&t.sync_dest_dir, "(none)"));
    row(&mut v, "sync_user     = ", &opt_or(&t.sync_user, "(none)"));
    row(&mut v, "export_dir    = ", &opt_or(&t.export_dir, "(exports)"));
    row(&mut v, "webhook_url   = ", &opt_or(&t.webhook_url, "(none)"));
    row(&mut v, "sync_pass     = ", &tui::opt_bool_str(t.sync_pass));
    assert(text::strs(v@) =~= override_lines(t@));
    v
}

/// The row of a target.
pub open spec fn target_line(t: TargetModel) -> Seq<char> {
    text::pad_right(t.name, 18) + " "@ + text::pad_right(t.path, 32) + " teams:"@ + text::pad_right(
        text::dec(t.teams.len()),
        3,
    ) + " users:"@ + text::pad_right(text::dec(t.users.len()), 3) + " end:"@ + text::pad_right(
        unset_as(t.end_scan, "-"@),
        9,
    ) + " purge:"@ + number_or(t.purge_time, "-"@)
}

fn padded(s: &str, w: usize) -> (r: String)
    ensures
        r@ == text::pad_right(s@, w as nat),
{
    let cs = text::to_chars(s);
    let v = text::pad_right_chars(&cs, w);
    text::from_chars(&v)
}

/// The row of a target.
pub fn target_row(t: &Target) -> (r: String)
    ensures
        r@ == target_line(t@),
{
    let name = padded(t.name.as_str(), 18);
    let path = padded(t.path.as_str(), 32);
    let teams = text::dec_string(t.teams.len() as u64);
    let teams = padded(teams.as_str(), 3);
    let users = text::dec_string(t.users.len() as u64);
    let users = padded(users.as_str(), 3);
    let end = opt_or(&t.end_scan, "-");
    let end = padded(end.as_str(), 9);
    let purge = num_or(t.purge_time, "-");
    let a = text::cat5(name.as_str(), " ", path.as_str(), " teams:", teams.as_str());
    let b = text::cat5(a.as_str(), " users:", users.as_str(), " end:", end.as_str());
    text::cat3(b.as_str(), " purge:", purge.as_str())
}

/// Which target is selected, out of how many.
pub fn target_label(name: &str, selected: usize, targets: usize) -> (r: String)
    requires
        selected < targets,
    ensures
        r@ == name@ + " ["@ + text::dec((selected + 1) as nat) + "/"@ + text::dec(targets as nat)
            + "]  ([ ] switch)"@,
{
    let n = text::dec_string(selected as u64 + 1);
    let m = text::dec_string(targets as u64);
    let a = text::cat5(name, " [", n.as_str(), "/", m.as_str());
    text::cat2(a.as_str(), "]  ([ ] switch)")
}

/// The filter as a title shows it.
pub open spec fn filter_mark(s: ScreenModel) -> Seq<char> {
    "/"@ + s.filter + (if s.cursor.filtering {
        "_"@
    } else {
        Seq::empty()
    })
}

/// Whether a title shows the filter.
pub open spec fn shows_filter(s: ScreenModel) -> bool {
    s.filter.len() > 0 || s.cursor.filtering
}

fn mark(app: &App) -> (r: String)
    ensures
        r@ == filter_mark(app@),
{
    if app.cursor.filtering {
        text::cat3("/", app.filter.as_str(), "_")
    } else {
        let r = text::cat2("/", app.filter.as_str());
        assert(r@ =~= filter_mark(app@));
        r
    }
}

/// The title over the users of a report: how many there are, and how many of them
/// a filter lets through.
pub fn user_col_title(app: &App, shown: usize, total: usize) -> (r: String)
    ensures
        r@ == (if shows_filter(app@) {
            " Users ("@ + text::dec(shown as nat) + "/"@ + text::dec(total as nat) + ") \u{2014} "@
                + filter_mark(app@) + " "@
        } else {
            " Users ("@ + text::dec(total as nat) + ") "@
        }),
{
    let t = text::dec_string(total as u64);
    if app.filter.as_str().is_empty() && !app.cursor.filtering {
        return text::cat3(" Users (", t.as_str(), ") ");
    }
    let s = text::dec_string(shown as u64);
    let m = mark(app);
    let a = text::cat5(" Users (", s.as_str(), "/", t.as_str(), ") \u{2014} ");
    text::cat3(a.as_str(), m.as_str(), " ")
}

/// The title over the users of a team.
pub fn team_users_title(app: &App, team: &str, shown: usize, total: usize) -> (r: String)
    ensures
        r@ == (if shows_filter(app@) {
            " Users \u{2014} team: "@ + team@ + " ("@ + text::dec(shown as nat) + "/"@ + text::dec(
                total as nat,
            ) + ") \u{2014} "@ + filter_mark(app@) + " "@
        } else {
            " Users \u{2014} team: "@ + team@ + " "@
        }),
{
    if app.filter.as_str().is_empty() && !app.cursor.filtering {
        return text::cat3(" Users \u{2014} team: ", team, " ");
    }
    let t = text::dec_string(total as u64);
    let s = text::dec_string(shown as u64);
    let m = mark(app);
    let a = text::cat5(" Users \u{2014} team: ", team, " (", s.as_str(), "/");
    let b = text::cat3(a.as_str(), t.as_str(), ") \u{2014} ");
    text::cat3(b.as_str(), m.as_str(), " ")
}

/// The names of the directories of the treemap that are open.
pub open spec fn open_names(stack: Seq<(i64, Seq<char>)>) -> Seq<Seq<char>> {
    Seq::new(stack.len(), |i: int| stack[i].1)
}

/// The open directory of the treemap, from its root.
pub fn crumb(app: &App) -> (r: String)
    ensures
        r@ == "/"@ + text::join(open_names(app@.tm_stack), "/"@),
{
    let mut names: Vec<String> = Vec::new();
    let mut i: usize = 0;
    while i < app.tm_stack.len()
        invariant
            i <= app.tm_stack@.len(),
            names@.len() == i,
            forall|k: int| 0 <= k < i ==> (#[trigger] names@[k])@ == app.tm_stack@[k].1@,
        decreases app.tm_stack@.len() - i,
    {
        names.push(app.tm_stack[i].1.clone());
        i = i + 1;
    }
    assert(text::strs(names@) =~= open_names(app@.tm_stack));
    let path = text::join_strings(&names, "/");
    text::cat2("/", path.as_str())
}

proof fn lemma_label(label: Seq<char>, value: Seq<char>)
    ensures
        (label + value).skip(label.len() as int) == value,
{
    assert((label + value).skip(label.len() as int) =~= value);
}

/// Each row of the settings tab shows, behind its label, the setting that is asked for on
/// that row; an empty one and a memory that is left out are shown by a word.
pub proof fn law_settings_stand_on_their_rows(s: SettingsModel, found: bool, i: int)
    requires
        0 <= i < 11,
    ensures
        setting_lines(s, found).len() == 11,
        tui_nav::setting_field(i) is Some,
        ({
            let f = tui_nav::setting_field(i)->0;
            let now = screen::setting_text(s, f);
            let shown = setting_lines(s, found)[i].skip(23);
            if f == SettingField::LsfEnabled {
                shown == now + lsf_mark_of(found)
            } else if f == SettingField::LsfMemMb {
                shown == (if s.lsf.mem_mb > 0 {
                    now
                } else {
                    "(omit)"@
                })
            } else if f == SettingField::LsfOs || f == SettingField::LsfQueue {
                shown == (if now.len() > 0 {
                    now
                } else {
                    "(none)"@
                })
            } else {
                shown == now
            }
        }),
{
    reveal_strlit("output_dir           = ");
    reveal_strlit("workers              = ");
    reveal_strlit("max_parallel_devices = ");
    reveal_strlit("nfs_parallel         = ");
    reveal_strlit("hdd_parallel         = ");
    reveal_strlit("ssd_parallel         = ");
    reveal_strlit("lsf.enabled          = ");
    reveal_strlit("lsf.cmd              = ");
    reveal_strlit("lsf.os               = ");
    reveal_strlit("lsf.mem_mb           = ");
    reveal_strlit("lsf.queue            = ");
    let f = tui_nav::setting_field(i)->0;
    let now = screen::setting_text(s, f);
    if i == 0 {
        lemma_label("output_dir           = "@, now);
    } else if i == 1 {
        lemma_label("workers              = "@, now);
    } else if i == 2 {
        lemma_label("max_parallel_devices = "@, now);
    } else if i == 3 {
        lemma_label("nfs_parallel         = "@, now);
    } else if i == 4 {
        lemma_label("hdd_parallel         = "@, now);
    } else if i == 5 {
        lemma_label("ssd_parallel         = "@, now);
    } else if i == 6 {
        lemma_label("lsf.enabled          = "@, now + lsf_mark_of(found));
        assert("lsf.enabled          = "@ + (now + lsf_mark_of(found)) =~= "lsf.enabled          = "@ + now + lsf_mark_of(found));
    } else if i == 7 {
        lemma_label("lsf.cmd              = "@, now);
    } else if i == 8 {
        lemma_label("lsf.os               = "@, or_else(now, "(none)"@));
    } else if i == 9 {
        lemma_label("lsf.mem_mb           = "@, now);
        lemma_label("lsf.mem_mb           = "@, "(omit)"@);
    } else {
        lemma_label("lsf.queue            = "@, or_else(now, "(none)"@));
    }
}

/// Each row of the tab of a target's overrides that is typed in shows, behind its label,
/// the override that is asked for on that row, or a word where it is not set.
pub proof fn law_overrides_stand_on_their_rows(t: TargetModel, i: int)
    requires
        0 <= i < 9,
    ensures
        override_lines(t).len() == 9,
        tui_nav::scansync_field(i) is None <==> i == 0 || i == 8,
        override_lines(t)[0].skip(16) == tui::switch_text(t.overrides.tree_map),
        override_lines(t)[8].skip(16) == tui::switch_text(t.overrides.sync_pass),
        tui_nav::scansync_field(i) matches Some(f) ==> ({
            let now = screen::field_text(t, f);
            now.len() > 0 ==> override_lines(t)[i].skip(16) == now
        }),
{
    reveal_strlit("tree_map      = ");
    reveal_strlit("level         = ");
    reveal_strlit("workers       = ");
    reveal_strlit("sync_host     = ");
    reveal_strlit("sync_dest_dir = ");
    reveal_strlit("sync_user     = ");
    reveal_strlit("export_dir    = ");
    reveal_strlit("webhook_url   = ");
    reveal_strlit("sync_pass     = ");
    let o = t.overrides;
    lemma_label("tree_map      = "@, tui::switch_text(o.tree_map));
    lemma_label("sync_pass     = "@, tui::switch_text(o.sync_pass));
    if tui_nav::scansync_field(i) is Some {
        let now = screen::field_text(t, tui_nav::scansync_field(i)->0);
        lemma_label("level         = "@, now);
        lemma_label("workers       = "@, now);
        lemma_label("sync_host     = "@, now);
        lemma_label("sync_dest_dir = "@, now);
        lemma_label("sync_user     = "@, now);
        lemma_label("export_dir    = "@, now);
        lemma_label("webhook_url   = "@, now);
    }
}

/// The row of a target has its columns: the name in the first eighteen places, the path
/// from the twentieth on, then the number of its teams and the number of its users, as
/// long as each fits its column.
pub proof fn law_columns_of_a_target(t: TargetModel)
    requires
        t.name.len() <= 18,
        t.path.len() <= 32,
        text::dec(t.teams.len()).len() <= 3,
        text::dec(t.users.len()).len() <= 3,
    ensures
        ({
            let line = target_line(t);
            &&& line.take(t.name.len() as int) == t.name
            &&& line.subrange(19, 19int + t.path.len()) == t.path
            &&& line.subrange(51, 58) == " teams:"@
            &&& line.subrange(58, 58int + text::dec(t.teams.len()).len()) == text::dec(t.teams.len())
            &&& line.subrange(61, 68) == " users:"@
            &&& line.subrange(68, 68int + text::dec(t.users.len()).len()) == text::dec(t.users.len())
        }),
{
    reveal_strlit(" ");
    reveal_strlit(" teams:");
    reveal_strlit(" users:");
    let line = target_line(t);
    assert(line.take(t.name.len() as int) =~= t.name);
    assert(line.subrange(19, 19int + t.path.len()) =~= t.path);
    assert(line.subrange(51, 58) =~= " teams:"@);
    assert(line.subrange(58, 58int + text::dec(t.teams.len()).len()) =~= text::dec(t.teams.len()));
    assert(line.subrange(61, 68) =~= " users:"@);
    assert(line.subrange(68, 68int + text::dec(t.users.len()).len()) =~= text::dec(t.users.len()));
}

} // verus!
