//! The configuration screen's texts: what is typed in and what becomes of it,
//! completion, confirmation, and the status line.

use crate::config::Config;
use crate::config::LsfModel;
use crate::config::OverridesModel;
use crate::config::SettingsModel;
use crate::config::Target;
use crate::config::TargetModel;
use crate::config;
use crate::paths;
use crate::text;
use crate::tui_nav::SettingField;
use crate::tui_nav::TargetField;
use vstd::prelude::*;
use vstd::slice::slice_subrange;

verus! {

/// What a typed line is for.
pub enum InputKind {
    NewTargetName,
    NewTargetPath { name: String },
    NewTeam,
    AddUsers { team: String },
    Target(TargetField),
    Setting(SettingField),
}

/// What waits for a yes.
pub enum ConfirmAction {
    DeleteTarget(String),
    DeleteTeam(String),
    DeleteUser(String),
}

/// What the keys are for.
pub enum Mode {
    Browse,
    Input { kind: InputKind, prompt: String, buf: String, completions: Vec<String> },
    Confirm { action: ConfirmAction, prompt: String },
}

/// Whether the line is a local or remote path, which can be completed.
pub fn is_path_input(kind: &InputKind) -> (r: bool)
    ensures
        r == (match *kind {
            InputKind::NewTargetPath { .. } => true,
            InputKind::Target(f) => f == TargetField::Path || f == TargetField::SyncDest || f
                == TargetField::ExportDir,
            InputKind::Setting(s) => s == SettingField::OutputDir,
            _ => false,
        }),
{
    match kind {
        InputKind::NewTargetPath { .. } => true,
        InputKind::Target(f) => matches!(
            f,
            TargetField::Path | TargetField::SyncDest | TargetField::ExportDir
        ),
        InputKind::Setting(s) => matches!(s, SettingField::OutputDir),
        _ => false,
    }
}

// ---------------------------------------------------------------------------
// Small texts
// ---------------------------------------------------------------------------

/// A switch that may be unset.
pub open spec fn switch_text(v: Option<bool>) -> Seq<char> {
    match v {
        None => "(default)"@,
        Some(b) => if b {
            "true"@
        } else {
            "false"@
        },
    }
}

/// A switch that may be unset.
pub fn opt_bool_str(v: Option<bool>) -> (r: String)
    ensures
        r@ == switch_text(v),
{
    match v {
        None => "(default)".to_string(),
        Some(true) => "true".to_string(),
        Some(false) => "false".to_string(),
    }
}

/// A number that may be unset.
pub open spec fn number_text(v: Option<i64>) -> Seq<char> {
    match v {
        Some(n) => text::dec_int(n as int),
        None => Seq::empty(),
    }
}

/// A number that may be unset.
pub fn opt_i64_str(v: Option<i64>) -> (r: String)
    ensures
        r@ == number_text(v),
{
    match v {
        Some(n) => text::dec_int_string(n),
        None => {
            let s = String::new();
            assert(s@ =~= Seq::<char>::empty());
            s
        },
    }
}

/// A switch.
pub fn bool_str(v: &bool) -> (r: String)
    ensures
        r@ == (if *v {
            "yes"@
        } else {
            "no"@
        }),
{
    if *v {
        "yes".to_string()
    } else {
        "no".to_string()
    }
}

/// The number in a line, where the empty line is none; nothing where the line is
/// neither or the number is negative.
pub open spec fn opt_number(s: Seq<char>) -> Option<Option<int>> {
    if s.len() == 0 {
        Some(None)
    } else {
        match text::parse_signed(s) {
            Some(n) => if n >= 0 {
                Some(Some(n))
            } else {
                None
            },
            None => None,
        }
    }
}

/// The number in a line, where the empty line is none. It is not negative.
pub fn parse_opt_i64(s: &str) -> (r: Result<Option<i64>, String>)
    ensures
        match r {
            Ok(v) => opt_number(s@) == Some(
                match v {
                    Some(n) => Some(n as int),
                    None => None,
                },
            ),
            Err(e) => opt_number(s@) is None && e@ == "must be a number or empty"@,
        },
{
    if s.is_empty() {
        return Ok(None);
    }
    let c = text::to_chars(s);
    match text::read_signed(&c) {
        Some(n) if n >= 0 => Ok(Some(n)),
        _ => Err("must be a number or empty".to_string()),
    }
}

/// A number that is typed as it is shown stays what it is.
pub proof fn law_typed_numbers(v: Option<i64>)
    requires
        v matches Some(n) ==> n >= 0,
    ensures
        opt_number(number_text(v)) == Some(
            match v {
                Some(n) => Some(n as int),
                None => None,
            },
        ),
{
    match v {
        Some(n) => {
            text::law_read_of_written_signed(n);
            text::lemma_dec_digits(n as nat);
        },
        None => {},
    }
}

/// The longest text that all of several texts begin with.
pub open spec fn is_common_prefix(p: Seq<char>, items: Seq<Seq<char>>) -> bool {
    forall|i: int| 0 <= i < items.len() ==> p.is_prefix_of(#[trigger] items[i])
}

fn common_len(a: &[char], b: &[char], max: usize) -> (n: usize)
    requires
        max <= a.len(),
    ensures
        n <= max,
        n <= b.len(),
        a@.take(n as int) == b@.take(n as int),
        n < max && n < b.len() ==> a@[n as int] != b@[n as int],
{
    let mut n: usize = 0;
    while n < max && n < b.len() && a[n] == b[n]
        invariant
            n <= max <= a.len(),
            n <= b.len(),
            forall|k: int| 0 <= k < n ==> a@[k] == b@[k],
        decreases max - n,
    {
        n = n + 1;
    }
    assert(a@.take(n as int) =~= b@.take(n as int));
    n
}

/// The longest text that all of several texts begin with; empty where there are
/// none.
pub fn longest_common_prefix(items: &Vec<String>) -> (r: String)
    ensures
        items@.len() == 0 ==> r@.len() == 0,
        items@.len() > 0 ==> is_common_prefix(r@, text::strs(items@)) && forall|q: Seq<char>| #[trigger]
            is_common_prefix(q, text::strs(items@)) ==> q.len() <= r@.len(),
{
    if items.len() == 0 {
        return String::new();
    }
    let first = text::to_chars(items[0].as_str());
    let ghost all = text::strs(items@);
    let mut end: usize = first.len();
    let mut i: usize = 1;
    // The item that stops the prefix from being longer.
    let ghost mut stop: int = 0;
    while i < items.len()
        invariant
            1 <= i <= items.len(),
            all == text::strs(items@),
            first@ == all[0],
            end <= first@.len(),
            forall|k: int| 0 <= k < i ==> first@.take(end as int).is_prefix_of(#[trigger] all[k]),
            0 <= stop < i,
            end < all[stop].len() ==> end < first@.len() && all[stop][end as int]
                != first@[end as int],
        decreases items.len() - i,
    {
        let s = text::to_chars(items[i].as_str());
        let n = common_len(&first, &s, end);
        proof {
            if n < end {
                stop = i as int;
            }
            assert forall|k: int| 0 <= k < i + 1 implies first@.take(n as int).is_prefix_of(
                #[trigger] all[k],
            ) by {
                if k < i {
                    assert(first@.take(end as int).is_prefix_of(all[k]));
                    assert(first@.take(n as int) =~= all[k].subrange(0, n as int)) by {
                        assert forall|j: int| 0 <= j < n implies first@[j] == all[k][j] by {
                            assert(first@.take(end as int)[j] == all[k].subrange(
                                0,
                                end as int,
                            )[j]);
                        }
                    }
                } else {
                    assert(first@.take(n as int) =~= all[k].subrange(0, n as int)) by {
                        assert forall|j: int| 0 <= j < n implies first@[j] == all[k][j] by {
                            assert(first@.take(n as int)[j] == s@.take(n as int)[j]);
                        }
                    }
                }
            }
        }
        end = n;
        i = i + 1;
    }
    let head = slice_subrange(&first, 0, end);
    assert(head@ =~= first@.take(end as int));
    proof {
        assert forall|q: Seq<char>| #[trigger] is_common_prefix(q, all) implies q.len() <= end by {
            if q.len() > end {
                assert(q.is_prefix_of(all[0]));
                assert(q.is_prefix_of(all[stop]));
                assert(q[end as int] == all[0].subrange(0, q.len() as int)[end as int]);
                assert(q[end as int] == all[stop].subrange(0, q.len() as int)[end as int]);
            }
        }
    }
    text::from_chars(head)
}

// ---------------------------------------------------------------------------
// Paths that are typed
// ---------------------------------------------------------------------------

/// A typed path in full: the empty one and a full one stay, another is what it
/// resolves to, if that is known.
pub open spec fn in_full(p: Seq<char>, resolved: Option<Seq<char>>) -> Seq<char> {
    if p.len() == 0 || p[0] == '/' {
        p
    } else {
        match resolved {
            Some(r) => r,
            None => p,
        }
    }
}

/// A typed path in full; `resolved` is what it stands for in the current
/// directory.
pub fn to_absolute(p: &str, resolved: &Option<String>) -> (r: String)
    ensures
        r@ == in_full(p@, text::opt(*resolved)),
{
    if p.is_empty() || paths::is_absolute(p) {
        return p.to_string();
    }
    match resolved {
        Some(r) => r.clone(),
        None => p.to_string(),
    }
}

/// What a path resolves to, among those that were resolved.
pub open spec fn resolved_in(table: Seq<(String, String)>, p: Seq<char>) -> Option<Seq<char>>
    decreases table.len(),
{
    if table.len() == 0 {
        None
    } else if table[0].0@ == p {
        Some(table[0].1@)
    } else {
        resolved_in(table.drop_first(), p)
    }
}

pub(crate) fn lookup_path(table: &Vec<(String, String)>, p: &str) -> (r: Option<String>)
    ensures
        text::opt(r) == resolved_in(table@, p@),
{
    let mut i: usize = 0;
    assert(table@.skip(0) =~= table@);
    while i < table.len()
        invariant
            i <= table.len(),
            resolved_in(table@.skip(i as int), p@) == resolved_in(table@, p@),
        decreases table.len() - i,
    {
        proof {
            assert(table@.skip(i as int)[0] == table@[i as int]);
            assert(table@.skip(i as int).drop_first() =~= table@.skip(i + 1));
        }
        if text::str_eq(table[i].0.as_str(), p) {
            return Some(table[i].1.clone());
        }
        i = i + 1;
    }
    assert(table@.skip(i as int).len() == 0);
    None
}

/// One piece of a list of users: a list file's path is in full.
pub open spec fn piece_in_full(piece: Seq<char>, table: Seq<(String, String)>) -> Seq<char> {
    let t = text::trim(piece);
    if t.len() > 0 && t[0] == '@' {
        "@"@ + in_full(t.skip(1), resolved_in(table, t.skip(1)))
    } else {
        t
    }
}

/// A list of users with the paths of its list files in full, and everything else
/// as it is but for blanks around it.
pub fn abs_at_file_tokens(raw: &str, table: &Vec<(String, String)>) -> (r: String)
    ensures
        r@ == text::join(text::split(raw@, ',').map_values(|p: Seq<char>| piece_in_full(p, table@)), ","@),
{
    let cs = text::to_chars(raw);
    let parts = text::split_chars(&cs, ',');
    let ghost all = text::split(raw@, ',');
    let ghost g = |p: Seq<char>| piece_in_full(p, table@);
    let mut out: Vec<String> = Vec::new();
    let mut i: usize = 0;
    assert(text::rows(parts@).len() == parts@.len());
    while i < parts.len()
        invariant
            i <= parts@.len(),
            all == text::rows(parts@),
            out@.len() == i,
            g == (|p: Seq<char>| piece_in_full(p, table@)),
            forall|k: int| 0 <= k < i ==> (#[trigger] out@[k])@ == g(all[k]),
        decreases parts@.len() - i,
    {
        assert(all[i as int] == parts@[i as int]@);
        let t = text::trim_chars(&parts[i]);
        if t.len() > 0 && t[0] == '@' {
            let rest = slice_subrange(t, 1, t.len());
            assert(rest@ =~= t@.skip(1));
            let rest = text::from_chars(rest);
            let full = lookup_path(table, rest.as_str());
            let abs = to_absolute(rest.as_str(), &full);
            out.push(text::cat2("@", abs.as_str()));
        } else {
            out.push(text::from_chars(t));
        }
        assert(out@[i as int]@ == g(all[i as int]));
        i = i + 1;
    }
    assert(text::strs(out@) =~= all.map_values(g));
    text::join_strings(&out, ",")
}

// ---------------------------------------------------------------------------
// Settings
// ---------------------------------------------------------------------------

/// A number, but not below `least`.
pub open spec fn at_least(n: int, least: int) -> i64 {
    if n < least {
        least as i64
    } else {
        n as i64
    }
}

/// The settings after a line was typed for one of them, and what is said; nothing
/// where a number was wanted and the line is none.
pub open spec fn set(s: SettingsModel, field: SettingField, t: Seq<char>) -> Option<
    (SettingsModel, Seq<char>),
> {
    match field {
        SettingField::OutputDir => Some(
            (SettingsModel { output_dir: t, ..s }, "output_dir updated"@),
        ),
        SettingField::Workers => Some((SettingsModel { workers: t, ..s }, "workers updated"@)),
        SettingField::MaxParallel => match text::parse_signed(t) {
            Some(n) => Some(
                (
                    SettingsModel { max_parallel_devices: at_least(n, 0), ..s },
                    "max_parallel_devices updated"@,
                ),
            ),
            None => None,
        },
        SettingField::NfsParallel => match text::parse_signed(t) {
            Some(n) => Some(
                (SettingsModel { nfs_parallel: at_least(n, 1), ..s }, "nfs_parallel updated"@),
            ),
            None => None,
        },
        SettingField::HddParallel => match text::parse_signed(t) {
            Some(n) => Some(
                (SettingsModel { hdd_parallel: at_least(n, 1), ..s }, "hdd_parallel updated"@),
            ),
            None => None,
        },
        SettingField::SsdParallel => match text::parse_signed(t) {
            Some(n) => Some(
                (SettingsModel { ssd_parallel: at_least(n, 0), ..s }, "ssd_parallel updated"@),
            ),
            None => None,
        },
        SettingField::LsfEnabled => {
            let on = t == "yes"@ || t == "y"@ || t == "true"@ || t == "1"@;
            Some(
                (
                    SettingsModel { lsf: LsfModel { enabled: on, ..s.lsf }, ..s },
                    "lsf.enabled = "@ + (if on {
                        "yes"@
                    } else {
                        "no"@
                    }),
                ),
            )
        },
        SettingField::LsfCmd => Some((SettingsModel { lsf: LsfModel { cmd: t, ..s.lsf }, ..s }, "lsf.cmd = "@ + t)),
        SettingField::LsfOs => Some(
            (
                SettingsModel { lsf: LsfModel { os: t, ..s.lsf }, ..s },
                if t.len() == 0 {
                    "lsf.os cleared"@
                } else {
                    "lsf.os = "@ + t
                },
            ),
        ),
        SettingField::LsfMemMb => match text::parse_signed(t) {
            Some(n) => Some(
                (
                    SettingsModel { lsf: LsfModel { mem_mb: at_least(n, 0), ..s.lsf }, ..s },
                    "lsf.mem_mb = "@ + text::dec_int(at_least(n, 0) as int),
                ),
            ),
            None => None,
        },
        SettingField::LsfQueue => Some(
            (
                SettingsModel { lsf: LsfModel { queue: t, ..s.lsf }, ..s },
                if t.len() == 0 {
                    "lsf.queue cleared"@
                } else {
                    "lsf.queue = "@ + t
                },
            ),
        ),
    }
}

fn number(s: &str, least: i64) -> (r: Result<i64, String>)
    ensures
        match r {
            Ok(n) => text::parse_signed(s@) is Some && n == at_least(
                text::parse_signed(s@)->0,
                least as int,
            ),
            Err(e) => text::parse_signed(s@) is None && e@ == "must be a number"@,
        },
{
    let c = text::to_chars(s);
    match text::read_signed(&c) {
        Some(n) => Ok(
            if n < least {
                least
            } else {
                n
            },
        ),
        None => Err("must be a number".to_string()),
    }
}

/// Sets a global setting to a typed line. A line that is no number where one is
/// wanted is an error and changes nothing.
pub fn edit_setting(cfg: &mut Config, field: SettingField, line: &str) -> (r: Result<
    String,
    String,
>)
    ensures
        final(cfg).targets == old(cfg).targets,
        match r {
            Ok(msg) => set(old(cfg).settings(), field, line@) == Some(
                (final(cfg).settings(), msg@),
            ),
            Err(e) => set(old(cfg).settings(), field, line@) is None && *final(cfg) == *old(cfg)
                && e@ == "must be a number"@,
        },
{
    match field {
        SettingField::OutputDir => {
            cfg.output_dir = line.to_string();
            Ok("output_dir updated".to_string())
        },
        SettingField::Workers => {
            cfg.workers = line.to_string();
            Ok("workers updated".to_string())
        },
        SettingField::MaxParallel => match number(line, 0) {
            Ok(n) => {
                cfg.max_parallel_devices = n;
                Ok("max_parallel_devices updated".to_string())
            },
            Err(e) => Err(e),
        },
        SettingField::NfsParallel => match number(line, 1) {
            Ok(n) => {
                cfg.nfs_parallel = n;
                Ok("nfs_parallel updated".to_string())
            },
            Err(e) => Err(e),
        },
        SettingField::HddParallel => match number(line, 1) {
            Ok(n) => {
                cfg.hdd_parallel = n;
                Ok("hdd_parallel updated".to_string())
            },
            Err(e) => Err(e),
        },
        SettingField::SsdParallel => match number(line, 0) {
            Ok(n) => {
                cfg.ssd_parallel = n;
                Ok("ssd_parallel updated".to_string())
            },
            Err(e) => Err(e),
        },
        SettingField::LsfEnabled => {
            let on = text::str_eq(line, "yes") || text::str_eq(line, "y") || text::str_eq(line, "true") || text::str_eq(
                line,
                "1",
            );
            cfg.lsf.enabled = on;
            let s = bool_str(&on);
            Ok(text::cat2("lsf.enabled = ", s.as_str()))
        },
        SettingField::LsfCmd => {
            cfg.lsf.cmd = line.to_string();
            Ok(text::cat2("lsf.cmd = ", line))
        },
        SettingField::LsfOs => {
            cfg.lsf.os = line.to_string();
            if line.is_empty() {
                Ok("lsf.os cleared".to_string())
            } else {
                Ok(text::cat2("lsf.os = ", line))
            }
        },
        SettingField::LsfMemMb => match number(line, 0) {
            Ok(n) => {
                cfg.lsf.mem_mb = n;
                let s = text::dec_int_string(n);
                Ok(text::cat2("lsf.mem_mb = ", s.as_str()))
            },
            Err(e) => Err(e),
        },
        SettingField::LsfQueue => {
            cfg.lsf.queue = line.to_string();
            if line.is_empty() {
                Ok("lsf.queue cleared".to_string())
            } else {
                Ok(text::cat2("lsf.queue = ", line))
            }
        },
    }
}

// ---------------------------------------------------------------------------
// The selected target
// ---------------------------------------------------------------------------

/// The name of a target's setting.
pub open spec fn field_name(f: TargetField) -> Seq<char> {
    match f {
        TargetField::Path => "path"@,
        TargetField::EndScan => "end_scan"@,
        TargetField::PurgeTime => "purge_time"@,
        TargetField::Level => "level"@,
        TargetField::Workers => "workers"@,
        TargetField::SyncHost => "sync_host"@,
        TargetField::SyncDest => "sync_dest_dir"@,
        TargetField::SyncUser => "sync_user"@,
        TargetField::ExportDir => "export_dir"@,
        TargetField::WebhookUrl => "webhook_url"@,
    }
}

/// A line that unsets what it is for where it is empty.
pub open spec fn opt_line(t: Seq<char>) -> Option<Seq<char>> {
    if t.len() == 0 {
        None
    } else {
        Some(t)
    }
}

/// A number as the setting's type.
pub open spec fn as_i64(n: Option<int>) -> Option<i64> {
    match n {
        Some(k) => Some(k as i64),
        None => None,
    }
}

/// A target after a line was typed for one of its settings; nothing where a
/// number was wanted and the line is none.
pub open spec fn edited(m: TargetModel, f: TargetField, t: Seq<char>) -> Option<TargetModel> {
    let o = m.overrides;
    match f {
        TargetField::Path => Some(TargetModel { path: t, ..m }),
        TargetField::EndScan => Some(TargetModel { end_scan: opt_line(t), ..m }),
        TargetField::PurgeTime => match opt_number(t) {
            Some(n) => Some(TargetModel { purge_time: as_i64(n), ..m }),
            None => None,
        },
        TargetField::Level => match opt_number(t) {
            Some(n) => Some(
                TargetModel { overrides: OverridesModel { level: as_i64(n), ..o }, ..m },
            ),
            None => None,
        },
        TargetField::Workers => match opt_number(t) {
            Some(n) => Some(
                TargetModel { overrides: OverridesModel { workers: as_i64(n), ..o }, ..m },
            ),
            None => None,
        },
        TargetField::SyncHost => Some(
            TargetModel { overrides: OverridesModel { sync_host: opt_line(t), ..o }, ..m },
        ),
        TargetField::SyncDest => Some(
            TargetModel { overrides: OverridesModel { sync_dest_dir: opt_line(t), ..o }, ..m },
        ),
        TargetField::SyncUser => Some(
            TargetModel { overrides: OverridesModel { sync_user: opt_line(t), ..o }, ..m },
        ),
        TargetField::ExportDir => Some(
            TargetModel { overrides: OverridesModel { export_dir: opt_line(t), ..o }, ..m },
        ),
        TargetField::WebhookUrl => Some(
            TargetModel { overrides: OverridesModel { webhook_url: opt_line(t), ..o }, ..m },
        ),
    }
}

fn line_or_none(line: &str) -> (r: Option<String>)
    ensures
        text::opt(r) == opt_line(line@),
{
    if line.is_empty() {
        None
    } else {
        Some(line.to_string())
    }
}

fn set_field(t: &mut Target, f: TargetField, line: &str) -> (r: Result<&'static str, String>)
    ensures
        match r {
            Ok(n) => edited(old(t)@, f, line@) == Some(final(t)@) && n@ == field_name(f),
            Err(e) => edited(old(t)@, f, line@) is None && *final(t) == *old(t) && e@
                == "must be a number or empty"@,
        },
{
    match f {
        TargetField::Path => {
            t.path = line.to_string();
            Ok("path")
        },
        TargetField::EndScan => {
            t.end_scan = line_or_none(line);
            Ok("end_scan")
        },
        TargetField::PurgeTime => match parse_opt_i64(line) {
            Ok(v) => {
                t.purge_time = v;
                Ok("purge_time")
            },
            Err(e) => Err(e),
        },
        TargetField::Level => match parse_opt_i64(line) {
            Ok(v) => {
                t.level = v;
                Ok("level")
            },
            Err(e) => Err(e),
        },
        TargetField::Workers => match parse_opt_i64(line) {
            Ok(v) => {
                t.workers = v;
                Ok("workers")
            },
            Err(e) => Err(e),
        },
        TargetField::SyncHost => {
            t.sync_host = line_or_none(line);
            Ok("sync_host")
        },
        TargetField::SyncDest => {
            t.sync_dest_dir = line_or_none(line);
            Ok("sync_dest_dir")
        },
        TargetField::SyncUser => {
            t.sync_user = line_or_none(line);
            Ok("sync_user")
        },
        TargetField::ExportDir => {
            t.export_dir = line_or_none(line);
            Ok("export_dir")
        },
        TargetField::WebhookUrl => {
            t.webhook_url = line_or_none(line);
            Ok("webhook_url")
        },
    }
}

/// Sets a setting of the target at `i` to a typed line. There has to be such a
/// target, and a number where one is wanted.
pub fn edit_target(cfg: &mut Config, i: usize, f: TargetField, line: &str) -> (r: Result<
    String,
    String,
>)
    ensures
        final(cfg).same_settings(old(cfg)),
        match r {
            Ok(msg) => {
                let ts = old(cfg).model();
                &&& i < ts.len()
                &&& edited(ts[i as int], f, line@) is Some
                &&& final(cfg).model() == ts.update(
                    i as int,
                    edited(ts[i as int], f, line@)->0,
                )
                &&& msg@ == "Updated "@ + field_name(f) + " of '"@ + ts[i as int].name + "'"@
            },
            Err(e) => {
                &&& final(cfg).targets@ == old(cfg).targets@
                &&& e@ == (if i >= old(cfg).model().len() {
                    "no target selected"@
                } else {
                    "must be a number or empty"@
                })
                &&& i < old(cfg).model().len() ==> edited(
                    old(cfg).model()[i as int],
                    f,
                    line@,
                ) is None
            },
        },
{
    if i >= cfg.targets.len() {
        return Err("no target selected".to_string());
    }
    let ghost before = cfg.targets@;
    let name = cfg.targets[i].name.clone();
    let t: &mut Target = &mut cfg.targets[i];
    let r = set_field(t, f, line);
    proof {
        let now = cfg.targets@[i as int];
        assert(cfg.targets@ =~= before.update(i as int, now));
        assert(config::target_views(before.update(i as int, now)) =~= config::target_views(before).update(
            i as int,
            now@,
        ));
        if r is Err {
            assert(cfg.targets@ =~= before);
        }
    }
    match r {
        Ok(n) => Ok(text::cat5("Updated ", n, " of '", name.as_str(), "'")),
        Err(e) => Err(e),
    }
}

/// The next state of a switch that may be unset: unset, on, off, unset.
pub open spec fn cycled(v: Option<bool>) -> Option<bool> {
    match v {
        None => Some(true),
        Some(b) => if b {
            Some(false)
        } else {
            None
        },
    }
}

fn cycle(v: Option<bool>) -> (r: Option<bool>)
    ensures
        r == cycled(v),
{
    match v {
        None => Some(true),
        Some(true) => Some(false),
        Some(false) => None,
    }
}

/// Three times around leads back.
pub proof fn law_switches_cycle(v: Option<bool>)
    ensures
        cycled(cycled(cycled(v))) == v,
        cycled(v) != v,
{
}

/// Cycles whether the target at `i` gets a treemap.
pub fn cycle_tree_map(cfg: &mut Config, i: usize) -> (r: Result<String, String>)
    ensures
        final(cfg).same_settings(old(cfg)),
        ({
            let ts = old(cfg).model();
            match r {
                Ok(msg) => {
                    let m = ts[i as int];
                    let next = cycled(m.overrides.tree_map);
                    &&& i < ts.len()
                    &&& final(cfg).model() == ts.update(
                        i as int,
                        TargetModel {
                            overrides: OverridesModel { tree_map: next, ..m.overrides },
                            ..m
                        },
                    )
                    &&& msg@ == "tree_map = "@ + switch_text(next)
                },
                Err(e) => i >= ts.len() && final(cfg).targets@ == old(cfg).targets@ && e@
                    == "no target selected"@,
            }
        }),
{
    if i >= cfg.targets.len() {
        return Err("no target selected".to_string());
    }
    let ghost before = cfg.targets@;
    let next = cycle(cfg.targets[i].tree_map);
    let t: &mut Target = &mut cfg.targets[i];
    t.tree_map = next;
    proof {
        let now = cfg.targets@[i as int];
        assert(cfg.targets@ =~= before.update(i as int, now));
        assert(config::target_views(before.update(i as int, now)) =~= config::target_views(before).update(
            i as int,
            now@,
        ));
    }
    let s = opt_bool_str(next);
    Ok(text::cat2("tree_map = ", s.as_str()))
}

/// Cycles whether the target at `i` is mirrored with a password.
pub fn cycle_sync_pass(cfg: &mut Config, i: usize) -> (r: Result<String, String>)
    ensures
        final(cfg).same_settings(old(cfg)),
        ({
            let ts = old(cfg).model();
            match r {
                Ok(msg) => {
                    let m = ts[i as int];
                    let next = cycled(m.overrides.sync_pass);
                    &&& i < ts.len()
                    &&& final(cfg).model() == ts.update(
                        i as int,
                        TargetModel {
                            overrides: OverridesModel { sync_pass: next, ..m.overrides },
                            ..m
                        },
                    )
                    &&& msg@ == "sync_pass = "@ + switch_text(next)
                        + " (password via SSHPASS env)"@
                },
                Err(e) => i >= ts.len() && final(cfg).targets@ == old(cfg).targets@ && e@
                    == "no target selected"@,
            }
        }),
{
    if i >= cfg.targets.len() {
        return Err("no target selected".to_string());
    }
    let ghost before = cfg.targets@;
    let next = cycle(cfg.targets[i].sync_pass);
    let t: &mut Target = &mut cfg.targets[i];
    t.sync_pass = next;
    proof {
        let now = cfg.targets@[i as int];
        assert(cfg.targets@ =~= before.update(i as int, now));
        assert(config::target_views(before.update(i as int, now)) =~= config::target_views(before).update(
            i as int,
            now@,
        ));
    }
    let s = opt_bool_str(next);
    Ok(text::cat3("sync_pass = ", s.as_str(), " (password via SSHPASS env)"))
}

} // verus!
