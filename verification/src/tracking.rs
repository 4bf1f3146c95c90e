//! Scans and exports that the configuration screen starts and follows, and the
//! rows that it shows.

use crate::config::Config;
use crate::config::TargetModel;
use crate::config;
use crate::display;
use crate::paths;
use crate::screen::App;
use crate::screen::ScreenModel;
use crate::screen;
use crate::text;
use crate::tui_nav::Cursor;
use vstd::prelude::*;

verus! {

// ---------------------------------------------------------------------------
// Starting a scan
// ---------------------------------------------------------------------------

/// How a scan starts.
pub enum ScanStart {
    /// It does not.
    Stopped,
    Local,
    /// One batch job for each of these targets.
    Lsf(Vec<String>),
}

/// The targets of a scan: those that are named, or all.
pub open spec fn scan_targets(ts: Seq<TargetModel>, names: Seq<Seq<char>>) -> Seq<Seq<char>> {
    if names.len() == 0 {
        config::target_names(ts)
    } else {
        names
    }
}

fn all_names(cfg: &Config) -> (r: Vec<String>)
    ensures
        text::strs(r@) == config::target_names(cfg.model()),
{
    let ghost all = config::target_names(cfg.model());
    let mut out: Vec<String> = Vec::new();
    let mut i: usize = 0;
    while i < cfg.targets.len()
        invariant
            i <= cfg.targets@.len(),
            all == config::target_names(cfg.model()),
            out@.len() == i,
            forall|k: int| 0 <= k < i ==> (#[trigger] out@[k])@ == all[k],
        decreases cfg.targets@.len() - i,
    {
        out.push(cfg.targets[i].name.clone());
        assert(out@[i as int]@ == all[i as int]);
        i = i + 1;
    }
    assert(text::strs(out@) =~= all);
    out
}

/// Starts a scan of the named targets, or of all. `lsf` says whether batch jobs
/// are used, `exe_known` whether the program knows its own path.
pub fn start_scan(app: &mut App, names: &Vec<String>, lsf: bool, exe_known: bool) -> (r: ScanStart)
    ensures
        final(app).cfg == old(app).cfg,
        final(app)@ == (if lsf && !exe_known {
            screen::saying(old(app)@, "Cannot resolve duscan path for LSF submit."@)
        } else {
            old(app)@
        }),
        match r {
            ScanStart::Stopped => lsf && !exe_known,
            ScanStart::Local => !lsf,
            ScanStart::Lsf(ts) => lsf && exe_known && text::strs(ts@) == scan_targets(
                old(app).cfg.model(),
                text::strs(names@),
            ),
        },
{
    if !lsf {
        return ScanStart::Local;
    }
    if !exe_known {
        app.status = "Cannot resolve duscan path for LSF submit.".to_string();
        return ScanStart::Stopped;
    }
    if names.len() == 0 {
        ScanStart::Lsf(all_names(&app.cfg))
    } else {
        ScanStart::Lsf(text::copy_strings(names))
    }
}

/// Says how many of the batch jobs were accepted, and returns whether there are
/// any to follow.
pub fn note_submitted(app: &mut App, ok: usize, total: usize) -> (r: bool)
    ensures
        r == (ok > 0),
        final(app).cfg == old(app).cfg,
        final(app)@ == screen::saying(
            old(app)@,
            if ok == 0 {
                "All LSF submits failed."@
            } else {
                "Submitted "@ + text::dec(ok as nat) + "/"@ + text::dec(total as nat)
                    + " target(s) to LSF \u{2014} tracking live..."@
            },
        ),
{
    if ok == 0 {
        app.status = "All LSF submits failed.".to_string();
        return false;
    }
    let a = text::dec_string(ok as u64);
    let b = text::dec_string(total as u64);
    app.status =
    text::cat5(
        "Submitted ",
        a.as_str(),
        "/",
        b.as_str(),
        " target(s) to LSF \u{2014} tracking live...",
    );
    true
}

/// Says how many targets are scanned here, or that there is nothing to scan.
pub fn note_planned(app: &mut App, targets: Option<usize>)
    ensures
        final(app).cfg == old(app).cfg,
        final(app)@ == screen::saying(
            old(app)@,
            match targets {
                Some(n) => "Scanning "@ + text::dec(n as nat)
                    + " target(s)\u{2026} (q to quit \u{2014} cancels the scan)"@,
                None => "Nothing to scan (no matching targets, or all past end_scan)."@,
            },
        ),
{
    match targets {
        Some(n) => {
            let d = text::dec_string(n as u64);
            app.status =
            text::cat3(
                "Scanning ",
                d.as_str(),
                " target(s)\u{2026} (q to quit \u{2014} cancels the scan)",
            );
        },
        None => {
            app.status = "Nothing to scan (no matching targets, or all past end_scan).".to_string();
        },
    }
}

/// Takes the configuration as it was read again after a scan.
pub fn scan_finished(app: &mut App, cfg: Config, lsf: bool)
    ensures
        final(app).cfg == cfg,
        final(app)@ == screen::saying(
            ScreenModel {
                cursor: screen::clamped(cfg.model(), old(app)@.cursor, old(app)@.filter_lower),
                ..old(app)@
            },
            if lsf {
                "LSF scan finished \u{2014} back to config."@
            } else {
                "Scan finished \u{2014} back to config."@
            },
        ),
{
    app.cfg = cfg;
    app.clamp_selections();
    app.status =
    if lsf {
        "LSF scan finished \u{2014} back to config.".to_string()
    } else {
        "Scan finished \u{2014} back to config.".to_string()
    };
}

// ---------------------------------------------------------------------------
// Following batch jobs
// ---------------------------------------------------------------------------

/// What is known of a target's batch job.
#[derive(Debug)]
pub struct LsfTargetProgress {
    pub name: String,
    pub phase: String,
    pub files: u64,
    pub dirs: u64,
    pub size_bytes: u64,
    pub error: String,
    pub elapsed_sec: i64,
    pub done: bool,
}

/// What a scan has written of itself.
#[derive(Debug)]
pub struct TargetStatus {
    pub stage: String,
    pub files: u64,
    pub dirs: u64,
    pub size_bytes: u64,
    pub error: String,
    pub total_elapsed_sec: i64,
    pub running: bool,
}

/// What is known of a target's batch job.
#[verifier::ext_equal]
pub struct ProgressModel {
    pub name: Seq<char>,
    pub phase: Seq<char>,
    pub files: u64,
    pub dirs: u64,
    pub size_bytes: u64,
    pub error: Seq<char>,
    pub elapsed_sec: i64,
    pub done: bool,
}

impl View for LsfTargetProgress {
    type V = ProgressModel;

    open spec fn view(&self) -> ProgressModel {
        ProgressModel {
            name: self.name@,
            phase: self.phase@,
            files: self.files,
            dirs: self.dirs,
            size_bytes: self.size_bytes,
            error: self.error@,
            elapsed_sec: self.elapsed_sec,
            done: self.done,
        }
    }
}

/// What is known of several targets' batch jobs.
pub open spec fn progress_views(v: Seq<LsfTargetProgress>) -> Seq<ProgressModel> {
    Seq::new(v.len(), |i: int| v[i]@)
}

/// A job that was submitted.
pub open spec fn submitted(name: Seq<char>) -> ProgressModel {
    ProgressModel {
        name,
        phase: "submitted"@,
        files: 0,
        dirs: 0,
        size_bytes: 0,
        error: Seq::empty(),
        elapsed_sec: 0,
        done: false,
    }
}

/// A job that was looked at `waited` seconds after the first was submitted: what
/// it wrote of itself, or that it still waits.
pub open spec fn polled(p: ProgressModel, s: Option<TargetStatus>, waited: i64) -> ProgressModel {
    match s {
        Some(s) => ProgressModel {
            name: p.name,
            phase: s.stage@,
            files: s.files,
            dirs: s.dirs,
            size_bytes: s.size_bytes,
            error: s.error@,
            elapsed_sec: s.total_elapsed_sec,
            done: !s.running,
        },
        None => if p.phase == "submitted"@ {
            ProgressModel { elapsed_sec: waited, ..p }
        } else {
            p
        },
    }
}

/// Whether a job that was looked at keeps the others waiting.
pub open spec fn holds_up(p: ProgressModel, s: Option<TargetStatus>) -> bool {
    match s {
        Some(s) => s.running,
        None => p.phase == "submitted"@,
    }
}

/// The jobs of targets, all submitted.
pub fn submitted_jobs(targets: &Vec<String>) -> (r: Vec<LsfTargetProgress>)
    ensures
        progress_views(r@) == text::strs(targets@).map_values(|n: Seq<char>| submitted(n)),
{
    let ghost all = text::strs(targets@);
    let mut out: Vec<LsfTargetProgress> = Vec::new();
    let mut i: usize = 0;
    while i < targets.len()
        invariant
            i <= targets@.len(),
            all == text::strs(targets@),
            out@.len() == i,
            forall|k: int| 0 <= k < i ==> (#[trigger] out@[k])@ == submitted(all[k]),
        decreases targets@.len() - i,
    {
        assert(all[i as int] == targets@[i as int]@);
        let p = LsfTargetProgress {
            name: targets[i].clone(),
            phase: "submitted".to_string(),
            files: 0,
            dirs: 0,
            size_bytes: 0,
            error: String::new(),
            elapsed_sec: 0,
            done: false,
        };
        assert(p@.error =~= Seq::<char>::empty());
        out.push(p);
        i = i + 1;
    }
    assert(progress_views(out@) =~= all.map_values(|n: Seq<char>| submitted(n)));
    out
}

/// Looks at every job, `waited` seconds after the first was submitted, and returns
/// whether none is still to be waited for. `statuses` is what each wrote of itself.
pub fn poll_jobs(
    jobs: &mut Vec<LsfTargetProgress>,
    statuses: &Vec<Option<TargetStatus>>,
    waited: i64,
) -> (r: bool)
    requires
        statuses@.len() == old(jobs)@.len(),
    ensures
        progress_views(final(jobs)@) == Seq::new(
            old(jobs)@.len(),
            |i: int| polled(old(jobs)@[i]@, statuses@[i], waited),
        ),
        r == forall|i: int|
            0 <= i < old(jobs)@.len() ==> !holds_up(old(jobs)@[i]@, #[trigger] statuses@[i]),
{
    let ghost start = jobs@;
    let mut all = true;
    let mut i: usize = 0;
    while i < jobs.len()
        invariant
            i <= jobs@.len(),
            jobs@.len() == start.len(),
            statuses@.len() == start.len(),
            forall|k: int|
                0 <= k < i ==> (#[trigger] jobs@[k])@ == polled(start[k]@, statuses@[k], waited),
            forall|k: int| i <= k < start.len() ==> jobs@[k] == #[trigger] start[k],
            all == forall|k: int| 0 <= k < i ==> !holds_up(start[k]@, #[trigger] statuses@[k]),
        decreases jobs@.len() - i,
    {
        assert(jobs@[i as int] == start[i as int]);
        let ghost held = holds_up(start[i as int]@, statuses@[i as int]);
        match &statuses[i] {
            Some(s) => {
                let now = LsfTargetProgress {
                    name: jobs[i].name.clone(),
                    phase: s.stage.clone(),
                    files: s.files,
                    dirs: s.dirs,
                    size_bytes: s.size_bytes,
                    error: s.error.clone(),
                    elapsed_sec: s.total_elapsed_sec,
                    done: !s.running,
                };
                jobs.set(i, now);
                if s.running {
                    all = false;
                }
            },
            None => {
                if text::str_eq(jobs[i].phase.as_str(), "submitted") {
                    let j: &mut LsfTargetProgress = &mut jobs[i];
                    j.elapsed_sec = waited;
                    all = false;
                }
            },
        }
        i = i + 1;
    }
    assert(progress_views(jobs@) =~= Seq::new(
        start.len(),
        |k: int| polled(start[k]@, statuses@[k], waited),
    ));
    all
}

/// Whether there are jobs and all are done.
pub fn jobs_done(jobs: &Vec<LsfTargetProgress>) -> (r: bool)
    ensures
        r == (jobs@.len() > 0 && forall|i: int| 0 <= i < jobs@.len() ==> (#[trigger] jobs@[i]).done),
{
    if jobs.len() == 0 {
        return false;
    }
    let mut i: usize = 0;
    while i < jobs.len()
        invariant
            i <= jobs@.len(),
            forall|k: int| 0 <= k < i ==> (#[trigger] jobs@[k]).done,
        decreases jobs@.len() - i,
    {
        if !jobs[i].done {
            return false;
        }
        i = i + 1;
    }
    true
}

/// Once every job has written that it ended, all are done and none is waited for.
pub proof fn law_ended_jobs_are_done(
    jobs: Seq<ProgressModel>,
    statuses: Seq<Option<TargetStatus>>,
    waited: i64,
)
    requires
        statuses.len() == jobs.len(),
        forall|i: int|
            0 <= i < jobs.len() ==> (#[trigger] statuses[i] matches Some(s) && !s.running),
    ensures
        forall|i: int|
            0 <= i < jobs.len() ==> !holds_up(jobs[i], statuses[i]) && (#[trigger] polled(
                jobs[i],
                statuses[i],
                waited,
            )).done,
{
    assert forall|i: int| 0 <= i < jobs.len() implies !holds_up(jobs[i], statuses[i]) && (
    #[trigger] polled(jobs[i], statuses[i], waited)).done by {
        assert(statuses[i] is Some);
    }
}

/// The text of a phase.
pub open spec fn phase_label(phase: Seq<char>) -> Seq<char> {
    if phase == "waiting"@ {
        "Waiting"@
    } else if phase == "queued"@ {
        "Queued"@
    } else if phase == "scanning"@ {
        "Scanning"@
    } else if phase == "building"@ {
        "Building detail"@
    } else if phase == "treemap"@ {
        "Building treemap"@
    } else if phase == "merging"@ {
        "Merging"@
    } else if phase == "history"@ {
        "History"@
    } else if phase == "syncing"@ {
        "Syncing"@
    } else if phase == "done"@ {
        "Done"@
    } else if phase == "error"@ {
        "Error"@
    } else {
        phase
    }
}

/// The text of a phase.
pub fn phase_display(phase: &str) -> (r: String)
    ensures
        r@ == phase_label(phase@),
{
    if text::str_eq(phase, "waiting") {
        "Waiting".to_string()
    } else if text::str_eq(phase, "queued") {
        "Queued".to_string()
    } else if text::str_eq(phase, "scanning") {
        "Scanning".to_string()
    } else if text::str_eq(phase, "building") {
        "Building detail".to_string()
    } else if text::str_eq(phase, "treemap") {
        "Building treemap".to_string()
    } else if text::str_eq(phase, "merging") {
        "Merging".to_string()
    } else if text::str_eq(phase, "history") {
        "History".to_string()
    } else if text::str_eq(phase, "syncing") {
        "Syncing".to_string()
    } else if text::str_eq(phase, "done") {
        "Done".to_string()
    } else if text::str_eq(phase, "error") {
        "Error".to_string()
    } else {
        phase.to_string()
    }
}

/// The start of a job's row: whose it is, and how far.
pub open spec fn job_head(name: Seq<char>, phase: Seq<char>) -> Seq<char> {
    text::pad_right(display::truncated(name, 16), 16) + text::pad_right(phase_label(phase), 18)
}

/// What is counted of a job.
pub open spec fn job_counts(files: u64, dirs: u64, size: u64) -> Seq<char> {
    "  "@ + text::group3(text::dec(files as nat)) + " files \u{b7} "@ + text::group3(text::dec(dirs as nat))
        + " dirs \u{b7} "@ + display::size_text((size as i64) as int)
}

/// The rest of a batch job's row: its error, that it waits, or what it counted and
/// the seconds it took.
pub open spec fn job_tail(p: ProgressModel) -> Seq<char> {
    if p.phase == "error"@ && p.error.len() > 0 {
        "  "@ + p.error
    } else if p.phase == "submitted"@ {
        "  waiting for job to start..."@
    } else {
        job_counts(p.files, p.dirs, p.size_bytes) + "  |  "@ + text::dec_int(p.elapsed_sec as int)
            + ".0s"@
    }
}

fn padded(s: &str, w: usize) -> (r: String)
    ensures
        r@ == text::pad_right(s@, w as nat),
{
    let cs = text::to_chars(s);
    let v = text::pad_right_chars(&cs, w);
    text::from_chars(&v)
}

/// The start of a job's row.
pub fn job_row_head(name: &str, phase: &str) -> (r: String)
    ensures
        r@ == job_head(name@, phase@),
{
    let a = display::truncate(name, 16);
    let a = padded(a.as_str(), 16);
    let b = phase_display(phase);
    let b = padded(b.as_str(), 18);
    text::cat2(a.as_str(), b.as_str())
}

/// What is counted of a job.
pub fn job_row_counts(files: u64, dirs: u64, size: u64) -> (r: String)
    ensures
        r@ == job_counts(files, dirs, size),
{
    let f = display::fmt_count(files);
    let d = display::fmt_count(dirs);
    let s = display::fmt_size(#[verifier::truncate] (size as i64));
    let head = text::cat5("  ", f.as_str(), " files \u{b7} ", d.as_str(), " dirs \u{b7} ");
    text::cat2(head.as_str(), s.as_str())
}

/// The rest of a batch job's row.
pub fn job_row_tail(p: &LsfTargetProgress) -> (r: String)
    ensures
        r@ == job_tail(p@),
{
    if text::str_eq(p.phase.as_str(), "error") && !p.error.as_str().is_empty() {
        return text::cat2("  ", p.error.as_str());
    }
    if text::str_eq(p.phase.as_str(), "submitted") {
        return "  waiting for job to start...".to_string();
    }
    let counts = job_row_counts(p.files, p.dirs, p.size_bytes);
    let secs = text::dec_int_string(p.elapsed_sec);
    text::cat4(counts.as_str(), "  |  ", secs.as_str(), ".0s")
}

// ---------------------------------------------------------------------------
// Exporting
// ---------------------------------------------------------------------------

/// Where an export goes, and what is said while it runs.
pub struct ExportPlan {
    pub dest: String,
    pub starting: String,
}

/// Why an export does not start.
pub open spec fn export_refusal(
    ts: Seq<TargetModel>,
    c: Cursor,
    running: bool,
    has_report: bool,
) -> Option<Seq<char>> {
    if running {
        Some("Export already in progress\u{2026}"@)
    } else if screen::target_name(ts, c) is None {
        Some("No target selected."@)
    } else if !has_report {
        Some("No report yet \u{2014} press r to scan this target first."@)
    } else {
        None
    }
}

/// The directory of an export: the target's own below its export directory, or
/// below `exports`.
pub open spec fn export_dest(t: TargetModel) -> Seq<char> {
    paths::joined(
        match t.overrides.export_dir {
            Some(d) => d,
            None => "exports"@,
        },
        t.name,
    )
}

/// Where an export of one user or of all goes. `running` says whether one runs
/// already, `has_report` whether the selected target has been scanned.
pub fn export_from_output(app: &App, only_user: &Option<String>, running: bool, has_report: bool)
    -> (r: Result<ExportPlan, String>)
    ensures
        match r {
            Ok(p) => {
                &&& export_refusal(app.cfg.model(), app@.cursor, running, has_report) is None
                &&& p.dest@ == export_dest(app.cfg.model()[app@.cursor.target as int])
                &&& p.starting@ == (match text::opt(*only_user) {
                    Some(u) => "Exporting "@ + u + "\u{2026}"@,
                    None => "Exporting all users\u{2026}"@,
                })
            },
            Err(e) => export_refusal(app.cfg.model(), app@.cursor, running, has_report) == Some(e@),
        },
{
    if running {
        return Err("Export already in progress\u{2026}".to_string());
    }
    if app.cursor.target >= app.cfg.targets.len() {
        return Err("No target selected.".to_string());
    }
    if !has_report {
        return Err("No report yet \u{2014} press r to scan this target first.".to_string());
    }
    let t = &app.cfg.targets[app.cursor.target];
    assert(app.cfg.model()[app.cursor.target as int] == t@);
    let base = match &t.export_dir {
        Some(d) => d.clone(),
        None => "exports".to_string(),
    };
    let dest = paths::join_path(base.as_str(), t.name.as_str());
    let starting = match only_user {
        Some(u) => text::cat3("Exporting ", u.as_str(), "\u{2026}"),
        None => "Exporting all users\u{2026}".to_string(),
    };
    Ok(ExportPlan { dest, starting })
}

/// What is said of an export that has ended.
pub fn export_outcome(done: &Result<usize, String>, dest: &str) -> (r: String)
    ensures
        r@ == (match *done {
            Ok(n) => "Exported "@ + text::dec(n as nat) + " user(s) -> "@ + dest@,
            Err(e) => "Export failed: "@ + e@,
        }),
{
    match done {
        Ok(n) => {
            let d = text::dec_string(*n as u64);
            text::cat4("Exported ", d.as_str(), " user(s) -> ", dest)
        },
        Err(e) => text::cat2("Export failed: ", e.as_str()),
    }
}

/// A job that wrote a status is shown as the status says, under its own name, and is done
/// exactly when it no longer runs; one that wrote none stays as it was, but that the time
/// of one that waits to start goes on.
pub proof fn law_polled_jobs(p: ProgressModel, s: TargetStatus, waited: i64)
    ensures
        ({
            let now = polled(p, Some(s), waited);
            &&& now.name == p.name
            &&& now.phase == s.stage@
            &&& now.files == s.files
            &&& now.dirs == s.dirs
            &&& now.size_bytes == s.size_bytes
            &&& now.error == s.error@
            &&& now.elapsed_sec == s.total_elapsed_sec
            &&& now.done <==> !s.running
        }),
        ({
            let now = polled(p, None, waited);
            &&& now.name == p.name && now.phase == p.phase && now.files == p.files && now.dirs
                == p.dirs && now.size_bytes == p.size_bytes && now.error == p.error && now.done
                == p.done
            &&& now.elapsed_sec == (if p.phase == "submitted"@ {
                waited
            } else {
                p.elapsed_sec
            })
        }),
        holds_up(p, Some(s)) <==> s.running,
        holds_up(p, None) <==> p.phase == "submitted"@,
{
}

/// The row of a job tells its error where it failed with one, that it waits where it has
/// not begun, and else its files, its directories and its size, each with its own word,
/// and the seconds that it took.
pub proof fn law_rows_of_jobs(p: ProgressModel)
    requires
        p.size_bytes <= i64::MAX,
    ensures
        p.phase == "error"@ && p.error.len() > 0 ==> job_tail(p) == "  "@ + p.error,
        p.phase == "submitted"@ ==> job_tail(p) == "  waiting for job to start..."@,
        p.phase != "submitted"@ && !(p.phase == "error"@ && p.error.len() > 0) ==> job_tail(p)
            == "  "@ + text::group3(text::dec(p.files as nat)) + " files \u{b7} "@ + text::group3(
            text::dec(p.dirs as nat),
        ) + " dirs \u{b7} "@ + display::size_text(p.size_bytes as int) + "  |  "@ + text::dec_int(
            p.elapsed_sec as int,
        ) + ".0s"@,
{
    reveal_strlit("error");
    reveal_strlit("submitted");
    assert("error"@.len() != "submitted"@.len());
}

} // verus!
