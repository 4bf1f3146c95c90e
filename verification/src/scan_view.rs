//! One target of a scan: which targets are due, with which settings, and what
//! follows what from the scan to the notification.

use crate::scheduler::DeviceGroup;
use crate::scheduler::PhysicalRoot;
use crate::scheduler::ScanPlan;
use crate::scheduler::TargetView;
use crate::text;
use vstd::prelude::*;

verus! {

// ---------------------------------------------------------------------------
// Jobs
// ---------------------------------------------------------------------------

/// The place of a target in a plan: the tree and the target in it.
#[derive(PartialEq, Eq, Structural, Copy, Clone, Debug)]
pub struct JobPlace {
    pub root: usize,
    pub view: usize,
}

/// The targets of one device that are due.
pub struct GroupJobs {
    pub group: usize,
    pub workers: usize,
    pub jobs: Vec<JobPlace>,
}

/// Whether a target is past its last day.
pub open spec fn is_past(today: Seq<char>, end_scan: Option<Seq<char>>) -> bool {
    end_scan matches Some(e) && text::lex_lt(e, today)
}

/// Whether a target is past its last day; days are written `yyyymmdd`.
pub fn past_end(today: &str, end_scan: &Option<String>) -> (r: bool)
    ensures
        r == is_past(today@, text::opt(*end_scan)),
{
    match end_scan {
        Some(e) => {
            let a = text::to_chars(e.as_str());
            let b = text::to_chars(today);
            text::chars_lt(&a, &b)
        },
        None => false,
    }
}

/// The first `n` targets of a tree that are due.
pub open spec fn due_views(views: Seq<TargetView>, today: Seq<char>, r: int, n: int) -> Seq<
    (int, int),
>
    decreases n,
{
    if n <= 0 {
        Seq::empty()
    } else {
        let before = due_views(views, today, r, n - 1);
        if is_past(today, text::opt(views[n - 1].end_scan)) {
            before
        } else {
            before.push((r, n - 1))
        }
    }
}

/// The targets of the first `n` trees that are due.
pub open spec fn due_roots(roots: Seq<PhysicalRoot>, today: Seq<char>, n: int) -> Seq<(int, int)>
    decreases n,
{
    if n <= 0 {
        Seq::empty()
    } else {
        let views = roots[n - 1].views@;
        due_roots(roots, today, n - 1) + due_views(views, today, n - 1, views.len() as int)
    }
}

/// Places as pairs.
pub open spec fn place_views(v: Seq<JobPlace>) -> Seq<(int, int)> {
    Seq::new(v.len(), |i: int| (v[i].root as int, v[i].view as int))
}

/// The devices, among the first `n`, on which a target is due.
pub open spec fn due_groups(groups: Seq<DeviceGroup>, today: Seq<char>, n: int) -> Seq<int>
    decreases n,
{
    if n <= 0 {
        Seq::empty()
    } else {
        let before = due_groups(groups, today, n - 1);
        let roots = groups[n - 1].roots@;
        if due_roots(roots, today, roots.len() as int).len() > 0 {
            before.push(n - 1)
        } else {
            before
        }
    }
}

fn due_on(roots: &Vec<PhysicalRoot>, today: &str) -> (r: Vec<JobPlace>)
    ensures
        place_views(r@) == due_roots(roots@, today@, roots@.len() as int),
{
    let mut out: Vec<JobPlace> = Vec::new();
    let mut i: usize = 0;
    assert(place_views(out@) =~= Seq::<(int, int)>::empty());
    while i < roots.len()
        invariant
            i <= roots.len(),
            place_views(out@) == due_roots(roots@, today@, i as int),
        decreases roots.len() - i,
    {
        let views: &Vec<TargetView> = &roots[i].views;
        let ghost head = place_views(out@);
        let mut k: usize = 0;
        assert(head + due_views(views@, today@, i as int, 0) =~= head);
        while k < views.len()
            invariant
                k <= views.len(),
                place_views(out@) == head + due_views(views@, today@, i as int, k as int),
            decreases views.len() - k,
        {
            let ghost before = place_views(out@);
            if !past_end(today, &views[k].end_scan) {
                out.push(JobPlace { root: i, view: k });
                assert(place_views(out@) =~= before.push((i as int, k as int)));
                assert(place_views(out@) =~= head + due_views(
                    views@,
                    today@,
                    i as int,
                    k + 1,
                ));
            }
            k = k + 1;
        }
        i = i + 1;
    }
    out
}

/// `j` lists what is due on the device at `g`.
pub open spec fn is_group_jobs(
    j: GroupJobs,
    groups: Seq<DeviceGroup>,
    g: int,
    today: Seq<char>,
) -> bool {
    let roots = groups[g].roots@;
    &&& 0 <= g < groups.len()
    &&& j.group == g
    &&& j.workers == groups[g].workers
    &&& place_views(j.jobs@) == due_roots(roots, today, roots.len() as int)
}

/// The targets of a plan that are due, device by device; a device without any is
/// left out. Nothing is due where the result is empty.
pub fn plan_scan_jobs(plan: &ScanPlan, today: &str) -> (r: Vec<GroupJobs>)
    ensures
        ({
            let groups = plan.groups@;
            let due = due_groups(groups, today@, groups.len() as int);
            &&& r@.len() == due.len()
            &&& forall|i: int|
                0 <= i < r@.len() ==> is_group_jobs(#[trigger] r@[i], groups, due[i], today@)
        }),
{
    let ghost groups = plan.groups@;
    let mut out: Vec<GroupJobs> = Vec::new();
    let mut n: usize = 0;
    while n < plan.groups.len()
        invariant
            n <= plan.groups@.len(),
            groups == plan.groups@,
            out@.len() == due_groups(groups, today@, n as int).len(),
            forall|i: int|
                0 <= i < out@.len() ==> is_group_jobs(
                    #[trigger] out@[i],
                    groups,
                    due_groups(groups, today@, n as int)[i],
                    today@,
                ),
        decreases plan.groups@.len() - n,
    {
        let ghost before = due_groups(groups, today@, n as int);
        let ghost now = due_groups(groups, today@, n + 1);
        let ghost had = out@;
        let jobs = due_on(&plan.groups[n].roots, today);
        assert(place_views(jobs@).len() == jobs@.len());
        if jobs.len() > 0 {
            out.push(GroupJobs { group: n, workers: plan.groups[n].workers, jobs });
        }
        proof {
            assert forall|i: int| 0 <= i < out@.len() implies is_group_jobs(
                #[trigger] out@[i],
                groups,
                now[i],
                today@,
            ) by {
                if i < had.len() {
                    assert(out@[i] == had[i]);
                    assert(now[i] == before[i]);
                }
            }
        }
        n = n + 1;
    }
    out
}

/// How many devices are scanned at a time; a limit of 0 is none.
pub fn device_permits(max_parallel_devices: i64) -> (r: usize)
    ensures
        r == (if max_parallel_devices <= 0 || max_parallel_devices > usize::MAX {
            usize::MAX as int
        } else {
            max_parallel_devices as int
        }),
{
    if max_parallel_devices <= 0 {
        usize::MAX
    } else if max_parallel_devices as u64 > usize::MAX as u64 {
        usize::MAX
    } else {
        max_parallel_devices as usize
    }
}

// ---------------------------------------------------------------------------
// Settings
// ---------------------------------------------------------------------------

/// With which settings a target is scanned.
#[derive(PartialEq, Eq, Structural, Copy, Clone, Debug)]
pub struct ViewSettings {
    pub tree_map: bool,
    pub level: usize,
    pub workers: usize,
}

/// A number as a count within a type's range.
pub open spec fn count_of(n: i64, least: int) -> int {
    if n < least {
        least
    } else if n > usize::MAX {
        usize::MAX as int
    } else {
        n as int
    }
}

/// The settings of a target: its overrides where it has them, else the defaults.
pub fn view_settings(
    tree_map: Option<bool>,
    level: Option<i64>,
    workers: Option<i64>,
    default_tree_map: bool,
    default_level: usize,
    group_workers: usize,
) -> (r: ViewSettings)
    ensures
        r.tree_map == (match tree_map {
            Some(b) => b,
            None => default_tree_map,
        }),
        r.level == (match level {
            Some(n) => count_of(n, 0),
            None => default_level as int,
        }),
        r.workers == (match workers {
            Some(n) => count_of(n, 1),
            None => group_workers as int,
        }),
{
    let t: bool = match tree_map {
        Some(b) => b,
        None => default_tree_map,
    };
    let l: usize = match level {
        Some(n) => if n < 0 {
            0
        } else if n as u64 > usize::MAX as u64 {
            usize::MAX
        } else {
            n as usize
        },
        None => default_level,
    };
    let w: usize = match workers {
        Some(n) => if n < 1 {
            1
        } else if n as u64 > usize::MAX as u64 {
            usize::MAX
        } else {
            n as usize
        },
        None => group_workers,
    };
    ViewSettings { tree_map: t, level: l, workers: w }
}

// ---------------------------------------------------------------------------
// From the scan to the notification
// ---------------------------------------------------------------------------

/// What of a target decides how its scan goes on.
pub struct ViewJob {
    pub tree_map: bool,
    pub sync_host: Option<String>,
    pub sync_dest_dir: Option<String>,
    pub webhook_url: Option<String>,
}

/// What is done next for a target.
#[derive(PartialEq, Eq, Structural, Copy, Clone, Debug)]
pub enum ViewAction {
    /// Scan the tree.
    Scan,
    /// Wait until no other target is built.
    WaitForSlot,
    /// Build the detail database.
    BuildDetail,
    /// Build the treemap.
    BuildTreemap,
    /// Merge the databases into the report.
    Merge,
    /// Remove what was merged and write the snapshot.
    WriteHistory,
    /// Write the scan's log.
    WriteLog,
    /// Mirror the report to the target's host.
    Sync,
    /// Say that the target has a host but no directory to mirror to.
    SkipSync,
    /// Send the notification.
    Notify,
    /// Nothing: the target is done.
    Stop,
}

/// What came of a scan: counts, whether it was asked to stop, and whether it
/// left anything to build a report from.
#[derive(PartialEq, Eq, Structural, Copy, Clone, Debug)]
pub struct ScanTotals {
    pub files: u64,
    pub dirs: u64,
    pub size: u64,
    pub cancelled: bool,
    pub has_records: bool,
}

/// How what was done went.
pub enum ViewEvent {
    Scanned(Result<ScanTotals, String>),
    SlotTaken,
    /// Whether the treemap's figures are there.
    DetailBuilt(Result<bool, String>),
    TreemapBuilt,
    Merged(bool),
    HistoryWritten,
    LogWritten,
    SyncDone,
    Notified,
}

/// What the status file says.
pub struct ViewStatus {
    pub stage: &'static str,
    pub running: bool,
    pub message: &'static str,
    pub error: String,
    pub files: u64,
    pub dirs: u64,
    pub size: u64,
    /// Whether the phase began with the build of the report.
    pub since_build: bool,
}

#[verifier::ext_equal]
pub struct StatusModel {
    pub stage: Seq<char>,
    pub running: bool,
    pub message: Seq<char>,
    pub error: Seq<char>,
    pub files: u64,
    pub dirs: u64,
    pub size: u64,
    pub since_build: bool,
}

impl View for ViewStatus {
    type V = StatusModel;

    open spec fn view(&self) -> StatusModel {
        StatusModel {
            stage: self.stage@,
            running: self.running,
            message: self.message@,
            error: self.error@,
            files: self.files,
            dirs: self.dirs,
            size: self.size,
            since_build: self.since_build,
        }
    }
}

/// One step: what is done next, the phase that is shown where it changes, and
/// the status that is written where one is.
pub struct ViewStep {
    pub action: ViewAction,
    pub phase: Option<&'static str>,
    pub status: Option<ViewStatus>,
}

#[verifier::ext_equal]
pub struct StepModel {
    pub action: ViewAction,
    pub phase: Option<Seq<char>>,
    pub status: Option<StatusModel>,
}

impl View for ViewStep {
    type V = StepModel;

    open spec fn view(&self) -> StepModel {
        StepModel {
            action: self.action,
            phase: match self.phase {
                Some(p) => Some(p@),
                None => None,
            },
            status: match self.status {
                Some(s) => Some(s@),
                None => None,
            },
        }
    }
}

/// The scan of one target.
pub struct ViewRun {
    pub action: ViewAction,
    pub files: u64,
    pub dirs: u64,
    pub size: u64,
    pub merged: bool,
}

/// A status of a run.
pub open spec fn status_of(
    run: ViewRun,
    stage: Seq<char>,
    running: bool,
    message: Seq<char>,
    error: Seq<char>,
    since_build: bool,
) -> Option<StatusModel> {
    Some(
        StatusModel {
            stage,
            running,
            message,
            error,
            files: run.files,
            dirs: run.dirs,
            size: run.size,
            since_build,
        },
    )
}

/// A step without a status.
pub open spec fn quiet(action: ViewAction, phase: Option<Seq<char>>) -> StepModel {
    StepModel { action, phase, status: None }
}

/// The end of a run.
pub open spec fn finish(run: ViewRun) -> StepModel {
    StepModel {
        action: ViewAction::Stop,
        phase: Some("done"@),
        status: status_of(run, "done"@, false, "Scan complete"@, Seq::empty(), true),
    }
}

/// What follows the synchronisation: the notification, where the target has one.
pub open spec fn after_sync(job: ViewJob, run: ViewRun) -> StepModel {
    if job.webhook_url is Some {
        quiet(ViewAction::Notify, None)
    } else {
        finish(run)
    }
}

/// A run with the counts of a scan.
pub open spec fn counted(run: ViewRun, t: ScanTotals) -> ViewRun {
    ViewRun { files: t.files, dirs: t.dirs, size: t.size, ..run }
}

/// The run and its next step after an event. An event that does not belong to
/// what was done changes nothing.
pub open spec fn next_step(job: ViewJob, run: ViewRun, e: ViewEvent) -> (ViewRun, StepModel) {
    match (run.action, e) {
        (ViewAction::Scan, ViewEvent::Scanned(r)) => match r {
            Err(x) => (
                run,
                StepModel {
                    action: ViewAction::Stop,
                    phase: Some("error"@),
                    status: Some(
                        StatusModel {
                            stage: "error"@,
                            running: false,
                            message: Seq::empty(),
                            error: x@,
                            files: 0,
                            dirs: 0,
                            size: 0,
                            since_build: false,
                        },
                    ),
                },
            ),
            Ok(t) => {
                let run = counted(run, t);
                if t.cancelled {
                    (
                        run,
                        StepModel {
                            action: ViewAction::Stop,
                            phase: Some("done"@),
                            status: status_of(
                                run,
                                "cancelled"@,
                                false,
                                "Scan cancelled"@,
                                Seq::empty(),
                                false,
                            ),
                        },
                    )
                } else if !t.has_records {
                    (
                        run,
                        StepModel {
                            action: ViewAction::Stop,
                            phase: Some("done"@),
                            status: status_of(
                                run,
                                "done"@,
                                false,
                                "Scan complete"@,
                                Seq::empty(),
                                false,
                            ),
                        },
                    )
                } else {
                    (
                        run,
                        StepModel {
                            action: ViewAction::WaitForSlot,
                            phase: Some("queued"@),
                            status: status_of(
                                run,
                                "queued"@,
                                true,
                                "Waiting for build slot"@,
                                Seq::empty(),
                                false,
                            ),
                        },
                    )
                }
            },
        },
        (ViewAction::WaitForSlot, ViewEvent::SlotTaken) => (
            run,
            StepModel {
                action: ViewAction::BuildDetail,
                phase: Some("building"@),
                status: status_of(run, "building"@, true, "Phase 2 detail"@, Seq::empty(), true),
            },
        ),
        (ViewAction::BuildDetail, ViewEvent::DetailBuilt(r)) => match r {
            Err(x) => (
                run,
                StepModel {
                    action: ViewAction::Stop,
                    phase: Some("error"@),
                    status: status_of(run, "error"@, false, Seq::empty(), x@, true),
                },
            ),
            Ok(figures) => if job.tree_map && figures {
                (run, quiet(ViewAction::BuildTreemap, Some("treemap"@)))
            } else {
                (run, quiet(ViewAction::Merge, Some("merging"@)))
            },
        },
        (ViewAction::BuildTreemap, ViewEvent::TreemapBuilt) => (
            run,
            quiet(ViewAction::Merge, Some("merging"@)),
        ),
        (ViewAction::Merge, ViewEvent::Merged(ok)) => {
            let run = ViewRun { merged: ok, ..run };
            if ok {
                (run, quiet(ViewAction::WriteHistory, Some("history"@)))
            } else {
                (run, quiet(ViewAction::WriteLog, None))
            }
        },
        (ViewAction::WriteHistory, ViewEvent::HistoryWritten) => (
            run,
            quiet(ViewAction::WriteLog, None),
        ),
        (ViewAction::WriteLog, ViewEvent::LogWritten) => if !run.merged {
            (run, finish(run))
        } else if job.sync_host is Some && job.sync_dest_dir is Some {
            (run, quiet(ViewAction::Sync, Some("syncing"@)))
        } else if job.sync_host is Some {
            (run, quiet(ViewAction::SkipSync, None))
        } else {
            (run, after_sync(job, run))
        },
        (ViewAction::Sync, ViewEvent::SyncDone) => (run, after_sync(job, run)),
        (ViewAction::SkipSync, ViewEvent::SyncDone) => (run, after_sync(job, run)),
        (ViewAction::Notify, ViewEvent::Notified) => (run, finish(run)),
        _ => (run, quiet(run.action, None)),
    }
}

impl ViewRun {
    fn status(
        &self,
        stage: &'static str,
        running: bool,
        message: &'static str,
        error: String,
        since_build: bool,
    ) -> (r: Option<ViewStatus>)
        ensures
            r is Some,
            Some(r->0@) == status_of(*self, stage@, running, message@, error@, since_build),
    {
        Some(
            ViewStatus {
                stage,
                running,
                message,
                error,
                files: self.files,
                dirs: self.dirs,
                size: self.size,
                since_build,
            },
        )
    }

    fn finished(&self) -> (r: ViewStep)
        ensures
            r@ == finish(*self),
    {
        let none = String::new();
        assert(none@ =~= Seq::<char>::empty());
        ViewStep {
            action: ViewAction::Stop,
            phase: Some("done"),
            status: self.status("done", false, "Scan complete", none, true),
        }
    }

    fn synced(&self, job: &ViewJob) -> (r: ViewStep)
        ensures
            r@ == after_sync(*job, *self),
    {
        if job.webhook_url.is_some() {
            ViewStep { action: ViewAction::Notify, phase: None, status: None }
        } else {
            self.finished()
        }
    }

    /// The scan of a target from its beginning.
    pub fn start() -> (r: (Self, ViewStep))
        ensures
            r.0 == (ViewRun {
                action: ViewAction::Scan,
                files: 0,
                dirs: 0,
                size: 0,
                merged: false,
            }),
            r.1@ == (StepModel {
                action: ViewAction::Scan,
                phase: Some("scanning"@),
                status: status_of(
                    r.0,
                    "scanning"@,
                    true,
                    "Phase 1 scan"@,
                    Seq::empty(),
                    false,
                ),
            }),
    {
        let run = ViewRun { action: ViewAction::Scan, files: 0, dirs: 0, size: 0, merged: false };
        let none = String::new();
        assert(none@ =~= Seq::<char>::empty());
        let status = run.status("scanning", true, "Phase 1 scan", none, false);
        (run, ViewStep { action: ViewAction::Scan, phase: Some("scanning"), status })
    }

    /// Takes the run past an event.
    pub fn advance(&mut self, job: &ViewJob, event: ViewEvent) -> (r: ViewStep)
        ensures
            r@ == next_step(*job, *old(self), event).1,
            *final(self) == (ViewRun { action: r.action, ..next_step(*job, *old(self), event).0 }),
    {
        let none = String::new();
        assert(none@ =~= Seq::<char>::empty());
        let blank = "";
        proof {
            reveal_strlit("");
            assert(blank@ =~= Seq::<char>::empty());
        }
        let step = match (self.action, event) {
            (ViewAction::Scan, ViewEvent::Scanned(r)) => match r {
                Err(x) => {
                    let status = ViewStatus {
                        stage: "error",
                        running: false,
                        message: blank,
                        error: x,
                        files: 0,
                        dirs: 0,
                        size: 0,
                        since_build: false,
                    };
                    ViewStep {
                        action: ViewAction::Stop,
                        phase: Some("error"),
                        status: Some(status),
                    }
                },
                Ok(t) => {
                    self.files = t.files;
                    self.dirs = t.dirs;
                    self.size = t.size;
                    if t.cancelled {
                        ViewStep {
                            action: ViewAction::Stop,
                            phase: Some("done"),
                            status: self.status("cancelled", false, "Scan cancelled", none, false),
                        }
                    } else if !t.has_records {
                        ViewStep {
                            action: ViewAction::Stop,
                            phase: Some("done"),
                            status: self.status("done", false, "Scan complete", none, false),
                        }
                    } else {
                        ViewStep {
                            action: ViewAction::WaitForSlot,
                            phase: Some("queued"),
                            status: self.status(
                                "queued",
                                true,
                                "Waiting for build slot",
                                none,
                                false,
                            ),
                        }
                    }
                },
            },
            (ViewAction::WaitForSlot, ViewEvent::SlotTaken) => ViewStep {
                action: ViewAction::BuildDetail,
                phase: Some("building"),
                status: self.status("building", true, "Phase 2 detail", none, true),
            },
            (ViewAction::BuildDetail, ViewEvent::DetailBuilt(r)) => match r {
                Err(x) => ViewStep {
                    action: ViewAction::Stop,
                    phase: Some("error"),
                    status: self.status("error", false, blank, x, true),
                },
                Ok(figures) => if job.tree_map && figures {
                    ViewStep {
                        action: ViewAction::BuildTreemap,
                        phase: Some("treemap"),
                        status: None,
                    }
                } else {
                    ViewStep { action: ViewAction::Merge, phase: Some("merging"), status: None }
                },
            },
            (ViewAction::BuildTreemap, ViewEvent::TreemapBuilt) => ViewStep {
                action: ViewAction::Merge,
                phase: Some("merging"),
                status: None,
            },
            (ViewAction::Merge, ViewEvent::Merged(ok)) => {
                self.merged = ok;
                if ok {
                    ViewStep {
                        action: ViewAction::WriteHistory,
                        phase: Some("history"),
                        status: None,
                    }
                } else {
                    ViewStep { action: ViewAction::WriteLog, phase: None, status: None }
                }
            },
            (ViewAction::WriteHistory, ViewEvent::HistoryWritten) => ViewStep {
                action: ViewAction::WriteLog,
                phase: None,
                status: None,
            },
            (ViewAction::WriteLog, ViewEvent::LogWritten) => if !self.merged {
                self.finished()
            } else if job.sync_host.is_some() && job.sync_dest_dir.is_some() {
                ViewStep { action: ViewAction::Sync, phase: Some("syncing"), status: None }
            } else if job.sync_host.is_some() {
                ViewStep { action: ViewAction::SkipSync, phase: None, status: None }
            } else {
                self.synced(job)
            },
            (ViewAction::Sync, ViewEvent::SyncDone) => self.synced(job),
            (ViewAction::SkipSync, ViewEvent::SyncDone) => self.synced(job),
            (ViewAction::Notify, ViewEvent::Notified) => self.finished(),
            _ => ViewStep { action: self.action, phase: None, status: None },
        };
        self.action = step.action;
        step
    }
}

// ---------------------------------------------------------------------------
// Laws
// ---------------------------------------------------------------------------

/// A report is never built from a scan that was asked to stop: such a target
/// stops at once, with a status that says so.
pub proof fn law_cancelled_scans_build_nothing(job: ViewJob, run: ViewRun, t: ScanTotals)
    requires
        run.action == ViewAction::Scan,
        t.cancelled,
    ensures
        next_step(job, run, ViewEvent::Scanned(Ok(t))).1.action == ViewAction::Stop,
        next_step(job, run, ViewEvent::Scanned(Ok(t))).1.status matches Some(s) && s.stage
            == "cancelled"@ && !s.running,
{
}

/// A target that stops leaves a status that it does not run, and every other
/// status says that it does.
pub proof fn law_last_status_is_not_running(job: ViewJob, run: ViewRun, e: ViewEvent)
    requires
        run.action != ViewAction::Stop,
    ensures
        ({
            let step = next_step(job, run, e).1;
            &&& step.action == ViewAction::Stop ==> (step.status matches Some(s) && !s.running)
            &&& step.action != ViewAction::Stop ==> (step.status matches Some(s) ==> s.running)
        }),
{
}

/// Only a report that was merged is mirrored or told of.
pub proof fn law_only_merged_reports_leave(job: ViewJob, run: ViewRun, e: ViewEvent)
    requires
        run.action == ViewAction::Sync || run.action == ViewAction::SkipSync || run.action
            == ViewAction::Notify ==> run.merged,
    ensures
        ({
            let (next, step) = next_step(job, run, e);
            step.action == ViewAction::Sync || step.action == ViewAction::SkipSync || step.action
                == ViewAction::Notify ==> next.merged
        }),
{
}

/// How many steps are left at most.
pub open spec fn steps_left(a: ViewAction) -> int {
    match a {
        ViewAction::Scan => 9,
        ViewAction::WaitForSlot => 8,
        ViewAction::BuildDetail => 7,
        ViewAction::BuildTreemap => 6,
        ViewAction::Merge => 5,
        ViewAction::WriteHistory => 4,
        ViewAction::WriteLog => 3,
        ViewAction::Sync => 2,
        ViewAction::SkipSync => 2,
        ViewAction::Notify => 1,
        ViewAction::Stop => 0,
    }
}

/// Every event that belongs to what was done brings a target nearer to its end.
pub proof fn law_targets_end(job: ViewJob, run: ViewRun, e: ViewEvent)
    ensures
        next_step(job, run, e).1.action == run.action || steps_left(
            next_step(job, run, e).1.action,
        ) < steps_left(run.action),
{
}

/// A target is due up to and on its last day, and without one for ever.
pub proof fn law_last_day_is_due(today: Seq<char>, end: Seq<char>)
    ensures
        !is_past(today, None),
        !is_past(today, Some(today)),
        end != today ==> (is_past(today, Some(end)) <==> text::lex_lt(end, today)),
{
    text::lemma_lex_asym(today, today);
}

proof fn lemma_due_views(views: Seq<TargetView>, today: Seq<char>, r: int, n: int, x: (int, int))
    requires
        0 <= n <= views.len(),
    ensures
        due_views(views, today, r, n).contains(x) <==> x.0 == r && 0 <= x.1 < n && !(
        views[x.1].end_scan is Some && text::lex_lt(views[x.1].end_scan->0@, today)),
    decreases n,
{
    if n > 0 {
        lemma_due_views(views, today, r, n - 1, x);
        let before = due_views(views, today, r, n - 1);
        let now = due_views(views, today, r, n);
        if before.contains(x) {
            let i = choose|i: int| 0 <= i < before.len() && before[i] == x;
            assert(now[i] == x);
        }
        if now.contains(x) {
            let i = choose|i: int| 0 <= i < now.len() && now[i] == x;
            if i < before.len() {
                assert(before[i] == x);
            }
        }
        if x == (r, n - 1) && !is_past(today, text::opt(views[n - 1].end_scan)) {
            assert(now[before.len() as int] == x);
        }
    }
}

/// The jobs of a device are its targets that are not past their last day, all of them and
/// no others.
pub proof fn law_due_targets_become_jobs(
    roots: Seq<PhysicalRoot>,
    today: Seq<char>,
    n: int,
    x: (int, int),
)
    requires
        0 <= n <= roots.len(),
    ensures
        due_roots(roots, today, n).contains(x) <==> 0 <= x.0 < n && 0 <= x.1
            < roots[x.0].views@.len() && !(roots[x.0].views@[x.1].end_scan is Some
            && text::lex_lt(roots[x.0].views@[x.1].end_scan->0@, today)),
    decreases n,
{
    if n > 0 {
        law_due_targets_become_jobs(roots, today, n - 1, x);
        let views = roots[n - 1].views@;
        lemma_due_views(views, today, n - 1, views.len() as int, x);
        let a = due_roots(roots, today, n - 1);
        let b = due_views(views, today, n - 1, views.len() as int);
        let all = due_roots(roots, today, n);
        assert(all == a + b);
        if a.contains(x) {
            let i = choose|i: int| 0 <= i < a.len() && a[i] == x;
            assert(all[i] == x);
        }
        if b.contains(x) {
            let i = choose|i: int| 0 <= i < b.len() && b[i] == x;
            assert(all[a.len() + i] == x);
        }
        if all.contains(x) {
            let i = choose|i: int| 0 <= i < all.len() && all[i] == x;
            if i < a.len() {
                assert(a[i] == x);
            } else {
                assert(b[i - a.len()] == x);
            }
        }
    }
}

/// The devices that a scan takes up are those on which a target is due.
pub proof fn law_devices_with_due_targets(
    groups: Seq<DeviceGroup>,
    today: Seq<char>,
    n: int,
    g: int,
)
    requires
        0 <= n <= groups.len(),
    ensures
        due_groups(groups, today, n).contains(g) <==> 0 <= g < n && exists|r: int, v: int|
            0 <= r < groups[g].roots@.len() && 0 <= v < groups[g].roots@[r].views@.len() && !((
            #[trigger] groups[g].roots@[r].views@[v]).end_scan is Some && text::lex_lt(
                groups[g].roots@[r].views@[v].end_scan->0@,
                today,
            )),
    decreases n,
{
    if n > 0 {
        law_devices_with_due_targets(groups, today, n - 1, g);
        let before = due_groups(groups, today, n - 1);
        let now = due_groups(groups, today, n);
        let roots = groups[n - 1].roots@;
        let due = due_roots(roots, today, roots.len() as int);
        if due.len() > 0 {
            assert(due.contains(due[0]));
            law_due_targets_become_jobs(roots, today, roots.len() as int, due[0]);
            assert(now[before.len() as int] == n - 1);
            let x = due[0];
            assert(roots[x.0].views@[x.1] == groups[n - 1].roots@[x.0].views@[x.1]);
        }
        if exists|r: int, v: int|
            0 <= r < groups[n - 1].roots@.len() && 0 <= v < groups[n - 1].roots@[r].views@.len()
                && !((#[trigger] groups[n - 1].roots@[r].views@[v]).end_scan is Some
                && text::lex_lt(groups[n - 1].roots@[r].views@[v].end_scan->0@, today)) {
            let (r, v) = choose|r: int, v: int|
                0 <= r < groups[n - 1].roots@.len() && 0 <= v
                    < groups[n - 1].roots@[r].views@.len() && !((
                #[trigger] groups[n - 1].roots@[r].views@[v]).end_scan is Some && text::lex_lt(
                    groups[n - 1].roots@[r].views@[v].end_scan->0@,
                    today,
                ));
            law_due_targets_become_jobs(roots, today, roots.len() as int, (r, v));
            assert(due.contains((r, v)));
        }
        if before.contains(g) {
            let i = choose|i: int| 0 <= i < before.len() && before[i] == g;
            assert(now[i] == g);
        }
        if now.contains(g) {
            let i = choose|i: int| 0 <= i < now.len() && now[i] == g;
            if i < before.len() {
                assert(before[i] == g);
            }
        }
    }
}

/// What follows what in the scan of a target: a scan that left records waits for a slot,
/// then its report is built, then its treemap where one is asked for and its figures are
/// there, then both are merged. A merged report goes into the history and the log; after
/// the log it is mirrored where both a host and a directory are set, and the target's
/// hook is told where it has one. A report that was not merged is only logged.
pub proof fn law_phases_of_a_target(job: ViewJob, run: ViewRun, t: ScanTotals, ok: bool)
    ensures
        run.action == ViewAction::Scan && !t.cancelled && t.has_records ==> next_step(
            job,
            run,
            ViewEvent::Scanned(Ok(t)),
        ).1.action == ViewAction::WaitForSlot,
        run.action == ViewAction::Scan && !t.has_records ==> next_step(
            job,
            run,
            ViewEvent::Scanned(Ok(t)),
        ).1.action == ViewAction::Stop,
        run.action == ViewAction::WaitForSlot ==> next_step(
            job,
            run,
            ViewEvent::SlotTaken,
        ).1.action == ViewAction::BuildDetail,
        run.action == ViewAction::BuildDetail ==> next_step(
            job,
            run,
            ViewEvent::DetailBuilt(Ok(ok)),
        ).1.action == (if job.tree_map && ok {
            ViewAction::BuildTreemap
        } else {
            ViewAction::Merge
        }),
        run.action == ViewAction::BuildTreemap ==> next_step(
            job,
            run,
            ViewEvent::TreemapBuilt,
        ).1.action == ViewAction::Merge,
        run.action == ViewAction::Merge ==> next_step(job, run, ViewEvent::Merged(ok)).1.action
            == (if ok {
            ViewAction::WriteHistory
        } else {
            ViewAction::WriteLog
        }) && next_step(job, run, ViewEvent::Merged(ok)).0.merged == ok,
        run.action == ViewAction::WriteHistory ==> next_step(
            job,
            run,
            ViewEvent::HistoryWritten,
        ).1.action == ViewAction::WriteLog,
        run.action == ViewAction::WriteLog && !run.merged ==> next_step(
            job,
            run,
            ViewEvent::LogWritten,
        ).1.action == ViewAction::Stop,
        run.action == ViewAction::WriteLog && run.merged && job.sync_host is Some
            && job.sync_dest_dir is Some ==> next_step(job, run, ViewEvent::LogWritten).1.action
            == ViewAction::Sync,
        run.action == ViewAction::WriteLog && run.merged && job.sync_host is Some
            && job.sync_dest_dir is None ==> next_step(job, run, ViewEvent::LogWritten).1.action
            == ViewAction::SkipSync,
        run.action == ViewAction::WriteLog && run.merged && job.sync_host is None ==> next_step(
            job,
            run,
            ViewEvent::LogWritten,
        ).1.action == (if job.webhook_url is Some {
            ViewAction::Notify
        } else {
            ViewAction::Stop
        }),
        run.action == ViewAction::Sync || run.action == ViewAction::SkipSync ==> next_step(
            job,
            run,
            ViewEvent::SyncDone,
        ).1.action == (if job.webhook_url is Some {
            ViewAction::Notify
        } else {
            ViewAction::Stop
        }),
        run.action == ViewAction::Notify ==> next_step(job, run, ViewEvent::Notified).1.action
            == ViewAction::Stop,
{
}

/// The counts of a scan stay with its target: they are taken from the scan, every later
/// status tells them, and nothing else changes them.
pub proof fn law_counts_stay_with_the_target(
    job: ViewJob,
    run: ViewRun,
    e: ViewEvent,
    t: ScanTotals,
)
    ensures
        run.action == ViewAction::Scan ==> {
            let (next, step) = next_step(job, run, ViewEvent::Scanned(Ok(t)));
            &&& next.files == t.files
            &&& next.dirs == t.dirs
            &&& next.size == t.size
            &&& step.status matches Some(s) && s.files == t.files && s.dirs == t.dirs && s.size
                == t.size && s.error.len() == 0
        },
        run.action != ViewAction::Scan ==> {
            let (next, step) = next_step(job, run, e);
            &&& next.files == run.files
            &&& next.dirs == run.dirs
            &&& next.size == run.size
            &&& step.status matches Some(s) ==> s.files == run.files && s.dirs == run.dirs
                && s.size == run.size
        },
{
}

/// A failed scan or build ends its target at once, and the status tells what failed.
pub proof fn law_failures_are_told(job: ViewJob, run: ViewRun, x: String)
    ensures
        run.action == ViewAction::Scan ==> {
            let step = next_step(job, run, ViewEvent::Scanned(Err(x))).1;
            &&& step.action == ViewAction::Stop
            &&& step.status matches Some(s) && s.stage == "error"@ && s.error == x@
        },
        run.action == ViewAction::BuildDetail ==> {
            let step = next_step(job, run, ViewEvent::DetailBuilt(Err(x))).1;
            &&& step.action == ViewAction::Stop
            &&& step.status matches Some(s) && s.stage == "error"@ && s.error == x@
        },
{
}

} // verus!
