//! Running a whole plan: what follows what for the targets of one device, what
//! is fatal and what is not, what is logged, and the manifest of the results.

use crate::exporter;
use crate::history::SnapshotRows;
use crate::history::UsageModel;
use crate::history::UsageRow;
use crate::history;
use crate::paths;
use crate::text;
use vstd::hash_map::StringHashMap;
use vstd::prelude::*;

verus! {

// ---------------------------------------------------------------------------
// The plan of one device
// ---------------------------------------------------------------------------

/// A target of a scanned tree.
pub struct ViewPlan {
    pub name: String,
    pub view_path: String,
    pub output_subdir: String,
    /// Whether it is a part of the tree only.
    pub derived: bool,
    pub purge_time: Option<i64>,
}

/// A tree that is scanned once, for all its targets.
pub struct RootPlan {
    pub scan_path: String,
    pub views: Vec<ViewPlan>,
}

/// The trees of one device, which are scanned one after the other.
pub struct GroupPlan {
    pub workers: usize,
    pub build_treemap: bool,
    pub roots: Vec<RootPlan>,
}

/// What is to be done next.
#[derive(PartialEq, Eq, Structural, Copy, Clone, Debug)]
pub enum Stage {
    /// Scan the tree.
    Scan,
    /// Make the target's directory.
    MakeDir,
    /// Build the target's detail database.
    Detail,
    /// Build the target's treemap.
    Treemap,
    /// Sum up the target's users and teams.
    Summarise,
    /// Open the target's report.
    OpenReport,
    /// Write the target's snapshot.
    WriteHistory,
    /// Drop the target's old snapshots.
    Purge,
    /// Merge the target's databases.
    Merge,
    /// Remove what the scan of the tree left.
    Clean,
    /// Nothing: all targets are done.
    Finished,
    /// Nothing: an error ended the run.
    Failed,
}

/// How a detail database was built.
pub struct Built {
    pub total_files: u64,
    pub seconds: String,
    /// Whether the treemap's figures were asked for and are there.
    pub aggregates: Option<bool>,
}

/// What was done, and how it went.
pub enum GroupEvent {
    Scanned(Result<(), String>),
    DirMade(Result<(), String>),
    DetailBuilt(Result<Built, String>),
    /// How long it took.
    TreemapBuilt(Result<String, String>),
    /// How many teams and users there are.
    Summarised(Result<(usize, usize), String>),
    ReportOpened(Result<(), String>),
    HistoryWritten(Result<(), String>),
    /// How many snapshots went.
    Purged(Result<usize, String>),
    Merged(Result<(), String>),
    Cleaned,
}

/// A line of a target's log.
pub struct LogLine {
    pub phase: &'static str,
    pub message: String,
}

/// The lines of a log.
pub open spec fn log_views(v: Seq<LogLine>) -> Seq<(Seq<char>, Seq<char>)> {
    Seq::new(v.len(), |i: int| (v[i].phase@, v[i].message@))
}

/// The run of one device.
pub struct GroupRun {
    pub stage: Stage,
    pub root: usize,
    pub view: usize,
    pub entries: Vec<String>,
    pub error: String,
}

#[verifier::ext_equal]
pub struct RunModel {
    pub stage: Stage,
    pub root: int,
    pub view: int,
    pub entries: Seq<Seq<char>>,
    pub error: Seq<char>,
}

impl View for GroupRun {
    type V = RunModel;

    open spec fn view(&self) -> RunModel {
        RunModel {
            stage: self.stage,
            root: self.root as int,
            view: self.view as int,
            entries: text::strs(self.entries@),
            error: self.error@,
        }
    }
}

/// The entry of a target in the manifest.
pub open spec fn entry_text(name: Seq<char>, path: Seq<char>, derived: bool) -> Seq<char> {
    "{\"name\":\""@ + name + "\",\"path\":\""@ + path + "\",\"kind\":\""@ + (if derived {
        "derived"@
    } else {
        "physical_root"@
    }) + "\",\"status\":\"scanned\"}"@
}

/// The entry of a target in the manifest.
pub fn manifest_entry(name: &str, path: &str, derived: bool) -> (r: String)
    ensures
        r@ == entry_text(name@, path@, derived),
{
    let head = text::cat5("{\"name\":\"", name, "\",\"path\":\"", path, "\",\"kind\":\"");
    let kind: &'static str = if derived {
        "derived"
    } else {
        "physical_root"
    };
    text::cat3(head.as_str(), kind, "\",\"status\":\"scanned\"}")
}

/// The run ended by an error.
pub open spec fn failed(s: RunModel, msg: Seq<char>) -> RunModel {
    RunModel { stage: Stage::Failed, error: msg, ..s }
}

/// The run at another stage.
pub open spec fn at(s: RunModel, stage: Stage) -> RunModel {
    RunModel { stage, ..s }
}

/// The run where the tree at `r` is next.
pub open spec fn at_root(plan: GroupPlan, s: RunModel, r: int) -> RunModel {
    if r < plan.roots@.len() {
        RunModel { stage: Stage::Scan, root: r, view: 0, ..s }
    } else {
        RunModel { stage: Stage::Finished, root: r, view: 0, ..s }
    }
}

/// The run where the target at `v` of the same tree is next.
pub open spec fn at_view(plan: GroupPlan, s: RunModel, v: int) -> RunModel {
    if v < plan.roots@[s.root].views@.len() {
        RunModel { stage: Stage::MakeDir, view: v, ..s }
    } else {
        RunModel { stage: Stage::Clean, view: v, ..s }
    }
}

/// The run is at a target of the plan.
pub open spec fn on_plan(plan: GroupPlan, s: RunModel) -> bool {
    match s.stage {
        Stage::Finished | Stage::Failed => true,
        Stage::Scan | Stage::Clean => 0 <= s.root < plan.roots@.len(),
        _ => {
            &&& 0 <= s.root < plan.roots@.len()
            &&& 0 <= s.view < plan.roots@[s.root].views@.len()
            &&& s.stage == Stage::Purge ==> history::purges(current(plan, s).purge_time)
        },
    }
}

/// The target that the run is at.
pub open spec fn current(plan: GroupPlan, s: RunModel) -> ViewPlan {
    plan.roots@[s.root].views@[s.view]
}

/// What the log says when a target begins.
pub open spec fn begin_log(plan: GroupPlan, s: RunModel) -> Seq<(Seq<char>, Seq<char>)> {
    seq![
        (
            "phase1"@,
            "Phase 1 complete: "@ + text::dec(plan.workers as nat) + " files from '"@
                + plan.roots@[s.root].scan_path@ + "'"@,
        ),
        ("detail"@, "Building detail DB"@),
    ]
}

/// The next stage of a run after an event, and what is logged for the target
/// that it was at. An event that does not belong to the stage changes nothing.
pub open spec fn next_stage(plan: GroupPlan, s: RunModel, e: GroupEvent) -> (
    RunModel,
    Seq<(Seq<char>, Seq<char>)>,
) {
    let none = Seq::<(Seq<char>, Seq<char>)>::empty();
    match (s.stage, e) {
        (Stage::Scan, GroupEvent::Scanned(r)) => match r {
            Ok(_) => (at_view(plan, s, 0), none),
            Err(x) => {
                let msg = "phase1 "@ + plan.roots@[s.root].scan_path@ + ": "@ + x@;
                (failed(s, msg), seq![("error"@, msg)])
            },
        },
        (Stage::MakeDir, GroupEvent::DirMade(r)) => match r {
            Ok(_) => (at(s, Stage::Detail), begin_log(plan, s)),
            Err(x) => (
                failed(s, "mkdir "@ + current(plan, s).output_subdir@ + ": "@ + x@),
                none,
            ),
        },
        (Stage::Detail, GroupEvent::DetailBuilt(r)) => match r {
            Ok(b) => {
                let built = (
                    "detail"@,
                    "Detail DB built: "@ + text::dec(b.total_files as nat) + " files in "@ + b.seconds@
                        + "s"@,
                );
                if plan.build_treemap && b.aggregates == Some(true) {
                    (at(s, Stage::Treemap), seq![built])
                } else if plan.build_treemap && b.aggregates == Some(false) {
                    (
                        at(s, Stage::Summarise),
                        seq![built, ("treemap"@, "No aggregates to build treemap"@)],
                    )
                } else {
                    (at(s, Stage::Summarise), seq![built])
                }
            },
            Err(x) => {
                let msg = "build_detail failed: "@ + x@;
                (failed(s, msg), seq![("error"@, msg)])
            },
        },
        (Stage::Treemap, GroupEvent::TreemapBuilt(r)) => (
            at(s, Stage::Summarise),
            seq![
                (
                    "treemap"@,
                    match r {
                        Ok(t) => "Treemap DB built in "@ + t@ + "s"@,
                        Err(x) => "Treemap build skipped (non-fatal): "@ + x@,
                    },
                ),
            ],
        ),
        (Stage::Summarise, GroupEvent::Summarised(r)) => match r {
            Ok((t, u)) => (
                at(s, Stage::OpenReport),
                seq![
                    (
                        "history"@,
                        "Team summaries: "@ + text::dec(t as nat) + " teams, "@ + text::dec(u as nat)
                            + " users"@,
                    ),
                ],
            ),
            Err(x) => {
                let msg = "summarise "@ + current(plan, s).name@ + ": "@ + x@;
                (failed(s, msg), seq![("error"@, msg)])
            },
        },
        (Stage::OpenReport, GroupEvent::ReportOpened(r)) => match r {
            Ok(_) => (at(s, Stage::WriteHistory), none),
            Err(x) => {
                let msg = "open report.db "@ + current(plan, s).name@ + ": "@ + x@;
                (failed(s, msg), seq![("error"@, msg)])
            },
        },
        (Stage::WriteHistory, GroupEvent::HistoryWritten(r)) => match r {
            Ok(_) => if history::purges(current(plan, s).purge_time) {
                (at(s, Stage::Purge), none)
            } else {
                (at(s, Stage::Merge), seq![("history"@, "History snapshot written"@)])
            },
            Err(x) => {
                let msg = "history "@ + current(plan, s).name@ + ": "@ + x@;
                (failed(s, msg), seq![("error"@, msg)])
            },
        },
        (Stage::Purge, GroupEvent::Purged(r)) => {
            let written = ("history"@, "History snapshot written"@);
            (
                at(s, Stage::Merge),
                match r {
                    Ok(n) => if n > 0 {
                        seq![
                            (
                                "history"@,
                                "Purged "@ + text::dec(n as nat) + " old snapshot(s) (>"@ + text::dec_int(
                                    current(plan, s).purge_time->0 as int,
                                ) + " days)"@,
                            ),
                            written,
                        ]
                    } else {
                        seq![written]
                    },
                    Err(x) => seq![("history"@, "Purge skipped: "@ + x@), written],
                },
            )
        },
        (Stage::Merge, GroupEvent::Merged(r)) => {
            let v = current(plan, s);
            let done = RunModel {
                entries: s.entries.push(entry_text(v.name@, v.view_path@, v.derived)),
                ..s
            };
            (
                at_view(plan, done, s.view + 1),
                seq![
                    (
                        "merge"@,
                        match r {
                            Ok(_) => "Merged into single report.db"@,
                            Err(x) => "Merge skipped (non-fatal): "@ + x@,
                        },
                    ),
                    ("done"@, "Scan complete"@),
                ],
            )
        },
        (Stage::Clean, GroupEvent::Cleaned) => (at_root(plan, s, s.root + 1), none),
        _ => (s, none),
    }
}

fn push_log(v: &mut Vec<LogLine>, phase: &'static str, message: String)
    ensures
        log_views(final(v)@) == log_views(old(v)@).push((phase@, message@)),
{
    v.push(LogLine { phase, message });
    assert(log_views(v@) =~= log_views(old(v)@).push((phase@, message@)));
}

impl GroupRun {
    /// The run of a plan from its beginning.
    pub fn start(plan: &GroupPlan) -> (r: Self)
        ensures
            r@ == at_root(
                *plan,
                RunModel {
                    stage: Stage::Scan,
                    root: 0,
                    view: 0,
                    entries: Seq::empty(),
                    error: Seq::empty(),
                },
                0,
            ),
            on_plan(*plan, r@),
    {
        let stage = if plan.roots.len() > 0 {
            Stage::Scan
        } else {
            Stage::Finished
        };
        let r = GroupRun { stage, root: 0, view: 0, entries: Vec::new(), error: String::new() };
        assert(r@.entries =~= Seq::<Seq<char>>::empty());
        assert(r@.error =~= Seq::<char>::empty());
        r
    }

    fn fail(&mut self, log: &mut Vec<LogLine>, logged: bool, msg: String)
        ensures
            final(self)@ == failed(old(self)@, msg@),
            log_views(final(log)@) == (if logged {
                log_views(old(log)@).push(("error"@, msg@))
            } else {
                log_views(old(log)@)
            }),
    {
        if logged {
            push_log(log, "error", msg.clone());
        }
        self.stage = Stage::Failed;
        self.error = msg;
    }

    fn go_to_view(&mut self, plan: &GroupPlan, v: usize)
        requires
            old(self).root < plan.roots@.len(),
        ensures
            final(self)@ == at_view(*plan, old(self)@, v as int),
    {
        self.view = v;
        if v < plan.roots[self.root].views.len() {
            self.stage = Stage::MakeDir;
        } else {
            self.stage = Stage::Clean;
        }
    }

    /// Takes the run past an event. The result is what is logged for the target
    /// that the run was at.
    pub fn advance(&mut self, plan: &GroupPlan, event: GroupEvent) -> (log: Vec<LogLine>)
        requires
            on_plan(*plan, old(self)@),
        ensures
            final(self)@ == next_stage(*plan, old(self)@, event).0,
            log_views(log@) == next_stage(*plan, old(self)@, event).1,
            on_plan(*plan, final(self)@),
    {
        let mut log: Vec<LogLine> = Vec::new();
        let ghost s = self@;
        let ghost none = Seq::<(Seq<char>, Seq<char>)>::empty();
        assert(log_views(log@) =~= none);
        match (self.stage, event) {
            (Stage::Scan, GroupEvent::Scanned(r)) => match r {
                Ok(_) => self.go_to_view(plan, 0),
                Err(x) => {
                    let path = plan.roots[self.root].scan_path.as_str();
                    let msg = text::cat4("phase1 ", path, ": ", x.as_str());
                    self.fail(&mut log, true, msg);
                    assert(none.push(("error"@, msg@)) =~= seq![("error"@, msg@)]);
                },
            },
            (Stage::MakeDir, GroupEvent::DirMade(r)) => match r {
                Ok(_) => {
                    let n = text::dec_string(plan.workers as u64);
                    let path = plan.roots[self.root].scan_path.as_str();
                    let m = text::cat5("Phase 1 complete: ", n.as_str(), " files from '", path, "'");
                    push_log(&mut log, "phase1", m);
                    push_log(&mut log, "detail", "Building detail DB".to_string());
                    assert(log_views(log@) =~= begin_log(*plan, s));
                    self.stage = Stage::Detail;
                },
                Err(x) => {
                    let dir = plan.roots[self.root].views[self.view].output_subdir.as_str();
                    let msg = text::cat4("mkdir ", dir, ": ", x.as_str());
                    self.fail(&mut log, false, msg);
                },
            },
            (Stage::Detail, GroupEvent::DetailBuilt(r)) => match r {
                Ok(b) => {
                    let n = text::dec_string(b.total_files);
                    let m = text::cat5(
                        "Detail DB built: ",
                        n.as_str(),
                        " files in ",
                        b.seconds.as_str(),
                        "s",
                    );
                    push_log(&mut log, "detail", m);
                    assert(log_views(log@) =~= seq![("detail"@, m@)]);
                    let have: Option<bool> = if plan.build_treemap {
                        b.aggregates
                    } else {
                        None
                    };
                    match have {
                        Some(true) => {
                            self.stage = Stage::Treemap;
                        },
                        Some(false) => {
                            push_log(
                                &mut log,
                                "treemap",
                                "No aggregates to build treemap".to_string(),
                            );
                            assert(log_views(log@) =~= seq![
                                ("detail"@, m@),
                                ("treemap"@, "No aggregates to build treemap"@),
                            ]);
                            self.stage = Stage::Summarise;
                        },
                        None => {
                            self.stage = Stage::Summarise;
                        },
                    }
                },
                Err(x) => {
                    let msg = text::cat2("build_detail failed: ", x.as_str());
                    self.fail(&mut log, true, msg);
                    assert(none.push(("error"@, msg@)) =~= seq![("error"@, msg@)]);
                },
            },
            (Stage::Treemap, GroupEvent::TreemapBuilt(r)) => {
                let m = match &r {
                    Ok(t) => text::cat3("Treemap DB built in ", t.as_str(), "s"),
                    Err(x) => text::cat2("Treemap build skipped (non-fatal): ", x.as_str()),
                };
                push_log(&mut log, "treemap", m);
                assert(log_views(log@) =~= seq![("treemap"@, m@)]);
                self.stage = Stage::Summarise;
            },
            (Stage::Summarise, GroupEvent::Summarised(r)) => match r {
                Ok((t, u)) => {
                    let t = text::dec_string(t as u64);
                    let u = text::dec_string(u as u64);
                    let m = text::cat5("Team summaries: ", t.as_str(), " teams, ", u.as_str(), " users");
                    push_log(&mut log, "history", m);
                    assert(log_views(log@) =~= seq![("history"@, m@)]);
                    self.stage = Stage::OpenReport;
                },
                Err(x) => {
                    let name = plan.roots[self.root].views[self.view].name.as_str();
                    let msg = text::cat4("summarise ", name, ": ", x.as_str());
                    self.fail(&mut log, true, msg);
                    assert(none.push(("error"@, msg@)) =~= seq![("error"@, msg@)]);
                },
            },
            (Stage::OpenReport, GroupEvent::ReportOpened(r)) => match r {
                Ok(_) => {
                    self.stage = Stage::WriteHistory;
                },
                Err(x) => {
                    let name = plan.roots[self.root].views[self.view].name.as_str();
                    let msg = text::cat4("open report.db ", name, ": ", x.as_str());
                    self.fail(&mut log, true, msg);
                    assert(none.push(("error"@, msg@)) =~= seq![("error"@, msg@)]);
                },
            },
            (Stage::WriteHistory, GroupEvent::HistoryWritten(r)) => match r {
                Ok(_) => {
                    let purge: bool = match plan.roots[self.root].views[self.view].purge_time {
                        Some(d) => d > 0,
                        None => false,
                    };
                    if purge {
                        self.stage = Stage::Purge;
                    } else {
                        push_log(&mut log, "history", "History snapshot written".to_string());
                        assert(log_views(log@) =~= seq![
                            ("history"@, "History snapshot written"@),
                        ]);
                        self.stage = Stage::Merge;
                    }
                },
                Err(x) => {
                    let name = plan.roots[self.root].views[self.view].name.as_str();
                    let msg = text::cat4("history ", name, ": ", x.as_str());
                    self.fail(&mut log, true, msg);
                    assert(none.push(("error"@, msg@)) =~= seq![("error"@, msg@)]);
                },
            },
            (Stage::Purge, GroupEvent::Purged(r)) => {
                let days: i64 = match plan.roots[self.root].views[self.view].purge_time {
                    Some(d) => d,
                    None => 0,
                };
                self.purge_log(plan, &mut log, &r, days);
                self.stage = Stage::Merge;
            },
            (Stage::Merge, GroupEvent::Merged(r)) => {
                let v: &ViewPlan = &plan.roots[self.root].views[self.view];
                let m = match &r {
                    Ok(_) => "Merged into single report.db".to_string(),
                    Err(x) => text::cat2("Merge skipped (non-fatal): ", x.as_str()),
                };
                push_log(&mut log, "merge", m);
                push_log(&mut log, "done", "Scan complete".to_string());
                assert(log_views(log@) =~= seq![("merge"@, m@), ("done"@, "Scan complete"@)]);
                let e = manifest_entry(v.name.as_str(), v.view_path.as_str(), v.derived);
                self.entries.push(e);
                assert(text::strs(self.entries@) =~= s.entries.push(e@));
                let n: usize = plan.roots[self.root].views.len();
                assert(self.view < n);
                let next: usize = self.view + 1;
                self.go_to_view(plan, next);
            },
            (Stage::Clean, GroupEvent::Cleaned) => {
                let n: usize = plan.roots.len();
                self.view = 0;
                self.root = self.root + 1;
                if self.root < n {
                    self.stage = Stage::Scan;
                } else {
                    self.stage = Stage::Finished;
                }
            },
            _ => {},
        }
        log
    }

    fn purge_log(
        &self,
        plan: &GroupPlan,
        log: &mut Vec<LogLine>,
        r: &Result<usize, String>,
        days: i64,
    )
        requires
            old(log)@.len() == 0,
            self.stage == Stage::Purge,
            on_plan(*plan, self@),
            current(*plan, self@).purge_time is Some ==> days == current(
                *plan,
                self@,
            ).purge_time->0,
            current(*plan, self@).purge_time is Some,
        ensures
            log_views(final(log)@) == next_stage(*plan, self@, GroupEvent::Purged(*r)).1,
    {
        match r {
            Ok(n) => {
                if *n > 0 {
                    let k = text::dec_string(*n as u64);
                    let d = text::dec_int_string(days);
                    let m = text::cat5("Purged ", k.as_str(), " old snapshot(s) (>", d.as_str(), " days)");
                    push_log(log, "history", m);
                }
            },
            Err(x) => {
                let m = text::cat2("Purge skipped: ", x.as_str());
                push_log(log, "history", m);
            },
        }
        push_log(log, "history", "History snapshot written".to_string());
        assert(log_views(log@) =~= next_stage(*plan, self@, GroupEvent::Purged(*r)).1);
    }
}

/// The entries of the first `n` targets of a tree.
pub open spec fn view_entries(views: Seq<ViewPlan>, n: int) -> Seq<Seq<char>>
    decreases n,
{
    if n <= 0 {
        Seq::empty()
    } else {
        let v = views[n - 1];
        view_entries(views, n - 1).push(entry_text(v.name@, v.view_path@, v.derived))
    }
}

/// The entries of all targets of the first `n` trees.
pub open spec fn root_entries(roots: Seq<RootPlan>, n: int) -> Seq<Seq<char>>
    decreases n,
{
    if n <= 0 {
        Seq::empty()
    } else {
        let views = roots[n - 1].views@;
        root_entries(roots, n - 1) + view_entries(views, views.len() as int)
    }
}

/// The entries of a run are those of the targets that it is past, in order.
pub open spec fn entries_match(plan: GroupPlan, s: RunModel) -> bool {
    match s.stage {
        Stage::Failed => true,
        Stage::Finished => s.entries == root_entries(plan.roots@, plan.roots@.len() as int),
        Stage::Scan => s.entries == root_entries(plan.roots@, s.root),
        Stage::Clean => {
            &&& s.view == plan.roots@[s.root].views@.len()
            &&& s.entries == root_entries(plan.roots@, s.root) + view_entries(
                plan.roots@[s.root].views@,
                s.view,
            )
        },
        _ => s.entries == root_entries(plan.roots@, s.root) + view_entries(
            plan.roots@[s.root].views@,
            s.view,
        ),
    }
}

/// A run lists every target that it is past, in the order of the plan; so where
/// it finishes its entries are those of all targets.
pub proof fn law_entries_follow_the_plan(plan: GroupPlan, s: RunModel, e: GroupEvent)
    requires
        on_plan(plan, s),
        entries_match(plan, s),
    ensures
        entries_match(plan, next_stage(plan, s, e).0),
        on_plan(plan, next_stage(plan, s, e).0),
{
    let t = next_stage(plan, s, e).0;
    if t != s {
        let views = plan.roots@[s.root].views@;
        if s.stage == Stage::Scan && t.stage != Stage::Failed {
            assert(root_entries(plan.roots@, s.root) + view_entries(views, 0) =~= root_entries(
                plan.roots@,
                s.root,
            ));
        }
        if s.stage == Stage::Merge {
            let v = views[s.view];
            let x = entry_text(v.name@, v.view_path@, v.derived);
            assert(view_entries(views, s.view + 1) == view_entries(views, s.view).push(x));
            assert(root_entries(plan.roots@, s.root) + view_entries(views, s.view + 1)
                =~= s.entries.push(x));
        }
    }
}

/// How far a stage is from the end of its target.
spec fn stage_rank(stage: Stage) -> int {
    match stage {
        Stage::Scan => 11,
        Stage::MakeDir => 10,
        Stage::Detail => 9,
        Stage::Treemap => 8,
        Stage::Summarise => 7,
        Stage::OpenReport => 6,
        Stage::WriteHistory => 5,
        Stage::Purge => 4,
        Stage::Merge => 3,
        Stage::Clean => 2,
        Stage::Finished => 0,
        Stage::Failed => 0,
    }
}

/// How far a run is from its end: trees, targets and stages that are left.
pub closed spec fn left(plan: GroupPlan, s: RunModel) -> (int, int, int) {
    if s.stage == Stage::Finished || s.stage == Stage::Failed {
        (0, 0, 0)
    } else if s.stage == Stage::Scan {
        (plan.roots@.len() - s.root, plan.roots@[s.root].views@.len() as int + 1, 11)
    } else {
        (
            plan.roots@.len() - s.root,
            plan.roots@[s.root].views@.len() - s.view,
            stage_rank(s.stage),
        )
    }
}

/// Every event that belongs to the stage takes a run nearer to its end, so a run
/// ends.
pub proof fn law_runs_end(plan: GroupPlan, s: RunModel, e: GroupEvent)
    requires
        on_plan(plan, s),
        entries_match(plan, s),
    ensures
        ({
            let t = next_stage(plan, s, e).0;
            let a = left(plan, s);
            let b = left(plan, t);
            &&& b.0 >= 0 && b.1 >= 0 && b.2 >= 0
            &&& t == s || b.0 < a.0 || (b.0 == a.0 && (b.1 < a.1 || (b.1 == a.1 && b.2 < a.2)))
        }),
{
}

// ---------------------------------------------------------------------------
// Results
// ---------------------------------------------------------------------------

/// A text with its quotes escaped.
pub open spec fn escaped(s: Seq<char>) -> Seq<char>
    decreases s.len(),
{
    if s.len() == 0 {
        Seq::empty()
    } else if s.last() == '"' {
        escaped(s.drop_last()).push('\\').push('"')
    } else {
        escaped(s.drop_last()).push(s.last())
    }
}

fn escape_quotes(s: &str) -> (r: String)
    ensures
        r@ == escaped(s@),
{
    let c = text::to_chars(s);
    let mut out: Vec<char> = Vec::new();
    let mut i: usize = 0;
    assert(c@.take(0) =~= Seq::<char>::empty());
    while i < c.len()
        invariant
            i <= c@.len(),
            out@ == escaped(c@.take(i as int)),
        decreases c@.len() - i,
    {
        assert(c@.take(i + 1).drop_last() =~= c@.take(i as int));
        if c[i] == '"' {
            out.push('\\');
        }
        out.push(c[i]);
        i = i + 1;
    }
    assert(c@.take(i as int) =~= c@);
    text::from_chars(&out)
}

/// The entries of the groups that went well, in order.
pub open spec fn good_entries(groups: Seq<Result<Seq<Seq<char>>, Seq<char>>>) -> Seq<Seq<char>>
    decreases groups.len(),
{
    if groups.len() == 0 {
        Seq::empty()
    } else {
        let before = good_entries(groups.drop_last());
        match groups.last() {
            Ok(v) => before + v,
            Err(_) => before,
        }
    }
}

/// The errors of the groups that did not, in order.
pub open spec fn group_errors(groups: Seq<Result<Seq<Seq<char>>, Seq<char>>>) -> Seq<Seq<char>>
    decreases groups.len(),
{
    if groups.len() == 0 {
        Seq::empty()
    } else {
        let before = group_errors(groups.drop_last());
        match groups.last() {
            Ok(_) => before,
            Err(e) => before.push(e),
        }
    }
}

/// Errors as quoted texts.
pub open spec fn quoted(errors: Seq<Seq<char>>) -> Seq<Seq<char>> {
    Seq::new(errors.len(), |i: int| "\""@ + escaped(errors[i]) + "\""@)
}

/// The manifest of a run: what was scanned and what failed. The run as a whole
/// fails only where something failed and nothing was scanned.
pub open spec fn manifest_of(groups: Seq<Result<Seq<Seq<char>>, Seq<char>>>) -> Result<
    Seq<char>,
    Seq<char>,
> {
    let entries = good_entries(groups);
    let errors = group_errors(groups);
    if errors.len() > 0 && entries.len() == 0 {
        Err(text::join(errors, "; "@))
    } else {
        Ok(
            "{\"targets\":["@ + text::join(entries, ","@) + "]"@ + (if errors.len() == 0 {
                Seq::empty()
            } else {
                ",\"errors\":["@ + text::join(quoted(errors), ","@) + "]"@
            }) + "}"@,
        )
    }
}

/// The manifest of a run.
pub fn manifest(results: &Vec<Result<Vec<String>, String>>) -> (r: Result<String, String>)
    ensures
        match r {
            Ok(m) => manifest_of(exporter::outcomes(results@)) == Ok::<Seq<char>, Seq<char>>(m@),
            Err(e) => manifest_of(exporter::outcomes(results@)) == Err::<Seq<char>, Seq<char>>(e@),
        },
{
    let ghost all = exporter::outcomes(results@);
    let mut entries: Vec<String> = Vec::new();
    let mut errors: Vec<String> = Vec::new();
    let mut i: usize = 0;
    proof {
        assert(text::strs(entries@) =~= Seq::<Seq<char>>::empty());
        assert(text::strs(errors@) =~= Seq::<Seq<char>>::empty());
    }
    while i < results.len()
        invariant
            i <= results.len(),
            all == exporter::outcomes(results@),
            text::strs(entries@) == good_entries(all.take(i as int)),
            text::strs(errors@) == group_errors(all.take(i as int)),
        decreases results.len() - i,
    {
        proof {
            assert(all.take(i + 1).drop_last() =~= all.take(i as int));
            assert(all.take(i + 1).last() == all[i as int]);
        }
        match &results[i] {
            Ok(v) => text::append_strings(&mut entries, v),
            Err(e) => text::push_text(&mut errors, e.as_str()),
        }
        i = i + 1;
    }
    proof {
        assert(all.take(i as int) =~= all);
        assert(text::strs(entries@).len() == entries@.len());
        assert(text::strs(errors@).len() == errors@.len());
    }
    if errors.len() > 0 && entries.len() == 0 {
        return Err(text::join_strings(&errors, "; "));
    }
    let targets = text::join_strings(&entries, ",");
    let head = text::cat3("{\"targets\":[", targets.as_str(), "]");
    let ghost h = "{\"targets\":["@ + text::join(text::strs(entries@), ","@) + "]"@;
    if errors.len() == 0 {
        let m = text::cat2(head.as_str(), "}");
        assert(h + Seq::<char>::empty() =~= h);
        return Ok(m);
    }
    let mut quotes: Vec<String> = Vec::new();
    let mut k: usize = 0;
    while k < errors.len()
        invariant
            k <= errors.len(),
            quotes@.len() == k,
            forall|j: int| 0 <= j < k ==> (#[trigger] quotes@[j])@ == quoted(text::strs(errors@))[j],
        decreases errors.len() - k,
    {
        let e = escape_quotes(errors[k].as_str());
        quotes.push(text::cat3("\"", e.as_str(), "\""));
        k = k + 1;
    }
    assert(text::strs(quotes@) =~= quoted(text::strs(errors@)));
    let list = text::join_strings(&quotes, ",");
    let tail = text::cat3(",\"errors\":[", list.as_str(), "]");
    Ok(text::cat3(head.as_str(), tail.as_str(), "}"))
}

/// A run of a plan needs the interpreter's build, which this is not.
pub fn run_scan_plan_impl(
    _plan_json: String,
    _build_treemap: bool,
    _max_level: usize,
    _timestamp: i64,
    _debug: bool,
) -> (r: Result<String, String>)
    ensures
        r matches Err(e) && e@ == "scan_orchestrator requires pyo3 feature"@,
{
    Err("scan_orchestrator requires pyo3 feature".to_string())
}

/// Where the scans of a plan keep what they leave for the reports.
pub fn scan_tmp_base_for(output_dir: &str) -> (r: String)
    ensures
        r@ == paths::joined(output_dir@, ".scan_tmp"@),
{
    paths::join_path(output_dir, ".scan_tmp")
}

/// The status file of a target.
pub fn status_json(phase: &str, message: &str, now: u64, extra: &str) -> (r: String)
    ensures
        r@ == "{\"phase\":\""@ + phase@ + "\",\"message\":\""@ + message@ + "\",\"updated_at\":"@
            + text::dec(now as nat) + extra@ + "}"@,
{
    let head = text::cat5("{\"phase\":\"", phase, "\",\"message\":\"", message, "\",\"updated_at\":");
    let n = text::dec_string(now);
    text::cat4(head.as_str(), n.as_str(), extra, "}")
}

/// A line of a target's log file.
pub fn log_file_line(now: u64, phase: &str, message: &str) -> (r: String)
    ensures
        r@ == "["@ + text::dec(now as nat) + "] ["@ + phase@ + "] "@ + message@,
{
    let n = text::dec_string(now);
    let head = text::cat5("[", n.as_str(), "] [", phase, "] ");
    text::cat2(head.as_str(), message)
}

// ---------------------------------------------------------------------------
// The users and teams of a target
// ---------------------------------------------------------------------------

/// An id in a plan: a number, a text, or anything else.
pub enum PlanId {
    Number(Option<i64>),
    Text(String),
    Other,
}

/// The number that an id stands for.
pub open spec fn id_number(v: PlanId) -> Option<int> {
    match v {
        PlanId::Number(n) => match n {
            Some(k) => Some(k as int),
            None => None,
        },
        PlanId::Text(s) => text::parse_signed(s@),
        PlanId::Other => None,
    }
}

/// The number that an id stands for: a whole number, or a text that is one.
pub fn json_to_i64(v: &PlanId) -> (r: Option<i64>)
    ensures
        match r {
            Some(n) => id_number(*v) == Some(n as int),
            None => id_number(*v) is None,
        },
{
    match v {
        PlanId::Number(n) => *n,
        PlanId::Text(s) => {
            let c = text::to_chars(s.as_str());
            text::read_signed(&c)
        },
        PlanId::Other => None,
    }
}

/// The id of the last entry of a name; nothing where there is no entry.
pub open spec fn named_id(v: Seq<(Seq<char>, Option<i64>)>, name: Seq<char>) -> Option<Option<i64>>
    decreases v.len(),
{
    if v.len() == 0 {
        None
    } else if v.last().0 == name {
        Some(v.last().1)
    } else {
        named_id(v.drop_last(), name)
    }
}

/// Names and ids.
pub open spec fn named_views(v: Seq<(String, Option<i64>)>) -> Seq<(Seq<char>, Option<i64>)> {
    Seq::new(v.len(), |i: int| (v[i].0@, v[i].1))
}

/// The first name whose id, which is its last entry's, reads `id`.
pub open spec fn name_of_id(
    teams: Seq<(Seq<char>, Option<i64>)>,
    id: Seq<char>,
    k: int,
) -> Option<Seq<char>>
    decreases teams.len() - k,
{
    if k < 0 || k >= teams.len() {
        None
    } else if named_id(teams, teams[k].0) matches Some(Some(n)) && text::dec_int(n as int) == id {
        Some(teams[k].0)
    } else {
        name_of_id(teams, id, k + 1)
    }
}

/// The team that a user's size counts for: the team of the id that the user is
/// mapped to or, where no team has it, the id itself.
pub open spec fn counted_team(
    teams: Seq<(Seq<char>, Option<i64>)>,
    team_map: Map<Seq<char>, String>,
    user: Seq<char>,
) -> Option<Seq<char>> {
    if team_map.contains_key(user) {
        let id = team_map[user]@;
        match name_of_id(teams, id, 0) {
            Some(n) => Some(n),
            None => Some(id),
        }
    } else {
        None
    }
}

/// The row of one user: who is listed is a `user`, the rest are `other`.
pub open spec fn view_user(
    users: Seq<(Seq<char>, Option<i64>)>,
    row: (Seq<char>, i64),
) -> UsageModel {
    match named_id(users, row.0) {
        Some(t) => UsageModel { name: row.0, team_id: t, size: row.1, kind: "user"@ },
        None => UsageModel { name: row.0, team_id: None, size: row.1, kind: "other"@ },
    }
}

fn lookup_id(v: &Vec<(String, Option<i64>)>, name: &str) -> (r: Option<Option<i64>>)
    ensures
        r == named_id(named_views(v@), name@),
{
    let ghost all = named_views(v@);
    let mut i: usize = v.len();
    assert(all.take(i as int) =~= all);
    while i > 0
        invariant
            i <= v.len(),
            all == named_views(v@),
            named_id(all.take(i as int), name@) == named_id(all, name@),
        decreases i,
    {
        proof {
            assert(all.take(i as int).drop_last() =~= all.take(i - 1));
            assert(all.take(i as int).last() == all[i - 1]);
        }
        if text::str_eq(v[i - 1].0.as_str(), name) {
            return Some(v[i - 1].1);
        }
        i = i - 1;
    }
    None
}

fn find_team_name(teams: &Vec<(String, Option<i64>)>, id: &str) -> (r: Option<String>)
    ensures
        text::opt(r) == name_of_id(named_views(teams@), id@, 0),
{
    let ghost all = named_views(teams@);
    let mut k: usize = 0;
    while k < teams.len()
        invariant
            k <= teams.len(),
            all == named_views(teams@),
            name_of_id(all, id@, k as int) == name_of_id(all, id@, 0),
        decreases teams.len() - k,
    {
        match lookup_id(teams, teams[k].0.as_str()) {
            Some(Some(n)) => {
                let s = text::dec_int_string(n);
                if text::str_eq(s.as_str(), id) {
                    return Some(teams[k].0.clone());
                }
            },
            _ => {},
        }
        k = k + 1;
    }
    None
}

/// The teams that sizes count for, in the order in which they appear.
pub open spec fn counted_teams(
    users: Seq<(Seq<char>, Option<i64>)>,
    teams: Seq<(Seq<char>, Option<i64>)>,
    team_map: Map<Seq<char>, String>,
    rows: Seq<(Seq<char>, i64)>,
) -> Seq<Seq<char>>
    decreases rows.len(),
{
    if rows.len() == 0 {
        Seq::empty()
    } else {
        let before = counted_teams(users, teams, team_map, rows.drop_last());
        if named_id(users, rows.last().0) is Some {
            match counted_team(teams, team_map, rows.last().0) {
                Some(t) => if before.contains(t) {
                    before
                } else {
                    before.push(t)
                },
                None => before,
            }
        } else {
            before
        }
    }
}

/// What the listed users of a team take together.
pub open spec fn counted_size(
    users: Seq<(Seq<char>, Option<i64>)>,
    teams: Seq<(Seq<char>, Option<i64>)>,
    team_map: Map<Seq<char>, String>,
    rows: Seq<(Seq<char>, i64)>,
    t: Seq<char>,
) -> int
    decreases rows.len(),
{
    if rows.len() == 0 {
        0
    } else {
        let before = counted_size(users, teams, team_map, rows.drop_last(), t);
        if named_id(users, rows.last().0) is Some && counted_team(teams, team_map, rows.last().0)
            == Some(t) {
            before + rows.last().1
        } else {
            before
        }
    }
}

/// Every team's size can be summed up from left to right.
pub open spec fn counted_sizes_fit(
    users: Seq<(Seq<char>, Option<i64>)>,
    teams: Seq<(Seq<char>, Option<i64>)>,
    team_map: Map<Seq<char>, String>,
    rows: Seq<(Seq<char>, i64)>,
) -> bool {
    forall|k: int, t: Seq<char>|
        0 <= k <= rows.len() ==> i64::MIN <= #[trigger] counted_size(
            users,
            teams,
            team_map,
            rows.take(k),
            t,
        ) <= i64::MAX
}

/// The row of one team.
pub open spec fn view_team(
    users: Seq<(Seq<char>, Option<i64>)>,
    teams: Seq<(Seq<char>, Option<i64>)>,
    team_map: Map<Seq<char>, String>,
    rows: Seq<(Seq<char>, i64)>,
    t: Seq<char>,
) -> UsageModel {
    UsageModel {
        name: t,
        team_id: match named_id(teams, t) {
            Some(id) => id,
            None => None,
        },
        size: counted_size(users, teams, team_map, rows, t) as i64,
        kind: "team"@,
    }
}

proof fn lemma_counted(
    users: Seq<(Seq<char>, Option<i64>)>,
    teams: Seq<(Seq<char>, Option<i64>)>,
    team_map: Map<Seq<char>, String>,
    rows: Seq<(Seq<char>, i64)>,
)
    ensures
        counted_teams(users, teams, team_map, rows).no_duplicates(),
        forall|t: Seq<char>|
            !counted_teams(users, teams, team_map, rows).contains(t) ==> #[trigger] counted_size(
                users,
                teams,
                team_map,
                rows,
                t,
            ) == 0,
    decreases rows.len(),
{
    if rows.len() > 0 {
        lemma_counted(users, teams, team_map, rows.drop_last());
        let before = counted_teams(users, teams, team_map, rows.drop_last());
        let now = counted_teams(users, teams, team_map, rows);
        assert(before.is_prefix_of(now));
        assert forall|t: Seq<char>| !now.contains(t) implies #[trigger] counted_size(
            users,
            teams,
            team_map,
            rows,
            t,
        ) == 0 by {
            if before.contains(t) {
                let k = choose|k: int| 0 <= k < before.len() && before[k] == t;
                assert(now[k] == t);
            }
            if now.len() > before.len() {
                assert(now[before.len() as int] == now.last());
            }
            assert(counted_size(users, teams, team_map, rows.drop_last(), t) == 0);
        }
    }
}

fn find_name(names: &Vec<String>, t: &str) -> (r: Option<usize>)
    ensures
        r is None <==> !text::strs(names@).contains(t@),
        r matches Some(i) ==> i < names.len() && names@[i as int]@ == t@,
{
    let mut i: usize = 0;
    while i < names.len()
        invariant
            i <= names.len(),
            forall|k: int| 0 <= k < i ==> #[trigger] text::strs(names@)[k] != t@,
        decreases names.len() - i,
    {
        if text::str_eq(names[i].as_str(), t) {
            assert(text::strs(names@)[i as int] == t@);
            return Some(i);
        }
        i = i + 1;
    }
    None
}

/// The rows of a target's snapshot, from the users of its detail database: who
/// is listed for the target is a `user`, the rest are `other`; listed users that
/// are mapped to a team count for it.
pub fn summarise_view(
    listed: &Vec<(String, i64)>,
    users: &Vec<(String, Option<i64>)>,
    teams: &Vec<(String, Option<i64>)>,
    team_map: &StringHashMap<String>,
) -> (r: SnapshotRows)
    requires
        counted_sizes_fit(
            named_views(users@),
            named_views(teams@),
            team_map@,
            history::usages(listed@),
        ),
    ensures
        r.users@.len() == listed@.len(),
        forall|i: int|
            0 <= i < listed@.len() ==> (#[trigger] r.users@[i])@ == view_user(
                named_views(users@),
                history::usages(listed@)[i],
            ),
        ({
            let names = counted_teams(
                named_views(users@),
                named_views(teams@),
                team_map@,
                history::usages(listed@),
            );
            &&& r.teams@.len() == names.len()
            &&& forall|i: int|
                0 <= i < names.len() ==> (#[trigger] r.teams@[i])@ == view_team(
                    named_views(users@),
                    named_views(teams@),
                    team_map@,
                    history::usages(listed@),
                    names[i],
                )
        }),
{
    let ghost us = named_views(users@);
    let ghost tv = named_views(teams@);
    let ghost rows = history::usages(listed@);
    let mut out: Vec<UsageRow> = Vec::new();
    let mut names: Vec<String> = Vec::new();
    let mut sizes: Vec<i64> = Vec::new();
    let mut i: usize = 0;
    proof {
        assert(rows.take(0) =~= Seq::<(Seq<char>, i64)>::empty());
        assert(text::strs(names@) =~= counted_teams(us, tv, team_map@, rows.take(0)));
    }
    while i < listed.len()
        invariant
            i <= listed.len(),
            us == named_views(users@),
            tv == named_views(teams@),
            rows == history::usages(listed@),
            counted_sizes_fit(us, tv, team_map@, rows),
            out@.len() == i,
            forall|k: int| 0 <= k < i ==> (#[trigger] out@[k])@ == view_user(us, rows[k]),
            text::strs(names@) == counted_teams(us, tv, team_map@, rows.take(i as int)),
            sizes.len() == names.len(),
            forall|k: int|
                0 <= k < names.len() ==> #[trigger] sizes[k] == counted_size(
                    us,
                    tv,
                    team_map@,
                    rows.take(i as int),
                    text::strs(names@)[k],
                ),
        decreases listed.len() - i,
    {
        let name: &String = &listed[i].0;
        let size: i64 = listed[i].1;
        let ghost before = rows.take(i as int);
        let ghost now = rows.take(i + 1);
        proof {
            assert(now.drop_last() =~= before);
            assert(now.last() == (name@, size));
            lemma_counted(us, tv, team_map@, before);
        }
        let ghost names0 = text::strs(names@);
        let ghost sizes0 = sizes@;
        match lookup_id(users, name.as_str()) {
            Some(tid) => {
                out.push(
                    UsageRow { name: name.clone(), team_id: tid, size, kind: "user".to_string() },
                );
                match team_map.get(name.as_str()) {
                    Some(id) => {
                        let t: String = match find_team_name(teams, id.as_str()) {
                            Some(n) => n,
                            None => id.clone(),
                        };
                        proof {
                            assert(counted_team(tv, team_map@, name@) == Some(t@));
                            assert(i64::MIN <= counted_size(
                                us,
                                tv,
                                team_map@,
                                rows.take(i + 1),
                                t@,
                            ) <= i64::MAX);
                        }
                        match find_name(&names, t.as_str()) {
                            Some(k) => {
                                assert(text::strs(names@)[k as int] == t@);
                                sizes.set(k, sizes[k] + size);
                            },
                            None => {
                                names.push(t.clone());
                                sizes.push(size);
                                assert(text::strs(names@) =~= names0.push(t@));
                            },
                        }
                        proof {
                            assert forall|k: int| 0 <= k < names.len() implies #[trigger] sizes[k]
                                == counted_size(us, tv, team_map@, now, text::strs(names@)[k]) by {
                                if k < names0.len() {
                                    assert(text::strs(names@)[k] == names0[k]);
                                    assert(sizes0[k] == counted_size(
                                        us,
                                        tv,
                                        team_map@,
                                        before,
                                        names0[k],
                                    ));
                                    if names0.contains(t@) {
                                        let f = choose|f: int|
                                            0 <= f < names0.len() && names0[f] == t@;
                                        assert(k != f ==> names0[k] != names0[f]);
                                    }
                                } else {
                                    assert(counted_size(us, tv, team_map@, before, t@) == 0);
                                }
                            }
                        }
                    },
                    None => {},
                }
            },
            None => {
                out.push(
                    UsageRow { name: name.clone(), team_id: None, size, kind: "other".to_string() },
                );
            },
        }
        i = i + 1;
    }
    proof {
        assert(rows.take(i as int) =~= rows);
        assert(text::strs(names@).len() == names@.len());
    }
    let mut team_rows: Vec<UsageRow> = Vec::new();
    let mut k: usize = 0;
    while k < names.len()
        invariant
            k <= names.len(),
            us == named_views(users@),
            tv == named_views(teams@),
            team_rows@.len() == k,
            sizes.len() == names.len(),
            forall|j: int|
                0 <= j < names.len() ==> #[trigger] sizes[j] == counted_size(
                    us,
                    tv,
                    team_map@,
                    rows,
                    text::strs(names@)[j],
                ),
            forall|j: int|
                0 <= j < k ==> (#[trigger] team_rows@[j])@ == view_team(
                    us,
                    tv,
                    team_map@,
                    rows,
                    text::strs(names@)[j],
                ),
        decreases names.len() - k,
    {
        let team_id: Option<i64> = match lookup_id(teams, names[k].as_str()) {
            Some(id) => id,
            None => None,
        };
        assert(sizes[k as int] == counted_size(us, tv, team_map@, rows, text::strs(names@)[k as int]));
        let row = UsageRow {
            name: names[k].clone(),
            team_id,
            size: sizes[k],
            kind: "team".to_string(),
        };
        assert(row@ =~= view_team(us, tv, team_map@, rows, text::strs(names@)[k as int]));
        team_rows.push(row);
        k = k + 1;
    }
    SnapshotRows { teams: team_rows, users: out }
}

// ---------------------------------------------------------------------------
// Laws
// ---------------------------------------------------------------------------

/// What follows what for a target of a run: its directory, its report, its treemap where
/// one is asked for and its figures are there, its summary, its history, the purge where
/// an age limit is set, and the merge; then the next target of the tree or, after the
/// last, the cleaning and the next tree.
pub proof fn law_stages_of_a_target(plan: GroupPlan, s: RunModel, b: Built)
    ensures
        s.stage == Stage::MakeDir ==> next_stage(plan, s, GroupEvent::DirMade(Ok(()))).0.stage
            == Stage::Detail,
        s.stage == Stage::Detail ==> next_stage(plan, s, GroupEvent::DetailBuilt(Ok(b))).0.stage
            == (if plan.build_treemap && b.aggregates == Some(true) {
            Stage::Treemap
        } else {
            Stage::Summarise
        }),
        s.stage == Stage::WriteHistory ==> next_stage(
            plan,
            s,
            GroupEvent::HistoryWritten(Ok(())),
        ).0.stage == (if current(plan, s).purge_time is Some && current(plan, s).purge_time->0
            > 0 {
            Stage::Purge
        } else {
            Stage::Merge
        }),
        s.stage == Stage::Merge ==> {
            let next = next_stage(plan, s, GroupEvent::Merged(Ok(()))).0;
            &&& next.root == s.root
            &&& next.view == s.view + 1
            &&& next.stage == (if s.view + 1 < plan.roots@[s.root].views@.len() {
                Stage::MakeDir
            } else {
                Stage::Clean
            })
        },
        s.stage == Stage::Clean ==> {
            let next = next_stage(plan, s, GroupEvent::Cleaned).0;
            &&& next.root == s.root + 1
            &&& next.view == 0
            &&& next.stage == (if s.root + 1 < plan.roots@.len() {
                Stage::Scan
            } else {
                Stage::Finished
            })
        },
{
}

/// An entry is in the manifest of a run exactly if a group that went well has it, and an
/// error exactly if it is that of a group that did not.
pub proof fn law_manifests_list_all_groups(
    groups: Seq<Result<Seq<Seq<char>>, Seq<char>>>,
    x: Seq<char>,
)
    ensures
        good_entries(groups).contains(x) <==> exists|g: int|
            0 <= g < groups.len() && (#[trigger] groups[g]) is Ok && groups[g]->Ok_0.contains(x),
        group_errors(groups).contains(x) <==> exists|g: int|
            0 <= g < groups.len() && (#[trigger] groups[g]) is Err && groups[g]->Err_0 == x,
    decreases groups.len(),
{
    if groups.len() > 0 {
        let head = groups.drop_last();
        let k = groups.len() - 1;
        law_manifests_list_all_groups(head, x);
        let (a, b) = (good_entries(head), group_errors(head));
        let (c, d) = (good_entries(groups), group_errors(groups));
        if a.contains(x) {
            let g = choose|g: int|
                0 <= g < head.len() && (#[trigger] head[g]) is Ok && head[g]->Ok_0.contains(x);
            assert(groups[g] == head[g]);
            let i = choose|i: int| 0 <= i < a.len() && a[i] == x;
            assert(c[i] == x);
        }
        if b.contains(x) {
            let g = choose|g: int|
                0 <= g < head.len() && (#[trigger] head[g]) is Err && head[g]->Err_0 == x;
            assert(groups[g] == head[g]);
            let i = choose|i: int| 0 <= i < b.len() && b[i] == x;
            assert(d[i] == x);
        }
        if groups[k] is Ok {
            let v = groups[k]->Ok_0;
            if v.contains(x) {
                let i = choose|i: int| 0 <= i < v.len() && v[i] == x;
                assert(c[a.len() + i] == x);
            }
            if c.contains(x) {
                let i = choose|i: int| 0 <= i < c.len() && c[i] == x;
                if i < a.len() {
                    assert(a[i] == x);
                } else {
                    assert(v[i - a.len()] == x);
                }
            }
        } else {
            if groups[k]->Err_0 == x {
                assert(d[b.len() as int] == x);
            }
            if d.contains(x) {
                let i = choose|i: int| 0 <= i < d.len() && d[i] == x;
                if i < b.len() {
                    assert(b[i] == x);
                }
            }
        }
        if exists|g: int|
            0 <= g < groups.len() && (#[trigger] groups[g]) is Ok && groups[g]->Ok_0.contains(x) {
            let g = choose|g: int|
                0 <= g < groups.len() && (#[trigger] groups[g]) is Ok && groups[g]->Ok_0.contains(
                    x,
                );
            if g < k {
                assert(head[g] == groups[g]);
            }
        }
        if exists|g: int|
            0 <= g < groups.len() && (#[trigger] groups[g]) is Err && groups[g]->Err_0 == x {
            let g = choose|g: int|
                0 <= g < groups.len() && (#[trigger] groups[g]) is Err && groups[g]->Err_0 == x;
            if g < k {
                assert(head[g] == groups[g]);
            }
        }
    }
}

/// A run fails as a whole exactly if a group failed and no group has an entry.
pub proof fn law_runs_fail_only_without_entries(groups: Seq<Result<Seq<Seq<char>>, Seq<char>>>)
    ensures
        manifest_of(groups) is Err <==> group_errors(groups).len() > 0 && good_entries(groups).len()
            == 0,
{
}

/// A text is escaped piece by piece, and of all characters only a quote changes: a
/// backslash is put before it.
pub proof fn law_escaped_texts(a: Seq<char>, b: Seq<char>, c: char)
    ensures
        escaped(a + b) == escaped(a) + escaped(b),
        c != '"' ==> escaped(seq![c]) == seq![c],
        escaped(seq!['"']) == seq!['\\', '"'],
    decreases b.len(),
{
    assert(escaped(Seq::<char>::empty()) =~= Seq::<char>::empty());
    assert(seq![c].drop_last() =~= Seq::<char>::empty());
    assert(seq!['"'].drop_last() =~= Seq::<char>::empty());
    assert(escaped(seq!['"']) =~= seq!['\\', '"']);
    if c != '"' {
        assert(escaped(seq![c]) =~= seq![c]);
    }
    if b.len() == 0 {
        assert(a + b =~= a);
        assert(escaped(a) + escaped(b) =~= escaped(a));
    } else {
        law_escaped_texts(a, b.drop_last(), c);
        assert((a + b).drop_last() =~= a + b.drop_last());
        assert((a + b).last() == b.last());
        assert(escaped(a + b) =~= escaped(a) + escaped(b));
    }
}

/// Of several entries for a name the last gives its id, and a name without an entry has
/// none.
pub proof fn law_last_id_of_a_name(v: Seq<(Seq<char>, Option<i64>)>, name: Seq<char>, k: int)
    ensures
        0 <= k < v.len() && v[k].0 == name && (forall|j: int|
            k < j < v.len() ==> (#[trigger] v[j]).0 != name) ==> named_id(v, name) == Some(v[k].1),
        (forall|j: int| 0 <= j < v.len() ==> (#[trigger] v[j]).0 != name) ==> named_id(
            v,
            name,
        ) is None,
    decreases v.len(),
{
    if v.len() > 0 {
        let head = v.drop_last();
        law_last_id_of_a_name(head, name, k);
        if 0 <= k < v.len() - 1 && v[k].0 == name && (forall|j: int|
            k < j < v.len() ==> (#[trigger] v[j]).0 != name) {
            assert(v[v.len() - 1].0 != name);
            assert(head[k] == v[k]);
            assert forall|j: int| k < j < head.len() implies (#[trigger] head[j]).0 != name by {
                assert(head[j] == v[j]);
            }
        }
        if forall|j: int| 0 <= j < v.len() ==> (#[trigger] v[j]).0 != name {
            assert(v[v.len() - 1].0 != name);
            assert forall|j: int| 0 <= j < head.len() implies (#[trigger] head[j]).0 != name by {
                assert(head[j] == v[j]);
            }
        }
    }
}

/// The rows of a target's users keep names and sizes; who is listed for the target is a
/// `user` with its own team, and who is not is an `other` without one.
pub proof fn law_users_of_a_target(
    users: Seq<(Seq<char>, Option<i64>)>,
    row: (Seq<char>, i64),
)
    ensures
        view_user(users, row).name == row.0,
        view_user(users, row).size == row.1,
        named_id(users, row.0) is None ==> view_user(users, row).kind == "other"@ && view_user(
            users,
            row,
        ).team_id is None,
        named_id(users, row.0) is Some ==> view_user(users, row).kind == "user"@ && view_user(
            users,
            row,
        ).team_id == named_id(users, row.0)->0,
{
}

/// One more user adds its size to the team that it counts for, where it is listed, and to
/// no other team.
pub proof fn law_sizes_of_teams(
    users: Seq<(Seq<char>, Option<i64>)>,
    teams: Seq<(Seq<char>, Option<i64>)>,
    team_map: Map<Seq<char>, String>,
    rows: Seq<(Seq<char>, i64)>,
    row: (Seq<char>, i64),
    t: Seq<char>,
)
    ensures
        counted_size(users, teams, team_map, Seq::empty(), t) == 0,
        named_id(users, row.0) is Some && counted_team(teams, team_map, row.0) == Some(t)
            ==> counted_size(users, teams, team_map, rows.push(row), t) == counted_size(
            users,
            teams,
            team_map,
            rows,
            t,
        ) + row.1,
        !(named_id(users, row.0) is Some && counted_team(teams, team_map, row.0) == Some(t))
            ==> counted_size(users, teams, team_map, rows.push(row), t) == counted_size(
            users,
            teams,
            team_map,
            rows,
            t,
        ),
        !team_map.contains_key(row.0) ==> counted_team(teams, team_map, row.0) is None,
{
    assert(rows.push(row).drop_last() =~= rows);
}

} // verus!
