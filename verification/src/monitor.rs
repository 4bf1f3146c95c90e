//! The live view of a scan: a row for each target, and what is told at the end.

use crate::display;
use crate::text;
use crate::tui_nav::Key;
use crate::tui_nav::KeyCode;
use vstd::prelude::*;

verus! {

/// The progress of one target.
pub struct ScanProgress {
    pub target: String,
    pub phase: String,
    pub files: u64,
    pub dirs: u64,
    pub size: u64,
    pub error: String,
}

#[verifier::ext_equal]
pub struct ProgressModel {
    pub target: Seq<char>,
    pub phase: Seq<char>,
    pub files: u64,
    pub dirs: u64,
    pub size: u64,
    pub error: Seq<char>,
}

impl View for ScanProgress {
    type V = ProgressModel;

    open spec fn view(&self) -> ProgressModel {
        ProgressModel {
            target: self.target@,
            phase: self.phase@,
            files: self.files,
            dirs: self.dirs,
            size: self.size,
            error: self.error@,
        }
    }
}

/// A target that has not begun.
pub open spec fn waiting(target: Seq<char>) -> ProgressModel {
    ProgressModel {
        target,
        phase: "waiting"@,
        files: 0,
        dirs: 0,
        size: 0,
        error: Seq::empty(),
    }
}

impl ScanProgress {
    /// A target that has not begun.
    pub fn new(target: &str) -> (r: Self)
        ensures
            r@ == waiting(target@),
    {
        let r = ScanProgress {
            target: target.to_string(),
            phase: "waiting".to_string(),
            files: 0,
            dirs: 0,
            size: 0,
            error: String::new(),
        };
        assert(r.error@ =~= Seq::<char>::empty());
        r
    }
}

/// The state of the live view.
pub struct AppState {
    pub targets: Vec<ScanProgress>,
    pub running: bool,
    pub abort: bool,
}

/// The rows of the view.
pub open spec fn progress_views(v: Seq<ScanProgress>) -> Seq<ProgressModel> {
    Seq::new(v.len(), |i: int| v[i]@)
}

/// The names of the rows.
pub open spec fn row_names(v: Seq<ProgressModel>) -> Seq<Seq<char>> {
    Seq::new(v.len(), |i: int| v[i].target)
}

/// The rows once the first of a target's was replaced; unchanged where it has none.
pub open spec fn updated(rows: Seq<ProgressModel>, p: ProgressModel) -> Seq<ProgressModel> {
    if row_names(rows).contains(p.target) {
        rows.update(text::place(row_names(rows), p.target), p)
    } else {
        rows
    }
}

/// The files of all rows.
pub open spec fn sum_files(v: Seq<ProgressModel>) -> int
    decreases v.len(),
{
    if v.len() == 0 {
        0
    } else {
        sum_files(v.drop_last()) + v.last().files
    }
}

/// The directories of all rows.
pub open spec fn sum_dirs(v: Seq<ProgressModel>) -> int
    decreases v.len(),
{
    if v.len() == 0 {
        0
    } else {
        sum_dirs(v.drop_last()) + v.last().dirs
    }
}

/// The bytes of all rows.
pub open spec fn sum_sizes(v: Seq<ProgressModel>) -> int
    decreases v.len(),
{
    if v.len() == 0 {
        0
    } else {
        sum_sizes(v.drop_last()) + v.last().size
    }
}

proof fn lemma_sums_grow(v: Seq<ProgressModel>, n: int)
    requires
        0 <= n <= v.len(),
    ensures
        0 <= sum_files(v.take(n)) <= sum_files(v),
        0 <= sum_dirs(v.take(n)) <= sum_dirs(v),
        0 <= sum_sizes(v.take(n)) <= sum_sizes(v),
    decreases v.len(),
{
    if n == v.len() {
        assert(v.take(n) =~= v);
        if n > 0 {
            assert(v.drop_last().take(n - 1) =~= v.drop_last());
            lemma_sums_grow(v.drop_last(), n - 1);
        }
    } else {
        assert(v.drop_last().take(n) =~= v.take(n));
        lemma_sums_grow(v.drop_last(), n);
    }
}

/// The sums of all rows.
pub struct Totals {
    pub files: u64,
    pub dirs: u64,
    pub size: u64,
}

impl AppState {
    /// The rows.
    pub open spec fn model(&self) -> Seq<ProgressModel> {
        progress_views(self.targets@)
    }

    /// The view of targets that have not begun.
    pub fn new(target_names: &Vec<String>) -> (r: Self)
        ensures
            r.model() == Seq::new(target_names@.len(), |i: int| waiting(target_names@[i]@)),
            r.running,
            !r.abort,
    {
        let mut targets: Vec<ScanProgress> = Vec::new();
        let mut i: usize = 0;
        while i < target_names.len()
            invariant
                i <= target_names.len(),
                targets@.len() == i,
                forall|k: int| 0 <= k < i ==> (#[trigger] targets@[k])@ == waiting(target_names@[k]@),
            decreases target_names.len() - i,
        {
            targets.push(ScanProgress::new(target_names[i].as_str()));
            i = i + 1;
        }
        let r = AppState { targets, running: true, abort: false };
        assert(r.model() =~= Seq::new(target_names@.len(), |i: int| waiting(target_names@[i]@)));
        r
    }

    fn find_row(&self, name: &str) -> (r: Option<usize>)
        ensures
            r is Some <==> row_names(self.model()).contains(name@),
            r matches Some(i) ==> i < self.targets@.len() && i == text::place(
                row_names(self.model()),
                name@,
            ),
    {
        let ghost names = row_names(self.model());
        proof {
            text::lemma_place(names, name@);
        }
        let mut i: usize = 0;
        while i < self.targets.len()
            invariant
                i <= self.targets@.len(),
                names == row_names(self.model()),
                forall|k: int| 0 <= k < i ==> #[trigger] names[k] != name@,
            decreases self.targets@.len() - i,
        {
            if text::str_eq(self.targets[i].target.as_str(), name) {
                proof {
                    assert(names[i as int] == name@);
                    text::lemma_place_unique(names, name@, i as int);
                }
                return Some(i);
            }
            assert(names[i as int] != name@);
            i = i + 1;
        }
        proof {
            text::lemma_place_unique(names, name@, i as int);
        }
        None
    }

    /// The row of a target, to change it.
    pub fn target_mut(&mut self, name: &str) -> (r: Option<&mut ScanProgress>)
        ensures
            r is Some <==> row_names(old(self).model()).contains(name@),
            match r {
                Some(t) => {
                    let i = text::place(row_names(old(self).model()), name@);
                    &&& 0 <= i < old(self).targets@.len()
                    &&& *t == old(self).targets@[i]
                    &&& final(self).running == old(self).running
                    &&& final(self).abort == old(self).abort
                    &&& final(self).targets@ == old(self).targets@.update(i, *final(t))
                },
                None => *final(self) == *old(self),
            },
    {
        match self.find_row(name) {
            Some(i) => Some(&mut self.targets[i]),
            None => None,
        }
    }

    /// Takes over what a target's scan reports.
    pub fn update(&mut self, name: &str, files: u64, dirs: u64, size: u64, phase: &str, error: &str)
        ensures
            final(self).running == old(self).running,
            final(self).abort == old(self).abort,
            final(self).model() == updated(
                old(self).model(),
                ProgressModel {
                    target: name@,
                    phase: phase@,
                    files,
                    dirs,
                    size,
                    error: error@,
                },
            ),
    {
        proof {
            text::lemma_place(row_names(self.model()), name@);
        }
        match self.find_row(name) {
            Some(i) => {
                let ghost before = self.targets@;
                let t: &mut ScanProgress = &mut self.targets[i];
                t.files = files;
                t.dirs = dirs;
                t.size = size;
                t.phase = phase.to_string();
                t.error = error.to_string();
                proof {
                    let now = self.targets@[i as int];
                    assert(row_names(progress_views(before))[i as int] == name@);
                    assert(progress_views(self.targets@) =~= progress_views(before).update(
                        i as int,
                        now@,
                    ));
                }
            },
            None => {},
        }
    }

    /// The sums of all rows.
    pub fn totals(&self) -> (r: Totals)
        requires
            sum_files(self.model()) <= u64::MAX,
            sum_dirs(self.model()) <= u64::MAX,
            sum_sizes(self.model()) <= u64::MAX,
        ensures
            r.files == sum_files(self.model()),
            r.dirs == sum_dirs(self.model()),
            r.size == sum_sizes(self.model()),
    {
        let ghost all = self.model();
        let mut files: u64 = 0;
        let mut dirs: u64 = 0;
        let mut size: u64 = 0;
        let mut i: usize = 0;
        while i < self.targets.len()
            invariant
                i <= self.targets@.len(),
                all == self.model(),
                sum_files(all) <= u64::MAX,
                sum_dirs(all) <= u64::MAX,
                sum_sizes(all) <= u64::MAX,
                files == sum_files(all.take(i as int)),
                dirs == sum_dirs(all.take(i as int)),
                size == sum_sizes(all.take(i as int)),
            decreases self.targets@.len() - i,
        {
            proof {
                assert(all.take(i + 1).drop_last() =~= all.take(i as int));
                assert(all.take(i + 1).last() == all[i as int]);
                lemma_sums_grow(all, i + 1);
            }
            files = files + self.targets[i].files;
            dirs = dirs + self.targets[i].dirs;
            size = size + self.targets[i].size;
            i = i + 1;
        }
        assert(all.take(i as int) =~= all);
        Totals { files, dirs, size }
    }

    /// What the last line of the view says of the scan as a whole.
    pub fn state_text(&self) -> (r: &'static str)
        ensures
            r@ == (if self.abort {
                "ABORTING\u{2026}"@
            } else if self.running {
                "running"@
            } else {
                "done"@
            }),
    {
        if self.abort {
            "ABORTING\u{2026}"
        } else if self.running {
            "running"
        } else {
            "done"
        }
    }
}

/// Counts of files and directories.
pub open spec fn counts_text(files: nat, dirs: nat) -> Seq<char> {
    text::dec(files) + " files, "@ + text::dec(dirs) + " dirs"@
}

fn counts(files: u64, dirs: u64) -> (r: String)
    ensures
        r@ == counts_text(files as nat, dirs as nat),
{
    let f = text::dec_string(files);
    let d = text::dec_string(dirs);
    text::cat4(f.as_str(), " files, ", d.as_str(), " dirs")
}

/// What is told when a scan is over, after so many tenths of a second.
pub fn closing_line(aborted: bool, files: u64, dirs: u64, tenths: u64) -> (r: String)
    ensures
        r@ == (if aborted {
            "Scan aborted: "@ + counts_text(files as nat, dirs as nat) + " (partial)"@
        } else {
            "Scan complete: "@ + counts_text(files as nat, dirs as nat) + " | "@
                + display::seconds_text(tenths as nat)
        }),
{
    let c = counts(files, dirs);
    if aborted {
        text::cat3("Scan aborted: ", c.as_str(), " (partial)")
    } else {
        let t = display::fmt_seconds(tenths);
        text::cat4("Scan complete: ", c.as_str(), " | ", t.as_str())
    }
}

/// What is told where no screen is, before the targets are scanned.
pub fn opening_line(targets: usize) -> (r: String)
    ensures
        r@ == "Scanning "@ + text::dec(targets as nat) + " target(s)..."@,
{
    let n = text::dec_string(targets as u64);
    text::cat3("Scanning ", n.as_str(), " target(s)...")
}

/// How far a target is: its counts, its time in tenths of a second, the memory in
/// use in megabytes, and the files that come in a second.
pub struct Pulse {
    pub files: u64,
    pub dirs: u64,
    pub size: u64,
    pub tenths: u64,
    pub mem_mb: u64,
    pub rate: u64,
}

impl Pulse {
    /// The time and the memory.
    pub open spec fn cost(self) -> Seq<char> {
        display::seconds_text(self.tenths as nat) + " "@ + text::dec(self.mem_mb as nat) + " MB"@
    }

    /// The counts and the size.
    pub open spec fn found(self) -> Seq<char> {
        counts_text(self.files as nat, self.dirs as nat) + ", "@ + display::screen_size_text(
            self.size as int,
        )
    }

    fn cost_text(&self) -> (r: String)
        ensures
            r@ == self.cost(),
    {
        let t = display::fmt_seconds(self.tenths);
        let m = text::dec_string(self.mem_mb);
        text::cat4(t.as_str(), " ", m.as_str(), " MB")
    }

    fn found_text(&self) -> (r: String)
        ensures
            r@ == self.found(),
    {
        let c = counts(self.files, self.dirs);
        let s = fmt_size(self.size);
        text::cat3(c.as_str(), ", ", s.as_str())
    }
}

/// What is told of a target where no screen is. `shown` is the phase that was told
/// of last: a walk is told of again and again, the build of a report and the end
/// once, and other phases not.
pub open spec fn plain_text(name: Seq<char>, shown: Seq<char>, phase: Seq<char>, p: Pulse) -> Option<
    Seq<char>,
> {
    let head = "["@ + name + "] "@;
    if phase == "scanning"@ {
        if shown == phase {
            Some(
                head + (counts_text(p.files as nat, p.dirs as nat) + " | "@ + p.cost() + " ("@
                    + text::dec(p.rate as nat) + " files/s)"@),
            )
        } else {
            Some(head + "Started scanning..."@)
        }
    } else if shown == phase {
        None
    } else if phase == "building"@ {
        Some(head + ("Building detail DB... ("@ + p.found() + " | "@ + p.cost() + ")"@))
    } else if phase == "done"@ {
        Some(head + ("Done: "@ + p.found() + " | "@ + p.cost()))
    } else {
        None
    }
}

/// What is told of a target where no screen is.
pub fn plain_line(name: &str, shown: &str, phase: &str, p: &Pulse) -> (r: Option<String>)
    ensures
        text::opt(r) == plain_text(name@, shown@, phase@, *p),
{
    let head = text::cat3("[", name, "] ");
    let same = text::str_eq(shown, phase);
    let cost = p.cost_text();
    if text::str_eq(phase, "scanning") {
        if same {
            let c = counts(p.files, p.dirs);
            let rate = text::dec_string(p.rate);
            let s = text::cat5(c.as_str(), " | ", cost.as_str(), " (", rate.as_str());
            let s = text::cat2(s.as_str(), " files/s)");
            Some(text::cat2(head.as_str(), s.as_str()))
        } else {
            Some(text::cat2(head.as_str(), "Started scanning..."))
        }
    } else if same {
        None
    } else if text::str_eq(phase, "building") {
        let found = p.found_text();
        let s = text::cat5("Building detail DB... (", found.as_str(), " | ", cost.as_str(), ")");
        Some(text::cat2(head.as_str(), s.as_str()))
    } else if text::str_eq(phase, "done") {
        let found = p.found_text();
        let s = text::cat4("Done: ", found.as_str(), " | ", cost.as_str());
        Some(text::cat2(head.as_str(), s.as_str()))
    } else {
        None
    }
}

/// How many files came since the last look; a count that went back counts as
/// none.
pub fn files_since(files: u64, before: u64) -> (r: u64)
    ensures
        r == (if files >= before {
            files - before
        } else {
            0
        }),
{
    if files >= before {
        files - before
    } else {
        0
    }
}

/// The mark of a phase: done, failed, waiting, queued for its build, or active.
pub open spec fn mark_of(phase: Seq<char>) -> Seq<char> {
    if phase == "done"@ {
        " \u{2713}"@
    } else if phase == "error"@ {
        " \u{2717}"@
    } else if phase == "waiting"@ {
        " \u{25cb}"@
    } else if phase == "queued"@ {
        " \u{23f8}"@
    } else {
        " \u{25c7}"@
    }
}

/// The mark of a phase.
pub fn phase_mark(phase: &str) -> (r: &'static str)
    ensures
        r@ == mark_of(phase@),
{
    if text::str_eq(phase, "done") {
        " \u{2713}"
    } else if text::str_eq(phase, "error") {
        " \u{2717}"
    } else if text::str_eq(phase, "waiting") {
        " \u{25cb}"
    } else if text::str_eq(phase, "queued") {
        " \u{23f8}"
    } else {
        " \u{25c7}"
    }
}

/// A phase as its row shows it: an error with what it is.
pub fn phase_text(phase: &str, error: &str) -> (r: String)
    ensures
        r@ == (if phase@ == "error"@ && error@.len() > 0 {
            "error: "@ + error@
        } else {
            phase@
        }),
{
    if text::str_eq(phase, "error") && !error.is_empty() {
        text::cat2("error: ", error)
    } else {
        phase.to_string()
    }
}

/// The size in a row of the view.
pub fn fmt_size(sz: u64) -> (r: String)
    ensures
        r@ == display::screen_size_text(sz as int),
{
    display::fmt_size_u64(sz)
}

/// The keys that abort a scan: `q`, escape, and `c` with the control key.
pub open spec fn aborts(key: Key) -> bool {
    ||| key.code == KeyCode::Char('q')
    ||| key.code == KeyCode::Esc
    ||| key.code == KeyCode::Char('c') && key.ctrl
}

/// Whether a key aborts the scan.
pub fn asks_abort(key: Key) -> (r: bool)
    ensures
        r == aborts(key),
{
    match key.code {
        KeyCode::Char(c) => c == 'q' || (c == 'c' && key.ctrl),
        KeyCode::Esc => true,
        _ => false,
    }
}

/// What a target's scan reports goes into the row of that target and no other.
pub proof fn law_updates_reach_one_row(
    rows: Seq<ProgressModel>,
    p: ProgressModel,
    i: int,
    k: int,
)
    requires
        0 <= i < rows.len(),
        0 <= k < rows.len(),
        rows[i].target == p.target,
        forall|j: int| 0 <= j < i ==> (#[trigger] rows[j]).target != p.target,
    ensures
        ({
            let now = updated(rows, p);
            &&& now.len() == rows.len()
            &&& now[i] == p
            &&& k != i ==> now[k] == rows[k]
        }),
{
    let names = row_names(rows);
    assert forall|j: int| 0 <= j < i implies #[trigger] names[j] != p.target by {
        assert(rows[j].target != p.target);
    }
    assert(names[i] == p.target);
    text::lemma_place_unique(names, p.target, i);
}

/// The totals of the view are those of its rows: one more row adds what it counts.
pub proof fn law_totals_of_rows(rows: Seq<ProgressModel>, p: ProgressModel)
    ensures
        sum_files(rows.push(p)) == sum_files(rows) + p.files,
        sum_dirs(rows.push(p)) == sum_dirs(rows) + p.dirs,
        sum_sizes(rows.push(p)) == sum_sizes(rows) + p.size,
        sum_files(Seq::empty()) == 0,
        sum_dirs(Seq::empty()) == 0,
        sum_sizes(Seq::empty()) == 0,
{
    assert(rows.push(p).drop_last() =~= rows);
}

} // verus!
