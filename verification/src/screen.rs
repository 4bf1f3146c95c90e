//! The configuration screen as a whole: what is selected, what is shown of it,
//! and what keys and finished work do to it.

use crate::cli::UserList;
use crate::cli;
use crate::config::Config;
use crate::config::OverridesModel;
use crate::config::SettingsModel;
use crate::config::Target;
use crate::config::TargetModel;
use crate::config::Team;
use crate::config::TeamModel;
use crate::config::User;
use crate::config::UserModel;
use crate::config;
use crate::listing::TreeEntry;
use crate::paths;
use crate::text;
use crate::tui::ConfirmAction;
use crate::tui::InputKind;
use crate::tui::Mode;
use crate::tui;
use crate::tui_nav::Action;
use crate::tui_nav::Cursor;
use crate::tui_nav::KeyCode;
use crate::tui_nav::Move;
use crate::tui_nav::Notice;
use crate::tui_nav::OutputView;
use crate::tui_nav::Question;
use crate::tui_nav::SCANSYNC_LAST;
use crate::tui_nav::SETTINGS_LAST;
use crate::tui_nav::SettingField;
use crate::tui_nav::Tab;
use crate::tui_nav::TargetField;
use vstd::prelude::*;
use vstd::slice::slice_subrange;

verus! {

/// The screen's state.
pub struct App {
    pub cfg: Config,
    pub cursor: Cursor,
    pub mode: Mode,
    pub status: String,
    pub quit: bool,
    /// The targets of a scan that was asked for; none named means all.
    pub pending_scan: Option<Vec<String>>,
    /// The directories of the treemap from its root down to the one that is open.
    pub tm_stack: Vec<(i64, String)>,
    pub filter: String,
    /// The filter in lower case.
    pub filter_lower: String,
}

/// What a typed line is for.
pub enum KindModel {
    NewTargetName,
    NewTargetPath(Seq<char>),
    NewTeam,
    AddUsers(Seq<char>),
    Target(TargetField),
    Setting(SettingField),
}

/// What waits for a yes.
pub enum ConfirmModel {
    DeleteTarget(Seq<char>),
    DeleteTeam(Seq<char>),
    DeleteUser(Seq<char>),
}

/// What the keys are for.
#[verifier::ext_equal]
pub enum ModeModel {
    Browse,
    Input { kind: KindModel, prompt: Seq<char>, buf: Seq<char>, completions: Seq<Seq<char>> },
    Confirm { action: ConfirmModel, prompt: Seq<char> },
}

/// The screen's state but for the configuration.
#[verifier::ext_equal]
pub struct ScreenModel {
    pub cursor: Cursor,
    pub mode: ModeModel,
    pub status: Seq<char>,
    pub quit: bool,
    pub pending_scan: Option<Seq<Seq<char>>>,
    pub tm_stack: Seq<(i64, Seq<char>)>,
    pub filter: Seq<char>,
    pub filter_lower: Seq<char>,
}

/// What a typed line is for.
pub open spec fn kind_model(k: InputKind) -> KindModel {
    match k {
        InputKind::NewTargetName => KindModel::NewTargetName,
        InputKind::NewTargetPath { name } => KindModel::NewTargetPath(name@),
        InputKind::NewTeam => KindModel::NewTeam,
        InputKind::AddUsers { team } => KindModel::AddUsers(team@),
        InputKind::Target(f) => KindModel::Target(f),
        InputKind::Setting(f) => KindModel::Setting(f),
    }
}

/// What waits for a yes.
pub open spec fn confirm_model(a: ConfirmAction) -> ConfirmModel {
    match a {
        ConfirmAction::DeleteTarget(n) => ConfirmModel::DeleteTarget(n@),
        ConfirmAction::DeleteTeam(n) => ConfirmModel::DeleteTeam(n@),
        ConfirmAction::DeleteUser(n) => ConfirmModel::DeleteUser(n@),
    }
}

/// What the keys are for.
pub open spec fn mode_model(m: Mode) -> ModeModel {
    match m {
        Mode::Browse => ModeModel::Browse,
        Mode::Input { kind, prompt, buf, completions } => ModeModel::Input {
            kind: kind_model(kind),
            prompt: prompt@,
            buf: buf@,
            completions: text::strs(completions@),
        },
        Mode::Confirm { action, prompt } => ModeModel::Confirm {
            action: confirm_model(action),
            prompt: prompt@,
        },
    }
}

/// The names of directories, each with its id.
pub open spec fn stack_views(v: Seq<(i64, String)>) -> Seq<(i64, Seq<char>)> {
    Seq::new(v.len(), |i: int| (v[i].0, v[i].1@))
}

/// The targets of a scan that was asked for.
pub open spec fn pending_views(v: Option<Vec<String>>) -> Option<Seq<Seq<char>>> {
    match v {
        Some(names) => Some(text::strs(names@)),
        None => None,
    }
}

impl View for App {
    type V = ScreenModel;

    open spec fn view(&self) -> ScreenModel {
        ScreenModel {
            cursor: self.cursor,
            mode: mode_model(self.mode),
            status: self.status@,
            quit: self.quit,
            pending_scan: pending_views(self.pending_scan),
            tm_stack: stack_views(self.tm_stack@),
            filter: self.filter@,
            filter_lower: self.filter_lower@,
        }
    }
}

impl ScreenModel {
    /// Whether the lower-case filter is that of the filter.
    pub open spec fn filter_is_synced(self) -> bool {
        self.filter_lower == paths::lowercase(self.filter)
    }
}

/// The cursor at the start.
pub open spec fn first_cursor() -> Cursor {
    Cursor {
        tab: Tab::Targets,
        target: 0,
        team: 0,
        user: 0,
        setting: 0,
        scansync: 0,
        output: OutputView::History,
        snapshot: 0,
        detail: 0,
        tree: 0,
        filtering: false,
    }
}

/// What is said at the start.
pub open spec fn welcome() -> Seq<char> {
    "\u{21b9} tab \u{b7} \u{2191}\u{2193} move \u{b7} a add \u{b7} e edit \u{b7} d delete \u{b7} r scan \u{b7} R scan-all \u{b7} q quit"@
}

// ---------------------------------------------------------------------------
// What is selected
// ---------------------------------------------------------------------------

/// The name of the selected target.
pub open spec fn target_name(ts: Seq<TargetModel>, c: Cursor) -> Option<Seq<char>> {
    if c.target < ts.len() {
        Some(ts[c.target as int].name)
    } else {
        None
    }
}

/// The name of the selected team of the selected target.
pub open spec fn team_name(ts: Seq<TargetModel>, c: Cursor) -> Option<Seq<char>> {
    if c.target < ts.len() && c.team < ts[c.target as int].teams.len() {
        Some(ts[c.target as int].teams[c.team as int].name)
    } else {
        None
    }
}

/// The users of the selected team.
pub open spec fn team_members(ts: Seq<TargetModel>, c: Cursor) -> Seq<Seq<char>> {
    if c.target < ts.len() && c.team < ts[c.target as int].teams.len() {
        config::members(ts[c.target as int].users, ts[c.target as int].teams[c.team as int].team_id)
    } else {
        Seq::empty()
    }
}

/// Whether a filter lets a name through, in whatever case; the empty one lets
/// everything through.
pub open spec fn let_through(lower: Seq<char>, name: Seq<char>) -> bool {
    lower.len() == 0 || text::has_sub(paths::lowercase(name), lower)
}

/// The users of the selected team that the filter lets through.
pub open spec fn shown_members(ts: Seq<TargetModel>, c: Cursor, lower: Seq<char>) -> Seq<Seq<char>> {
    team_members(ts, c).filter(|n: Seq<char>| let_through(lower, n))
}

/// An index in a list of `n`, or the last one.
pub open spec fn within(i: usize, n: int) -> usize {
    if i < n {
        i
    } else if n == 0 {
        0
    } else {
        (n - 1) as usize
    }
}

/// The cursor with the target, the team and the user that there are.
pub open spec fn clamped(ts: Seq<TargetModel>, c: Cursor, lower: Seq<char>) -> Cursor {
    let target = within(c.target, ts.len() as int);
    let teams: int = if target < ts.len() {
        ts[target as int].teams.len() as int
    } else {
        0
    };
    let on_team = Cursor { target, team: within(c.team, teams), ..c };
    Cursor {
        user: within(c.user, shown_members(ts, on_team, lower).len() as int),
        setting: if c.setting > SETTINGS_LAST {
            SETTINGS_LAST
        } else {
            c.setting
        },
        scansync: if c.scansync > SCANSYNC_LAST {
            SCANSYNC_LAST
        } else {
            c.scansync
        },
        ..on_team
    }
}

fn bounded(i: usize, n: usize) -> (r: usize)
    ensures
        r == within(i, n as int),
{
    if i < n {
        i
    } else if n == 0 {
        0
    } else {
        n - 1
    }
}

fn is_let_through(lower: &str, name: &str) -> (r: bool)
    ensures
        r == let_through(lower@, name@),
{
    if lower.is_empty() {
        return true;
    }
    let low = name.to_lowercase();
    let hay = text::to_chars(low.as_str());
    let needle = text::to_chars(lower);
    text::find_chars(&hay, &needle).is_some()
}

/// The names that a filter lets through.
pub fn filter_names(names: &Vec<String>, lower: &str) -> (r: Vec<String>)
    ensures
        text::strs(r@) == text::strs(names@).filter(|n: Seq<char>| let_through(lower@, n)),
{
    let ghost all = text::strs(names@);
    let ghost f = |n: Seq<char>| let_through(lower@, n);
    let mut out: Vec<String> = Vec::new();
    let mut i: usize = 0;
    proof {
        reveal(Seq::filter);
        assert(text::strs(out@) =~= all.take(0).filter(f));
    }
    while i < names.len()
        invariant
            i <= names.len(),
            all == text::strs(names@),
            f == (|n: Seq<char>| let_through(lower@, n)),
            text::strs(out@) == all.take(i as int).filter(f),
        decreases names.len() - i,
    {
        proof {
            reveal(Seq::filter);
            assert(all.take(i + 1).drop_last() =~= all.take(i as int));
            assert(all.take(i + 1).last() == names@[i as int]@);
        }
        if is_let_through(lower, names[i].as_str()) {
            text::push_text(&mut out, names[i].as_str());
        }
        i = i + 1;
    }
    assert(all.take(i as int) =~= all);
    out
}

fn names_on_team(users: &Vec<User>, id: i64) -> (r: Vec<String>)
    ensures
        text::strs(r@) == config::members(config::user_views(users@), id),
{
    let ghost all = config::user_views(users@);
    let ghost f = |u: UserModel| u.team_id == id;
    let ghost g = |u: UserModel| u.name;
    let mut out: Vec<String> = Vec::new();
    let mut i: usize = 0;
    proof {
        reveal(Seq::filter);
        assert(text::strs(out@) =~= all.take(0).filter(f).map_values(g));
    }
    while i < users.len()
        invariant
            i <= users.len(),
            all == config::user_views(users@),
            f == (|u: UserModel| u.team_id == id),
            g == (|u: UserModel| u.name),
            text::strs(out@) == all.take(i as int).filter(f).map_values(g),
        decreases users.len() - i,
    {
        proof {
            reveal(Seq::filter);
            assert(all.take(i + 1).drop_last() =~= all.take(i as int));
            assert(all.take(i + 1).last() == all[i as int]);
            let before = all.take(i as int).filter(f);
            assert(before.push(all[i as int]).map_values(g) =~= before.map_values(g).push(
                all[i as int].name,
            ));
        }
        if users[i].team_id == id {
            text::push_text(&mut out, users[i].name.as_str());
        }
        i = i + 1;
    }
    assert(all.take(i as int) =~= all);
    out
}

impl App {
    /// The screen on a configuration, at its first tab.
    pub fn new(cfg: Config) -> (r: App)
        ensures
            r.cfg == cfg,
            r@ == (ScreenModel {
                cursor: first_cursor(),
                mode: ModeModel::Browse,
                status: welcome(),
                quit: false,
                pending_scan: None,
                tm_stack: Seq::empty(),
                filter: Seq::empty(),
                filter_lower: Seq::empty(),
            }),
    {
        let r = App {
            cfg,
            cursor: Cursor {
                tab: Tab::Targets,
                target: 0,
                team: 0,
                user: 0,
                setting: 0,
                scansync: 0,
                output: OutputView::History,
                snapshot: 0,
                detail: 0,
                tree: 0,
                filtering: false,
            },
            mode: Mode::Browse,
            status: "\u{21b9} tab \u{b7} \u{2191}\u{2193} move \u{b7} a add \u{b7} e edit \u{b7} d delete \u{b7} r scan \u{b7} R scan-all \u{b7} q quit".to_string(),
            quit: false,
            pending_scan: None,
            tm_stack: Vec::new(),
            filter: String::new(),
            filter_lower: String::new(),
        };
        proof {
            assert(r@.tm_stack =~= Seq::<(i64, Seq<char>)>::empty());
            assert(r@.filter =~= Seq::<char>::empty());
            assert(r@.filter_lower =~= Seq::<char>::empty());
        }
        r
    }

    /// The name of the selected target.
    pub fn current_target_name(&self) -> (r: Option<String>)
        ensures
            text::opt(r) == target_name(self.cfg.model(), self.cursor),
    {
        if self.cursor.target < self.cfg.targets.len() {
            Some(self.cfg.targets[self.cursor.target].name.clone())
        } else {
            None
        }
    }

    /// The name of the selected team.
    pub fn current_team_name(&self) -> (r: Option<String>)
        ensures
            text::opt(r) == team_name(self.cfg.model(), self.cursor),
    {
        if self.cursor.target >= self.cfg.targets.len() {
            return None;
        }
        let t = &self.cfg.targets[self.cursor.target];
        assert(self.cfg.model()[self.cursor.target as int] == t@);
        if self.cursor.team < t.teams.len() {
            Some(t.teams[self.cursor.team].name.clone())
        } else {
            None
        }
    }

    /// The users of the selected team, in their order.
    pub fn current_team_users(&self) -> (r: Vec<String>)
        ensures
            text::strs(r@) == team_members(self.cfg.model(), self.cursor),
    {
        if self.cursor.target < self.cfg.targets.len() {
            let t = &self.cfg.targets[self.cursor.target];
            assert(self.cfg.model()[self.cursor.target as int] == t@);
            if self.cursor.team < t.teams.len() {
                return names_on_team(&t.users, t.teams[self.cursor.team].team_id);
            }
        }
        let none: Vec<String> = Vec::new();
        assert(text::strs(none@) =~= Seq::<Seq<char>>::empty());
        none
    }

    /// Whether the filter lets a name through.
    pub fn matches_filter(&self, s: &str) -> (r: bool)
        ensures
            r == let_through(self.filter_lower@, s@),
    {
        is_let_through(self.filter_lower.as_str(), s)
    }

    /// The users of the selected team that the filter lets through.
    pub fn filtered_team_users(&self) -> (r: Vec<String>)
        ensures
            text::strs(r@) == shown_members(self.cfg.model(), self.cursor, self.filter_lower@),
    {
        let users = self.current_team_users();
        filter_names(&users, self.filter_lower.as_str())
    }

    /// Drops the filter.
    pub fn clear_filter(&mut self)
        ensures
            final(self)@.filter_is_synced(),
            final(self).cfg == old(self).cfg,
            final(self)@ == (ScreenModel {
                filter: Seq::empty(),
                filter_lower: Seq::empty(),
                cursor: Cursor { filtering: false, ..old(self)@.cursor },
                ..old(self)@
            }),
    {
        self.filter = String::new();
        assert(self@.filter =~= Seq::<char>::empty());
        self.on_filter_changed();
        assert(self@.filter_lower =~= Seq::<char>::empty());
        self.cursor.filtering = false;
    }

    /// Follows a change of the filter.
    pub fn on_filter_changed(&mut self)
        ensures
            old(self)@.filter.len() == 0 ==> final(self)@.filter_lower.len() == 0,
            final(self).cfg == old(self).cfg,
            final(self)@ == (ScreenModel { filter_lower: paths::lowercase(old(self)@.filter), ..old(self)@
            }),
    {
        self.filter_lower = self.filter.as_str().to_lowercase();
    }

    /// Moves the cursor to a target, a team, a user and rows that there are.
    pub fn clamp_selections(&mut self)
        ensures
            final(self).cfg == old(self).cfg,
            final(self)@ == (ScreenModel {
                cursor: clamped(old(self).cfg.model(), old(self)@.cursor, old(self)@.filter_lower),
                ..old(self)@
            }),
    {
        let ghost ts = self.cfg.model();
        let ghost c = self.cursor;
        self.cursor.target = bounded(self.cursor.target, self.cfg.targets.len());
        let mut teams: usize = 0;
        if self.cursor.target < self.cfg.targets.len() {
            teams = self.cfg.targets[self.cursor.target].teams.len();
            assert(ts[self.cursor.target as int] == self.cfg.targets@[self.cursor.target as int]@);
        }
        self.cursor.team = bounded(self.cursor.team, teams);
        let users = self.filtered_team_users();
        assert(text::strs(users@).len() == users@.len());
        self.cursor.user = bounded(self.cursor.user, users.len());
        if self.cursor.setting > SETTINGS_LAST {
            self.cursor.setting = SETTINGS_LAST;
        }
        if self.cursor.scansync > SCANSYNC_LAST {
            self.cursor.scansync = SCANSYNC_LAST;
        }
    }

    /// Moves the cursor to one of the report's users, of whom the filter lets
    /// `shown` through.
    pub fn clamp_detail(&mut self, shown: usize)
        ensures
            final(self).cfg == old(self).cfg,
            final(self)@ == (ScreenModel {
                cursor: Cursor {
                    detail: if shown > 0 {
                        within(old(self)@.cursor.detail, shown as int)
                    } else {
                        old(self)@.cursor.detail
                    },
                    ..old(self)@.cursor
                },
                ..old(self)@
            }),
    {
        if shown > 0 {
            self.cursor.detail = bounded(self.cursor.detail, shown);
        }
    }
}

/// The selection is a target, a team and a user that there are, wherever there is
/// one, and stays as it is when it is looked at again.
pub proof fn law_clamped_selections_exist(ts: Seq<TargetModel>, c: Cursor, lower: Seq<char>)
    requires
        ts.len() <= usize::MAX,
        forall|i: int| 0 <= i < ts.len() ==> (#[trigger] ts[i]).teams.len() <= usize::MAX,
        shown_members(ts, clamped(ts, c, lower), lower).len() <= usize::MAX,
    ensures
        ({
            let d = clamped(ts, c, lower);
            &&& ts.len() > 0 ==> target_name(ts, d) is Some
            &&& d.target < ts.len() && ts[d.target as int].teams.len() > 0 ==> team_name(
                ts,
                d,
            ) is Some
            &&& shown_members(ts, d, lower).len() > 0 ==> d.user < shown_members(ts, d, lower).len()
            &&& d.setting <= SETTINGS_LAST && d.scansync <= SCANSYNC_LAST
            &&& clamped(ts, d, lower) == d
        }),
{
    let d = clamped(ts, c, lower);
    let target = within(c.target, ts.len() as int);
    let teams: int = if target < ts.len() {
        ts[target as int].teams.len() as int
    } else {
        0
    };
    let on_team = Cursor { target, team: within(c.team, teams), ..c };
    assert(shown_members(ts, on_team, lower) == shown_members(ts, d, lower));
}

// ---------------------------------------------------------------------------
// What a key asks for
// ---------------------------------------------------------------------------

/// What is left to do outside.
pub enum Request {
    Nothing,
    /// The configuration changed and is to be saved.
    Save,
    AbortScan,
    /// Batch jobs are followed no longer.
    LeaveLsf,
    /// The usage of one user, or of all, is to be exported.
    Export(Option<String>),
    /// The directory that was opened is to be read.
    Descend,
}

/// What is said.
pub open spec fn notice_text(n: Notice) -> Seq<char> {
    match n {
        Notice::NoTargetSelected => "No target selected \u{2014} add one on the Targets tab first."@,
        Notice::SelectTeam => "Select or add a team first."@,
        Notice::AlreadyScanning => "A scan is already running \u{2014} wait for it to finish."@,
        Notice::NoTargetToScan => "No target to scan \u{2014} add one first."@,
        Notice::NoTargets => "No targets to scan."@,
        Notice::NoUserToExport => "No user selected to export."@,
    }
}

fn notice(n: Notice) -> (r: String)
    ensures
        r@ == notice_text(n),
{
    match n {
        Notice::NoTargetSelected => "No target selected \u{2014} add one on the Targets tab first.".to_string(),
        Notice::SelectTeam => "Select or add a team first.".to_string(),
        Notice::AlreadyScanning => "A scan is already running \u{2014} wait for it to finish.".to_string(),
        Notice::NoTargetToScan => "No target to scan \u{2014} add one first.".to_string(),
        Notice::NoTargets => "No targets to scan.".to_string(),
        Notice::NoUserToExport => "No user selected to export.".to_string(),
    }
}

/// What is asked for a target's setting.
pub open spec fn field_prompt(f: TargetField) -> Seq<char> {
    match f {
        TargetField::Path => "Path:"@,
        TargetField::EndScan => "End scan (YYYYMMDD, empty=none):"@,
        TargetField::PurgeTime => "Purge days (empty=none):"@,
        TargetField::Level => "level (empty=default):"@,
        TargetField::Workers => "workers (empty=default):"@,
        TargetField::SyncHost => "sync host (empty=disable sync):"@,
        TargetField::SyncDest => "sync dest dir:"@,
        TargetField::SyncUser => "sync user (empty=none):"@,
        TargetField::ExportDir => "export dir (empty=exports):"@,
        TargetField::WebhookUrl => "Teams webhook URL (empty=off):"@,
    }
}

/// A text that may be unset.
pub open spec fn text_or_empty(s: Option<Seq<char>>) -> Seq<char> {
    match s {
        Some(t) => t,
        None => Seq::empty(),
    }
}

/// A target's setting as it is shown to be edited.
pub open spec fn field_text(t: TargetModel, f: TargetField) -> Seq<char> {
    match f {
        TargetField::Path => t.path,
        TargetField::EndScan => text_or_empty(t.end_scan),
        TargetField::PurgeTime => tui::number_text(t.purge_time),
        TargetField::Level => tui::number_text(t.overrides.level),
        TargetField::Workers => tui::number_text(t.overrides.workers),
        TargetField::SyncHost => text_or_empty(t.overrides.sync_host),
        TargetField::SyncDest => text_or_empty(t.overrides.sync_dest_dir),
        TargetField::SyncUser => text_or_empty(t.overrides.sync_user),
        TargetField::ExportDir => text_or_empty(t.overrides.export_dir),
        TargetField::WebhookUrl => text_or_empty(t.overrides.webhook_url),
    }
}

/// What is asked for a global setting.
pub open spec fn setting_prompt(f: SettingField) -> Seq<char> {
    match f {
        SettingField::OutputDir => "output_dir:"@,
        SettingField::Workers => "workers (auto or N):"@,
        SettingField::MaxParallel => "max_parallel_devices (0=unlimited):"@,
        SettingField::NfsParallel => "nfs_parallel:"@,
        SettingField::HddParallel => "hdd_parallel:"@,
        SettingField::SsdParallel => "ssd_parallel (0=unlimited):"@,
        SettingField::LsfEnabled => "lsf.enabled (yes/no):"@,
        SettingField::LsfCmd => "lsf.cmd (submit wrapper):"@,
        SettingField::LsfOs => "lsf.os (e.g. RHEL8, empty=omit):"@,
        SettingField::LsfMemMb => "lsf.mem_mb (0=omit):"@,
        SettingField::LsfQueue => "lsf.queue (empty=omit):"@,
    }
}

/// A global setting as it is shown to be edited.
pub open spec fn setting_text(s: SettingsModel, f: SettingField) -> Seq<char> {
    match f {
        SettingField::OutputDir => s.output_dir,
        SettingField::Workers => s.workers,
        SettingField::MaxParallel => text::dec_int(s.max_parallel_devices as int),
        SettingField::NfsParallel => text::dec_int(s.nfs_parallel as int),
        SettingField::HddParallel => text::dec_int(s.hdd_parallel as int),
        SettingField::SsdParallel => text::dec_int(s.ssd_parallel as int),
        SettingField::LsfEnabled => if s.lsf.enabled {
            "yes"@
        } else {
            "no"@
        },
        SettingField::LsfCmd => s.lsf.cmd,
        SettingField::LsfOs => s.lsf.os,
        SettingField::LsfMemMb => text::dec_int(s.lsf.mem_mb as int),
        SettingField::LsfQueue => s.lsf.queue,
    }
}

/// An input box.
pub open spec fn input_box(kind: KindModel, prompt: Seq<char>, buf: Seq<char>) -> ModeModel {
    ModeModel::Input { kind, prompt, buf, completions: Seq::empty() }
}

/// The input box for a question, where what it is about is there.
pub open spec fn asked(ts: Seq<TargetModel>, s: SettingsModel, c: Cursor, q: Question) -> Option<
    ModeModel,
> {
    match q {
        Question::NewTarget => Some(
            input_box(KindModel::NewTargetName, "New target name:"@, Seq::empty()),
        ),
        Question::NewTeam => Some(
            input_box(KindModel::NewTeam, "New team name:"@, Seq::empty()),
        ),
        Question::AddUsers => match team_name(ts, c) {
            Some(team) => Some(
                input_box(
                    KindModel::AddUsers(team),
                    "Add users (alice,bob or @file):"@,
                    Seq::empty(),
                ),
            ),
            None => None,
        },
        Question::Target(f) => if c.target < ts.len() {
            Some(
                input_box(
                    KindModel::Target(f),
                    field_prompt(f),
                    field_text(ts[c.target as int], f),
                ),
            )
        } else {
            None
        },
        Question::Setting(f) => Some(
            input_box(KindModel::Setting(f), setting_prompt(f), setting_text(s, f)),
        ),
    }
}

fn or_empty(s: &Option<String>) -> (r: String)
    ensures
        r@ == text_or_empty(text::opt(*s)),
{
    match s {
        Some(t) => t.clone(),
        None => {
            let e = String::new();
            assert(e@ =~= Seq::<char>::empty());
            e
        },
    }
}

fn field_question(f: TargetField) -> (r: &'static str)
    ensures
        r@ == field_prompt(f),
{
    match f {
        TargetField::Path => "Path:",
        TargetField::EndScan => "End scan (YYYYMMDD, empty=none):",
        TargetField::PurgeTime => "Purge days (empty=none):",
        TargetField::Level => "level (empty=default):",
        TargetField::Workers => "workers (empty=default):",
        TargetField::SyncHost => "sync host (empty=disable sync):",
        TargetField::SyncDest => "sync dest dir:",
        TargetField::SyncUser => "sync user (empty=none):",
        TargetField::ExportDir => "export dir (empty=exports):",
        TargetField::WebhookUrl => "Teams webhook URL (empty=off):",
    }
}

fn field_value(t: &Target, f: TargetField) -> (r: String)
    ensures
        r@ == field_text(t@, f),
{
    match f {
        TargetField::Path => t.path.clone(),
        TargetField::EndScan => or_empty(&t.end_scan),
        TargetField::PurgeTime => tui::opt_i64_str(t.purge_time),
        TargetField::Level => tui::opt_i64_str(t.level),
        TargetField::Workers => tui::opt_i64_str(t.workers),
        TargetField::SyncHost => or_empty(&t.sync_host),
        TargetField::SyncDest => or_empty(&t.sync_dest_dir),
        TargetField::SyncUser => or_empty(&t.sync_user),
        TargetField::ExportDir => or_empty(&t.export_dir),
        TargetField::WebhookUrl => or_empty(&t.webhook_url),
    }
}

fn setting_question(f: SettingField) -> (r: &'static str)
    ensures
        r@ == setting_prompt(f),
{
    match f {
        SettingField::OutputDir => "output_dir:",
        SettingField::Workers => "workers (auto or N):",
        SettingField::MaxParallel => "max_parallel_devices (0=unlimited):",
        SettingField::NfsParallel => "nfs_parallel:",
        SettingField::HddParallel => "hdd_parallel:",
        SettingField::SsdParallel => "ssd_parallel (0=unlimited):",
        SettingField::LsfEnabled => "lsf.enabled (yes/no):",
        SettingField::LsfCmd => "lsf.cmd (submit wrapper):",
        SettingField::LsfOs => "lsf.os (e.g. RHEL8, empty=omit):",
        SettingField::LsfMemMb => "lsf.mem_mb (0=omit):",
        SettingField::LsfQueue => "lsf.queue (empty=omit):",
    }
}

fn setting_value(cfg: &Config, f: SettingField) -> (r: String)
    ensures
        r@ == setting_text(cfg.settings(), f),
{
    match f {
        SettingField::OutputDir => cfg.output_dir.clone(),
        SettingField::Workers => cfg.workers.clone(),
        SettingField::MaxParallel => text::dec_int_string(cfg.max_parallel_devices),
        SettingField::NfsParallel => text::dec_int_string(cfg.nfs_parallel),
        SettingField::HddParallel => text::dec_int_string(cfg.hdd_parallel),
        SettingField::SsdParallel => text::dec_int_string(cfg.ssd_parallel),
        SettingField::LsfEnabled => tui::bool_str(&cfg.lsf.enabled),
        SettingField::LsfCmd => cfg.lsf.cmd.clone(),
        SettingField::LsfOs => cfg.lsf.os.clone(),
        SettingField::LsfMemMb => text::dec_int_string(cfg.lsf.mem_mb),
        SettingField::LsfQueue => cfg.lsf.queue.clone(),
    }
}

/// Whether a text is set, to the empty one.
pub open spec fn set_to_empty(s: Option<Seq<char>>) -> bool {
    s matches Some(t) && t.len() == 0
}

/// Whether a target's setting shows as unset and is not.
pub open spec fn shows_as_unset(t: TargetModel, f: TargetField) -> bool {
    match f {
        TargetField::EndScan => set_to_empty(t.end_scan),
        TargetField::SyncHost => set_to_empty(t.overrides.sync_host),
        TargetField::SyncDest => set_to_empty(t.overrides.sync_dest_dir),
        TargetField::SyncUser => set_to_empty(t.overrides.sync_user),
        TargetField::ExportDir => set_to_empty(t.overrides.export_dir),
        TargetField::WebhookUrl => set_to_empty(t.overrides.webhook_url),
        _ => false,
    }
}

/// Whether a target's setting is a negative number, which cannot be typed.
pub open spec fn is_negative(t: TargetModel, f: TargetField) -> bool {
    match f {
        TargetField::PurgeTime => t.purge_time matches Some(n) && n < 0,
        TargetField::Level => t.overrides.level matches Some(n) && n < 0,
        TargetField::Workers => t.overrides.workers matches Some(n) && n < 0,
        _ => false,
    }
}

/// A setting that is typed as it is shown leaves the target as it is.
pub proof fn law_unchanged_line_changes_nothing(t: TargetModel, f: TargetField)
    requires
        !shows_as_unset(t, f),
        !is_negative(t, f),
    ensures
        tui::edited(t, f, field_text(t, f)) == Some(t),
{
    match f {
        TargetField::PurgeTime => tui::law_typed_numbers(t.purge_time),
        TargetField::Level => tui::law_typed_numbers(t.overrides.level),
        TargetField::Workers => tui::law_typed_numbers(t.overrides.workers),
        _ => {},
    }
}

/// Directories of the treemap, each with its id.
pub open spec fn entry_views(v: Seq<TreeEntry>) -> Seq<(i64, Seq<char>)> {
    Seq::new(v.len(), |i: int| (v[i].id, v[i].name@))
}

/// The screen after the cursor has moved and what was to be dropped is dropped.
pub open spec fn moved(s: ScreenModel, m: Move) -> ScreenModel {
    ScreenModel {
        cursor: m.cursor,
        filter: if m.clear_filter {
            Seq::empty()
        } else {
            s.filter
        },
        filter_lower: if m.clear_filter {
            Seq::empty()
        } else {
            s.filter_lower
        },
        tm_stack: if m.tree_root {
            Seq::empty()
        } else {
            s.tm_stack
        },
        ..s
    }
}

/// The screen with another filter.
pub open spec fn with_filter(s: ScreenModel, filter: Seq<char>) -> ScreenModel {
    ScreenModel { filter, filter_lower: paths::lowercase(filter), ..s }
}

/// The screen with other open directories: the first entry is selected, and there
/// is no filter.
pub open spec fn with_stack(s: ScreenModel, tm_stack: Seq<(i64, Seq<char>)>) -> ScreenModel {
    ScreenModel {
        tm_stack,
        cursor: Cursor { tree: 0, filtering: false, ..s.cursor },
        filter: Seq::empty(),
        filter_lower: Seq::empty(),
        ..s
    }
}

/// The screen with another status line.
pub open spec fn saying(s: ScreenModel, status: Seq<char>) -> ScreenModel {
    ScreenModel { status, ..s }
}

/// The screen with a question that waits for a yes.
pub open spec fn confirming(s: ScreenModel, action: ConfirmModel, prompt: Seq<char>) -> ScreenModel {
    ScreenModel { mode: ModeModel::Confirm { action, prompt }, ..s }
}

/// The next state of the switch that is cycled.
pub open spec fn next_switch(t: TargetModel, a: Action) -> Option<bool> {
    if a == Action::CycleTreeMap {
        tui::cycled(t.overrides.tree_map)
    } else {
        tui::cycled(t.overrides.sync_pass)
    }
}

/// What is said when a switch was cycled.
pub open spec fn switch_status(ts: Seq<TargetModel>, c: Cursor, a: Action) -> Seq<char> {
    if c.target >= ts.len() {
        "Error: "@ + "no target selected"@
    } else if a == Action::CycleTreeMap {
        "tree_map = "@ + tui::switch_text(next_switch(ts[c.target as int], a))
    } else {
        "sync_pass = "@ + tui::switch_text(next_switch(ts[c.target as int], a))
            + " (password via SSHPASS env)"@
    }
}

/// The targets after a key: a switch may have been cycled.
pub open spec fn targets_after(ts: Seq<TargetModel>, m: Move) -> Seq<TargetModel> {
    let i = m.cursor.target as int;
    if i < ts.len() && m.action == Action::CycleTreeMap {
        let o = ts[i].overrides;
        ts.update(
            i,
            TargetModel {
                overrides: OverridesModel { tree_map: next_switch(ts[i], m.action), ..o },
                ..ts[i]
            },
        )
    } else if i < ts.len() && m.action == Action::CycleSyncPass {
        let o = ts[i].overrides;
        ts.update(
            i,
            TargetModel {
                overrides: OverridesModel { sync_pass: next_switch(ts[i], m.action), ..o },
                ..ts[i]
            },
        )
    } else {
        ts
    }
}

/// The screen after a key, over the targets `ts` and the settings `g` that there
/// were and the directories that were shown.
pub open spec fn performed(
    s: ScreenModel,
    ts: Seq<TargetModel>,
    g: SettingsModel,
    m: Move,
    children: Seq<(i64, Seq<char>)>,
) -> ScreenModel {
    let b = moved(s, m);
    let c = m.cursor;
    match m.action {
        Action::Nothing | Action::FilterClear | Action::ExportSelected | Action::ExportAll => b,
        Action::Quit => ScreenModel { quit: true, ..b },
        Action::CancelScan => saying(b, "Scan cancelled \u{2014} back to config."@),
        Action::LeaveLsf => saying(
            b,
            "LSF scan still running on cluster. Use: duscan status --watch"@,
        ),
        Action::ScanSelected => match target_name(ts, c) {
            Some(n) => ScreenModel { pending_scan: Some(seq![n]), ..b },
            None => b,
        },
        Action::ScanAll => ScreenModel { pending_scan: Some(Seq::empty()), ..b },
        Action::Say(n) => saying(b, notice_text(n)),
        Action::ShowTarget => saying(b, "Target: "@ + text_or_empty(target_name(ts, c))),
        Action::Ask(q) => match asked(ts, g, c, q) {
            Some(mode) => ScreenModel { mode, ..b },
            None => b,
        },
        Action::ConfirmDeleteTarget => match target_name(ts, c) {
            Some(n) => confirming(
                b,
                ConfirmModel::DeleteTarget(n),
                "Delete target '"@ + n + "' and its file? (y/n)"@,
            ),
            None => b,
        },
        Action::ConfirmDeleteTeam => match team_name(ts, c) {
            Some(n) => confirming(
                b,
                ConfirmModel::DeleteTeam(n),
                "Delete team '"@ + n + "' and its users? (y/n)"@,
            ),
            None => b,
        },
        Action::ConfirmDeleteUser => {
            let users = shown_members(ts, c, b.filter_lower);
            if c.user < users.len() {
                confirming(
                    b,
                    ConfirmModel::DeleteUser(users[c.user as int]),
                    "Remove user '"@ + users[c.user as int] + "'? (y/n)"@,
                )
            } else {
                b
            }
        },
        Action::CycleTreeMap | Action::CycleSyncPass => saying(b, switch_status(ts, c, m.action)),
        Action::FilterPush(x) => with_filter(b, b.filter.push(x)),
        Action::FilterPop => with_filter(
            b,
            if b.filter.len() > 0 {
                b.filter.drop_last()
            } else {
                b.filter
            },
        ),
        Action::OpenChild => if c.tree < children.len() {
            with_stack(b, b.tm_stack.push(children[c.tree as int]))
        } else {
            b
        },
        Action::LeaveChild => if b.tm_stack.len() > 0 {
            with_stack(b, b.tm_stack.drop_last())
        } else {
            b
        },
    }
}

/// What a key leaves to do outside.
pub open spec fn is_request(
    r: Request,
    ts: Seq<TargetModel>,
    m: Move,
    users: Seq<Seq<char>>,
    children: Seq<(i64, Seq<char>)>,
) -> bool {
    let c = m.cursor;
    match m.action {
        Action::CancelScan => r is AbortScan,
        Action::LeaveLsf => r is LeaveLsf,
        Action::CycleTreeMap | Action::CycleSyncPass => if c.target < ts.len() {
            r is Save
        } else {
            r is Nothing
        },
        Action::ExportSelected => if c.detail < users.len() {
            r matches Request::Export(Some(u)) && u@ == users[c.detail as int]
        } else {
            r is Nothing
        },
        Action::ExportAll => r matches Request::Export(None),
        Action::OpenChild => if c.tree < children.len() {
            r is Descend
        } else {
            r is Nothing
        },
        _ => r is Nothing,
    }
}

impl App {
    /// Begins to collect a line.
    pub fn begin_input(&mut self, kind: InputKind, prompt: &str, initial: &str)
        ensures
            final(self).cfg == old(self).cfg,
            final(self)@ == (ScreenModel {
                mode: input_box(kind_model(kind), prompt@, initial@),
                ..old(self)@
            }),
    {
        let completions: Vec<String> = Vec::new();
        assert(text::strs(completions@) =~= Seq::<Seq<char>>::empty());
        self.mode = Mode::Input {
            kind,
            prompt: prompt.to_string(),
            buf: initial.to_string(),
            completions,
        };
    }

    fn ask(&mut self, q: Question)
        ensures
            final(self).cfg == old(self).cfg,
            final(self)@ == (ScreenModel {
                mode: match asked(
                    old(self).cfg.model(),
                    old(self).cfg.settings(),
                    old(self)@.cursor,
                    q,
                ) {
                    Some(m) => m,
                    None => old(self)@.mode,
                },
                ..old(self)@
            }),
    {
        proof {
            reveal_strlit("");
            assert(""@ =~= Seq::<char>::empty());
        }
        match q {
            Question::NewTarget => self.begin_input(
                InputKind::NewTargetName,
                "New target name:",
                "",
            ),
            Question::NewTeam => self.begin_input(InputKind::NewTeam, "New team name:", ""),
            Question::AddUsers => {
                let name = self.current_team_name();
                if let Some(team) = name {
                    self.begin_input(
                        InputKind::AddUsers { team },
                        "Add users (alice,bob or @file):",
                        "",
                    );
                }
            },
            Question::Target(f) => {
                if self.cursor.target < self.cfg.targets.len() {
                    let initial = field_value(&self.cfg.targets[self.cursor.target], f);
                    assert(initial@ == field_text(
                        self.cfg.model()[self.cursor.target as int],
                        f,
                    ));
                    self.begin_input(InputKind::Target(f), field_question(f), initial.as_str());
                }
            },
            Question::Setting(f) => {
                let initial = setting_value(&self.cfg, f);
                self.begin_input(InputKind::Setting(f), setting_question(f), initial.as_str());
            },
        }
    }

    fn confirm_user(&mut self)
        ensures
            final(self).cfg == old(self).cfg,
            ({
                let users = shown_members(
                    old(self).cfg.model(),
                    old(self)@.cursor,
                    old(self)@.filter_lower,
                );
                let i = old(self)@.cursor.user as int;
                final(self)@ == (if i < users.len() {
                    confirming(
                        old(self)@,
                        ConfirmModel::DeleteUser(users[i]),
                        "Remove user '"@ + users[i] + "'? (y/n)"@,
                    )
                } else {
                    old(self)@
                })
            }),
    {
        let users = self.filtered_team_users();
        assert(text::strs(users@).len() == users@.len());
        if self.cursor.user < users.len() {
            assert(text::strs(users@)[self.cursor.user as int] == users@[self.cursor.user as int]@);
            let name = users[self.cursor.user].clone();
            let prompt = text::cat3("Remove user '", name.as_str(), "'? (y/n)");
            self.mode = Mode::Confirm { action: ConfirmAction::DeleteUser(name), prompt };
        }
    }

    fn cycle_switch(&mut self, a: Action) -> (r: Request)
        requires
            a == Action::CycleTreeMap || a == Action::CycleSyncPass,
        ensures
            final(self).cfg.same_settings(&old(self).cfg),
            final(self).cfg.model() == targets_after(
                old(self).cfg.model(),
                Move {
                    cursor: old(self)@.cursor,
                    action: a,
                    clear_filter: false,
                    reload: false,
                    tree_root: false,
                },
            ),
            final(self)@ == saying(
                old(self)@,
                switch_status(old(self).cfg.model(), old(self)@.cursor, a),
            ),
            if old(self)@.cursor.target < old(self).cfg.model().len() {
                r is Save
            } else {
                r is Nothing
            },
    {
        let i = self.cursor.target;
        let done = if a == Action::CycleTreeMap {
            tui::cycle_tree_map(&mut self.cfg, i)
        } else {
            tui::cycle_sync_pass(&mut self.cfg, i)
        };
        match done {
            Ok(msg) => {
                self.status = msg;
                Request::Save
            },
            Err(e) => {
                self.status = text::cat2("Error: ", e.as_str());
                Request::Nothing
            },
        }
    }

    fn change_filter(&mut self, push: Option<char>)
        ensures
            final(self).cfg == old(self).cfg,
            final(self)@ == with_filter(
                old(self)@,
                match push {
                    Some(x) => old(self)@.filter.push(x),
                    None => if old(self)@.filter.len() > 0 {
                        old(self)@.filter.drop_last()
                    } else {
                        old(self)@.filter
                    },
                },
            ),
    {
        let cs = text::to_chars(self.filter.as_str());
        let mut now = cs;
        match push {
            Some(x) => {
                now.push(x);
            },
            None => {
                if now.len() > 0 {
                    now.pop();
                }
            },
        }
        self.filter = text::from_chars(now.as_slice());
        self.on_filter_changed();
    }

    fn drop_filter_at_first(&mut self)
        ensures
            final(self).cfg == old(self).cfg,
            final(self)@ == with_stack(old(self)@, old(self)@.tm_stack),
            final(self)@.filter_is_synced(),
    {
        self.cursor.tree = 0;
        self.clear_filter();
    }

    /// Does what a key asks for. `users` are the report's users and `children` the
    /// directories of the treemap that are shown.
    pub fn perform(&mut self, m: Move, users: &Vec<String>, children: &Vec<TreeEntry>) -> (r:
        Request)
        ensures
            final(self)@ == performed(
                old(self)@,
                old(self).cfg.model(),
                old(self).cfg.settings(),
                m,
                entry_views(children@),
            ),
            final(self).cfg.same_settings(&old(self).cfg),
            final(self).cfg.model() == targets_after(old(self).cfg.model(), m),
            is_request(r, old(self).cfg.model(), m, text::strs(users@), entry_views(children@)),
            old(self)@.filter_is_synced() ==> final(self)@.filter_is_synced(),
    {
        let ghost ts = self.cfg.model();
        let ghost start = self@;
        if m.clear_filter {
            self.clear_filter();
        }
        if m.tree_root {
            self.tm_stack = Vec::new();
            assert(self@.tm_stack =~= Seq::<(i64, Seq<char>)>::empty());
        }
        self.cursor = m.cursor;
        assert(self@ =~= moved(start, m));
        match m.action {
            Action::Nothing => {},
            Action::FilterClear => {},
            Action::Quit => {
                self.quit = true;
            },
            Action::CancelScan => {
                self.status = "Scan cancelled \u{2014} back to config.".to_string();
                return Request::AbortScan;
            },
            Action::LeaveLsf => {
                self.status =
                "LSF scan still running on cluster. Use: duscan status --watch".to_string();
                return Request::LeaveLsf;
            },
            Action::ScanSelected => {
                if let Some(n) = self.current_target_name() {
                    let mut names: Vec<String> = Vec::new();
                    names.push(n);
                    assert(text::strs(names@) =~= seq![n@]);
                    self.pending_scan = Some(names);
                }
            },
            Action::ScanAll => {
                let names: Vec<String> = Vec::new();
                assert(text::strs(names@) =~= Seq::<Seq<char>>::empty());
                self.pending_scan = Some(names);
            },
            Action::Say(n) => {
                self.status = notice(n);
            },
            Action::ShowTarget => {
                let name = or_empty(&self.current_target_name());
                self.status = text::cat2("Target: ", name.as_str());
            },
            Action::Ask(q) => {
                self.ask(q);
            },
            Action::ConfirmDeleteTarget => {
                if let Some(n) = self.current_target_name() {
                    let prompt = text::cat3("Delete target '", n.as_str(), "' and its file? (y/n)");
                    self.mode = Mode::Confirm { action: ConfirmAction::DeleteTarget(n), prompt };
                }
            },
            Action::ConfirmDeleteTeam => {
                if let Some(n) = self.current_team_name() {
                    let prompt = text::cat3("Delete team '", n.as_str(), "' and its users? (y/n)");
                    self.mode = Mode::Confirm { action: ConfirmAction::DeleteTeam(n), prompt };
                }
            },
            Action::ConfirmDeleteUser => {
                self.confirm_user();
            },
            Action::CycleTreeMap => {
                return self.cycle_switch(m.action);
            },
            Action::CycleSyncPass => {
                return self.cycle_switch(m.action);
            },
            Action::FilterPush(x) => {
                self.change_filter(Some(x));
            },
            Action::FilterPop => {
                self.change_filter(None);
            },
            Action::ExportSelected => {
                assert(text::strs(users@).len() == users@.len());
                if m.cursor.detail < users.len() {
                    return Request::Export(Some(users[m.cursor.detail].clone()));
                }
            },
            Action::ExportAll => {
                return Request::Export(None);
            },
            Action::OpenChild => {
                if m.cursor.tree < children.len() {
                    let ghost before = stack_views(self.tm_stack@);
                    let id: i64 = children[m.cursor.tree].id;
                    let name = children[m.cursor.tree].name.clone();
                    self.tm_stack.push((id, name));
                    assert(stack_views(self.tm_stack@) =~= before.push(
                        entry_views(children@)[m.cursor.tree as int],
                    ));
                    self.drop_filter_at_first();
                    return Request::Descend;
                }
            },
            Action::LeaveChild => {
                if self.tm_stack.len() > 0 {
                    let ghost before = stack_views(self.tm_stack@);
                    self.tm_stack.pop();
                    assert(stack_views(self.tm_stack@) =~= before.drop_last());
                    self.drop_filter_at_first();
                }
            },
        }
        Request::Nothing
    }

    /// Leaves the directory that was just opened where there is none below it.
    pub fn settle_child(&mut self, empty: bool)
        ensures
            final(self).cfg == old(self).cfg,
            final(self)@ == (if empty {
                saying(
                    ScreenModel {
                        tm_stack: if old(self)@.tm_stack.len() > 0 {
                            old(self)@.tm_stack.drop_last()
                        } else {
                            old(self)@.tm_stack
                        },
                        ..old(self)@
                    },
                    "Leaf directory (no sub-dirs)."@,
                )
            } else {
                old(self)@
            }),
    {
        if empty {
            if self.tm_stack.len() > 0 {
                let ghost before = stack_views(self.tm_stack@);
                self.tm_stack.pop();
                assert(stack_views(self.tm_stack@) =~= before.drop_last());
            }
            self.status = "Leaf directory (no sub-dirs).".to_string();
        }
    }

    /// Says that a change could not be saved.
    pub fn save_failed(&mut self, e: &str)
        ensures
            final(self).cfg == old(self).cfg,
            final(self)@ == saying(old(self)@, "Error: "@ + e@),
    {
        self.status = text::cat2("Error: ", e);
    }
}

/// A directory that is opened and left again leaves the open directories as they
/// were.
pub proof fn law_leaving_undoes_opening(
    s: ScreenModel,
    ts: Seq<TargetModel>,
    g: SettingsModel,
    open: Move,
    leave: Move,
    children: Seq<(i64, Seq<char>)>,
    below: Seq<(i64, Seq<char>)>,
)
    requires
        open.action == Action::OpenChild && !open.tree_root,
        leave.action == Action::LeaveChild && !leave.tree_root,
        open.cursor.tree < children.len(),
    ensures
        performed(performed(s, ts, g, open, children), ts, g, leave, below).tm_stack == s.tm_stack,
{
    assert(s.tm_stack.push(children[open.cursor.tree as int]).drop_last() =~= s.tm_stack);
}

// ---------------------------------------------------------------------------
// The line that is typed
// ---------------------------------------------------------------------------

/// What a key in the input box leaves to do.
#[derive(PartialEq, Eq, Structural, Copy, Clone, Debug)]
pub enum InputStep {
    Nothing,
    Commit,
    Complete,
}

/// The mode with another line in the input box, and no candidates.
pub open spec fn retyped(m: ModeModel, buf: Seq<char>) -> ModeModel {
    match m {
        ModeModel::Input { kind, prompt, .. } => input_box(kind, prompt, buf),
        _ => m,
    }
}

/// The line in the input box.
pub open spec fn typed(m: ModeModel) -> Seq<char> {
    match m {
        ModeModel::Input { buf, .. } => buf,
        _ => Seq::empty(),
    }
}

/// The screen after a key in the input box.
pub open spec fn input_key(s: ScreenModel, k: KeyCode) -> ScreenModel {
    match k {
        KeyCode::Esc => saying(ScreenModel { mode: ModeModel::Browse, ..s }, "Cancelled."@),
        KeyCode::Backspace => ScreenModel {
            mode: retyped(
                s.mode,
                if typed(s.mode).len() > 0 {
                    typed(s.mode).drop_last()
                } else {
                    typed(s.mode)
                },
            ),
            ..s
        },
        KeyCode::Char(x) => ScreenModel { mode: retyped(s.mode, typed(s.mode).push(x)), ..s },
        _ => s,
    }
}

impl App {
    fn retype(&mut self, line: &[char])
        ensures
            final(self).cfg == old(self).cfg,
            final(self)@ == (ScreenModel { mode: retyped(old(self)@.mode, line@), ..old(self)@ }),
    {
        let mut m = Mode::Browse;
        std::mem::swap(&mut m, &mut self.mode);
        match m {
            Mode::Input { kind, prompt, .. } => {
                let now = text::from_chars(line);
                self.begin_input(kind, prompt.as_str(), now.as_str());
            },
            other => {
                self.mode = other;
            },
        }
    }

    fn typed_chars(&self) -> (r: Vec<char>)
        ensures
            r@ == typed(self@.mode),
    {
        match &self.mode {
            Mode::Input { buf, .. } => text::to_chars(buf.as_str()),
            _ => {
                let none: Vec<char> = Vec::new();
                assert(none@ =~= Seq::<char>::empty());
                none
            },
        }
    }

    /// A key in the input box.
    pub fn handle_input_key(&mut self, k: KeyCode) -> (r: InputStep)
        ensures
            final(self).cfg == old(self).cfg,
            final(self)@ == input_key(old(self)@, k),
            r == (match k {
                KeyCode::Enter => InputStep::Commit,
                KeyCode::Tab => InputStep::Complete,
                _ => InputStep::Nothing,
            }),
    {
        match k {
            KeyCode::Esc => {
                self.mode = Mode::Browse;
                self.status = "Cancelled.".to_string();
                InputStep::Nothing
            },
            KeyCode::Enter => InputStep::Commit,
            KeyCode::Tab => InputStep::Complete,
            KeyCode::Backspace => {
                let mut line = self.typed_chars();
                if line.len() > 0 {
                    line.pop();
                }
                self.retype(line.as_slice());
                InputStep::Nothing
            },
            KeyCode::Char(x) => {
                let mut line = self.typed_chars();
                line.push(x);
                self.retype(line.as_slice());
                InputStep::Nothing
            },
            _ => InputStep::Nothing,
        }
    }
}

/// A character that is typed and taken back leaves the line as it was.
pub proof fn law_backspace_undoes_typing(s: ScreenModel, x: char)
    requires
        s.mode is Input,
    ensures
        typed(input_key(input_key(s, KeyCode::Char(x)), KeyCode::Backspace).mode) == typed(s.mode),
{
    assert(typed(s.mode).push(x).drop_last() =~= typed(s.mode));
}

// ---------------------------------------------------------------------------
// Completion
// ---------------------------------------------------------------------------

/// A path that is to be completed: what stands before it in the line, the
/// directory that it names so far, and the beginning of the next name.
pub struct Completion {
    pub head: String,
    pub dir: String,
    pub prefix: String,
    /// Whether files are candidates too.
    pub allow_files: bool,
}

/// Whether a line is a path.
pub open spec fn is_path(k: KindModel) -> bool {
    match k {
        KindModel::NewTargetPath(_) => true,
        KindModel::Target(f) => f == TargetField::Path || f == TargetField::SyncDest || f
            == TargetField::ExportDir,
        KindModel::Setting(f) => f == SettingField::OutputDir,
        _ => false,
    }
}

/// The last piece of a list of users, from its first character that is no blank.
pub open spec fn last_piece(buf: Seq<char>) -> Seq<char> {
    text::trim_start(buf.skip(text::rfind(buf, ',') + 1))
}

/// Where the path in a line begins: at its start, or behind the `@` of the last
/// piece of a list of users.
pub open spec fn path_start(k: KindModel, buf: Seq<char>) -> Option<int> {
    if is_path(k) {
        Some(0)
    } else if k is AddUsers && last_piece(buf).len() > 0 && last_piece(buf)[0] == '@' {
        Some(buf.len() - last_piece(buf).len() + 1)
    } else {
        None
    }
}

/// Whether `c` is the path to be completed in a line.
pub open spec fn is_completion(c: Completion, k: KindModel, buf: Seq<char>) -> bool {
    let start = path_start(k, buf)->0;
    let region = buf.skip(start);
    let cut = text::rfind(region, '/') + 1;
    &&& c.head@ == buf.take(start)
    &&& c.dir@ == region.take(cut)
    &&& c.prefix@ == region.skip(cut)
    &&& c.allow_files == !is_path(k)
}

fn trim_start_chars(s: &[char]) -> (r: &[char])
    ensures
        r@ == text::trim_start(s@),
        r@.len() <= s@.len(),
{
    let mut i: usize = 0;
    assert(s@.skip(0) =~= s@);
    while i < s.len() && text::is_space(s[i])
        invariant
            i <= s@.len(),
            text::trim_start(s@.skip(i as int)) == text::trim_start(s@),
        decreases s@.len() - i,
    {
        assert(s@.skip(i as int).drop_first() =~= s@.skip(i + 1));
        i = i + 1;
    }
    let r = slice_subrange(s, i, s.len());
    assert(r@ =~= s@.skip(i as int));
    r
}

fn completion_at(line: &[char], start: usize, allow_files: bool) -> (r: Completion)
    requires
        start <= line@.len(),
    ensures
        ({
            let region = line@.skip(start as int);
            let cut = text::rfind(region, '/') + 1;
            &&& r.head@ == line@.take(start as int)
            &&& r.dir@ == region.take(cut)
            &&& r.prefix@ == region.skip(cut)
            &&& r.allow_files == allow_files
        }),
{
    let head = slice_subrange(line, 0, start);
    assert(head@ =~= line@.take(start as int));
    let region = slice_subrange(line, start, line.len());
    assert(region@ =~= line@.skip(start as int));
    proof {
        text::lemma_rfind(region@, '/');
    }
    let cut: usize = match text::rfind_char(region, '/') {
        Some(i) => i + 1,
        None => 0,
    };
    let dir = slice_subrange(region, 0, cut);
    assert(dir@ =~= region@.take(cut as int));
    let prefix = slice_subrange(region, cut, region.len());
    assert(prefix@ =~= region@.skip(cut as int));
    Completion {
        head: text::from_chars(head),
        dir: text::from_chars(dir),
        prefix: text::from_chars(prefix),
        allow_files,
    }
}

/// The candidates among the entries of a directory, each with whether it is one
/// itself: those that begin as typed, directories with a slash at their end.
pub open spec fn candidates(
    entries: Seq<(String, bool)>,
    prefix: Seq<char>,
    allow_files: bool,
) -> Seq<Seq<char>>
    decreases entries.len(),
{
    if entries.len() == 0 {
        Seq::empty()
    } else {
        let before = candidates(entries.drop_last(), prefix, allow_files);
        let (name, is_dir) = entries.last();
        if prefix.is_prefix_of(name@) && (is_dir || allow_files) {
            before.push(
                if is_dir {
                    name@ + "/"@
                } else {
                    name@
                },
            )
        } else {
            before
        }
    }
}

/// Whether texts stand in their order.
pub open spec fn in_order(v: Seq<Seq<char>>) -> bool {
    forall|i: int, j: int| 0 <= i < j < v.len() ==> !text::lex_lt(#[trigger] v[j], #[trigger] v[i])
}

proof fn lemma_lex_trans(a: Seq<char>, b: Seq<char>, c: Seq<char>)
    requires
        !text::lex_lt(b, a),
        !text::lex_lt(c, b),
    ensures
        !text::lex_lt(c, a),
{
    if text::lex_lt(c, a) {
        text::lemma_lex_split(c, b, a);
    }
}

fn insert_in_order(v: &mut Vec<String>, s: String)
    requires
        in_order(text::strs(old(v)@)),
    ensures
        in_order(text::strs(final(v)@)),
        text::strs(final(v)@).to_multiset() == text::strs(old(v)@).to_multiset().insert(s@),
{
    let ghost all = text::strs(v@);
    let cs = text::to_chars(s.as_str());
    let mut i: usize = 0;
    while i < v.len() && !text::chars_lt(&cs, &text::to_chars(v[i].as_str()))
        invariant
            i <= v@.len(),
            cs@ == s@,
            all == text::strs(v@),
            forall|k: int| 0 <= k < i ==> !text::lex_lt(s@, #[trigger] all[k]),
        decreases v@.len() - i,
    {
        assert(all[i as int] == v@[i as int]@);
        i = i + 1;
    }
    let ghost text = s@;
    v.insert(i, s);
    proof {
        let now = text::strs(v@);
        assert(now =~= all.insert(i as int, text));
        vstd::seq_lib::to_multiset_insert(all, i as int, text);
        if i < all.len() {
            assert(text::lex_lt(text, all[i as int]));
            text::lemma_lex_asym(text, all[i as int]);
        }
        assert forall|x: int, y: int| 0 <= x < y < now.len() implies !text::lex_lt(
            #[trigger] now[y],
            #[trigger] now[x],
        ) by {
            if x < i && y == i {
                assert(now[x] == all[x]);
            } else if x == i {
                assert(now[y] == all[y - 1]);
                if y - 1 > i {
                    assert(!text::lex_lt(all[y - 1], all[i as int]));
                    lemma_lex_trans(text, all[i as int], all[y - 1]);
                }
            } else if y < i {
                assert(now[x] == all[x] && now[y] == all[y]);
            } else if x < i {
                assert(now[x] == all[x] && now[y] == all[y - 1]);
            } else {
                assert(now[x] == all[x - 1] && now[y] == all[y - 1]);
            }
        }
    }
}

fn sorted_candidates(entries: &Vec<(String, bool)>, prefix: &str, allow_files: bool) -> (r: Vec<
    String,
>)
    ensures
        in_order(text::strs(r@)),
        text::strs(r@).to_multiset() == candidates(entries@, prefix@, allow_files).to_multiset(),
{
    let mut out: Vec<String> = Vec::new();
    let want = text::to_chars(prefix);
    let mut i: usize = 0;
    assert(text::strs(out@) =~= candidates(entries@.take(0), prefix@, allow_files));
    while i < entries.len()
        invariant
            i <= entries@.len(),
            want@ == prefix@,
            in_order(text::strs(out@)),
            text::strs(out@).to_multiset() == candidates(
                entries@.take(i as int),
                prefix@,
                allow_files,
            ).to_multiset(),
        decreases entries@.len() - i,
    {
        let ghost before = candidates(entries@.take(i as int), prefix@, allow_files);
        proof {
            assert(entries@.take(i + 1).drop_last() =~= entries@.take(i as int));
            assert(entries@.take(i + 1).last() == entries@[i as int]);
        }
        let (name, is_dir) = (&entries[i].0, entries[i].1);
        let cs = text::to_chars(name.as_str());
        if text::starts_with(&cs, &want) && (is_dir || allow_files) {
            let shown = if is_dir {
                text::cat2(name.as_str(), "/")
            } else {
                name.clone()
            };
            proof {
                vstd::seq_lib::to_multiset_build(before, shown@);
            }
            insert_in_order(&mut out, shown);
        }
        i = i + 1;
    }
    assert(entries@.take(i as int) =~= entries@);
    out
}

/// Whether `p` is the longest text that all of several texts begin with.
pub open spec fn is_longest_common(p: Seq<char>, items: Seq<Seq<char>>) -> bool {
    &&& tui::is_common_prefix(p, items)
    &&& forall|q: Seq<char>| #[trigger] tui::is_common_prefix(q, items) ==> q.len() <= p.len()
}

/// Names without the slashes at their ends.
pub open spec fn bare(names: Seq<Seq<char>>) -> Seq<Seq<char>> {
    names.map_values(|n: Seq<char>| paths::drop_slashes_end(n))
}

fn bare_names(names: &Vec<String>) -> (r: Vec<String>)
    ensures
        text::strs(r@) == bare(text::strs(names@)),
{
    let ghost all = text::strs(names@);
    let mut out: Vec<String> = Vec::new();
    let mut i: usize = 0;
    while i < names.len()
        invariant
            i <= names@.len(),
            all == text::strs(names@),
            out@.len() == i,
            forall|k: int| 0 <= k < i ==> (#[trigger] out@[k])@ == paths::drop_slashes_end(all[k]),
        decreases names@.len() - i,
    {
        assert(all[i as int] == names@[i as int]@);
        let cs = text::to_chars(names[i].as_str());
        out.push(text::from_chars(paths::without_slashes_end(&cs)));
        i = i + 1;
    }
    assert(text::strs(out@) =~= bare(all));
    out
}

/// The mode after a path in its line was completed from `names`.
pub open spec fn is_completed(m: ModeModel, before: ModeModel, c: Completion, names: Seq<Seq<char>>) -> bool {
    match before {
        ModeModel::Input { kind, prompt, buf, .. } => if names.len() == 0 {
            m == input_box(kind, prompt, buf)
        } else if names.len() == 1 {
            m == input_box(kind, prompt, c.head@ + c.dir@ + names[0])
        } else {
            exists|p: Seq<char>| #[trigger]
                is_longest_common(p, bare(names)) && m == (ModeModel::Input {
                    kind,
                    prompt,
                    buf: c.head@ + c.dir@ + p,
                    completions: names,
                })
        },
        _ => m == before,
    }
}

impl App {
    /// The path in the line that is to be completed, if the line is or ends with
    /// one. In a list of users that ends otherwise the candidates go.
    pub fn completion(&mut self) -> (r: Option<Completion>)
        ensures
            final(self).cfg == old(self).cfg,
            match old(self)@.mode {
                ModeModel::Input { kind, buf, .. } => {
                    &&& r is Some <==> path_start(kind, buf) is Some
                    &&& r matches Some(c) ==> is_completion(c, kind, buf)
                    &&& final(self)@ == (if r is None && kind is AddUsers {
                        ScreenModel { mode: retyped(old(self)@.mode, buf), ..old(self)@ }
                    } else {
                        old(self)@
                    })
                },
                _ => r is None && final(self)@ == old(self)@,
            },
    {
        let line = self.typed_chars();
        let (path, users) = match &self.mode {
            Mode::Input { kind, .. } => (
                tui::is_path_input(kind),
                matches!(kind, InputKind::AddUsers { .. }),
            ),
            _ => (false, false),
        };
        if path {
            let c = completion_at(&line, 0, false);
            return Some(c);
        }
        if !users {
            return None;
        }
        proof {
            text::lemma_rfind(line@, ',');
        }
        let from: usize = match text::rfind_char(&line, ',') {
            Some(i) => i + 1,
            None => 0,
        };
        let tail = slice_subrange(&line, from, line.len());
        assert(tail@ =~= line@.skip(from as int));
        let piece = trim_start_chars(tail);
        if piece.len() > 0 && piece[0] == '@' {
            let c = completion_at(&line, line.len() - piece.len() + 1, true);
            return Some(c);
        }
        self.retype(line.as_slice());
        None
    }

    /// Completes the path `c` in the line from the entries of its directory, each
    /// with whether it is a directory: the only candidate is filled in, of several
    /// what they have in common.
    pub fn complete(&mut self, c: &Completion, entries: &Vec<(String, bool)>)
        ensures
            final(self).cfg == old(self).cfg,
            exists|names: Seq<Seq<char>>| #[trigger]
                in_order(names) && names.to_multiset() == candidates(
                    entries@,
                    c.prefix@,
                    c.allow_files,
                ).to_multiset() && is_completed(final(self)@.mode, old(self)@.mode, *c, names)
                    && final(self)@ == (ScreenModel {
                    mode: final(self)@.mode,
                    status: if names.len() == 0 && old(self)@.mode is Input {
                        "no match for '"@ + (c.dir@ + c.prefix@) + "'"@
                    } else {
                        old(self)@.status
                    },
                    ..old(self)@
                }),
    {
        let names = sorted_candidates(entries, c.prefix.as_str(), c.allow_files);
        let ghost all = text::strs(names@);
        let ghost before = self@.mode;
        let mut m = Mode::Browse;
        std::mem::swap(&mut m, &mut self.mode);
        match m {
            Mode::Input { kind, prompt, buf, .. } => {
                if names.len() == 0 {
                    let region = text::cat2(c.dir.as_str(), c.prefix.as_str());
                    self.begin_input(kind, prompt.as_str(), buf.as_str());
                    self.status = text::cat3("no match for '", region.as_str(), "'");
                    assert(in_order(all) && is_completed(self@.mode, before, *c, all));
                } else if names.len() == 1 {
                    assert(all[0] == names@[0]@);
                    let line = text::cat3(c.head.as_str(), c.dir.as_str(), names[0].as_str());
                    self.begin_input(kind, prompt.as_str(), line.as_str());
                    assert(in_order(all) && is_completed(self@.mode, before, *c, all));
                } else {
                    let short = bare_names(&names);
                    let common = tui::longest_common_prefix(&short);
                    assert(is_longest_common(common@, bare(all)));
                    let line = text::cat3(c.head.as_str(), c.dir.as_str(), common.as_str());
                    self.mode = Mode::Input { kind, prompt, buf: line, completions: names };
                    assert(in_order(all) && is_completed(self@.mode, before, *c, all));
                }
            },
            other => {
                self.mode = other;
                assert(in_order(all) && is_completed(self@.mode, before, *c, all));
            },
        }
    }
}

// ---------------------------------------------------------------------------
// What becomes of a line, and of a yes
// ---------------------------------------------------------------------------

/// What is selected once a change was saved.
#[derive(PartialEq, Eq, Structural, Copy, Clone, Debug)]
pub enum Select {
    Nothing,
    LastTarget,
    LastTeam,
}

/// What a line or a yes has done: what is said of it, and whether the
/// configuration is to be saved.
pub struct Commit {
    pub outcome: Result<String, String>,
    pub save: bool,
    pub select: Select,
}

/// What a line or a yes does: the targets and settings after it, what is said of
/// it, whether they are to be saved, and what is selected then.
#[verifier::ext_equal]
pub struct CommitModel {
    pub targets: Seq<TargetModel>,
    pub settings: SettingsModel,
    pub outcome: Result<Seq<char>, Seq<char>>,
    pub save: bool,
    pub select: Select,
}

/// What is said.
pub open spec fn outcome_view(r: Result<String, String>) -> Result<Seq<char>, Seq<char>> {
    match r {
        Ok(m) => Ok(m@),
        Err(e) => Err(e@),
    }
}

/// Nothing changed, and `e` is said.
pub open spec fn refused(ts: Seq<TargetModel>, g: SettingsModel, e: Seq<char>) -> CommitModel {
    CommitModel {
        targets: ts,
        settings: g,
        outcome: Err(e),
        save: false,
        select: Select::Nothing,
    }
}

/// The targets or settings changed, and `m` is said once they are saved.
pub open spec fn accepted(
    ts: Seq<TargetModel>,
    g: SettingsModel,
    m: Seq<char>,
    select: Select,
) -> CommitModel {
    CommitModel { targets: ts, settings: g, outcome: Ok(m), save: true, select }
}

/// A line as it is taken: without blanks around it, and local paths in full.
pub open spec fn taken_line(k: KindModel, buf: Seq<char>, table: Seq<(String, String)>) -> Seq<char> {
    let t = text::trim(buf);
    match k {
        KindModel::NewTargetPath(_) => tui::in_full(t, tui::resolved_in(table, t)),
        KindModel::Target(f) => if f == TargetField::Path || f == TargetField::ExportDir {
            tui::in_full(t, tui::resolved_in(table, t))
        } else {
            t
        },
        KindModel::AddUsers(_) => text::join(
            text::split(t, ',').map_values(|p: Seq<char>| tui::piece_in_full(p, table)),
            ","@,
        ),
        _ => t,
    }
}

/// Whether what is typed on a line of this kind is a local path.
pub open spec fn takes_path(k: KindModel) -> bool {
    match k {
        KindModel::NewTargetPath(_) => true,
        KindModel::Target(f) => f == TargetField::Path || f == TargetField::ExportDir,
        _ => false,
    }
}

/// A local path is taken as a full one, or empty, wherever the current directory
/// is known; and a line that was taken is taken again as it is.
pub proof fn law_local_paths_are_full(
    k: KindModel,
    buf: Seq<char>,
    table: Seq<(String, String)>,
    again: Seq<(String, String)>,
)
    requires
        takes_path(k),
        text::trim(buf).len() == 0 || text::trim(buf)[0] == '/' || (tui::resolved_in(
            table,
            text::trim(buf),
        ) matches Some(r) && r.len() > 0 && r[0] == '/' && text::trim(r) == r),
    ensures
        taken_line(k, buf, table).len() == 0 || taken_line(k, buf, table)[0] == '/',
        taken_line(k, taken_line(k, buf, table), again) == taken_line(k, buf, table),
{
    text::lemma_trim_idempotent(buf);
}

/// The line as it is taken. `table` holds what the paths in it stand for in the
/// current directory.
pub fn input_line(kind: &InputKind, buf: &str, table: &Vec<(String, String)>) -> (r: String)
    ensures
        r@ == taken_line(kind_model(*kind), buf@, table@),
{
    let cs = text::to_chars(buf);
    let t = text::from_chars(text::trim_chars(&cs));
    let local = match kind {
        InputKind::NewTargetPath { .. } => true,
        InputKind::Target(f) => matches!(f, TargetField::Path | TargetField::ExportDir),
        _ => false,
    };
    if local {
        let full = tui::lookup_path(table, t.as_str());
        return tui::to_absolute(t.as_str(), &full);
    }
    if matches!(kind, InputKind::AddUsers { .. }) {
        return tui::abs_at_file_tokens(t.as_str(), table);
    }
    t
}

/// The path that a piece of a list of users names, if it names one.
pub open spec fn named_path(piece: Seq<char>) -> Option<Seq<char>> {
    let t = text::trim(piece);
    if t.len() > 0 && t[0] == '@' {
        Some(t.skip(1))
    } else {
        None
    }
}

/// The paths in a line that the current directory says more of.
pub open spec fn line_paths(k: KindModel, buf: Seq<char>) -> Seq<Seq<char>> {
    let t = text::trim(buf);
    match k {
        KindModel::NewTargetPath(_) => seq![t],
        KindModel::Target(f) => if f == TargetField::Path || f == TargetField::ExportDir {
            seq![t]
        } else {
            Seq::empty()
        },
        KindModel::AddUsers(_) => text::split(t, ',').filter_map(|p: Seq<char>| named_path(p)),
        _ => Seq::empty(),
    }
}

fn named_paths(line: &[char]) -> (r: Vec<String>)
    ensures
        text::strs(r@) == text::split(line@, ',').filter_map(|p: Seq<char>| named_path(p)),
{
    let parts = text::split_chars(line, ',');
    let ghost all = text::split(line@, ',');
    let ghost f = |p: Seq<char>| named_path(p);
    let mut out: Vec<String> = Vec::new();
    let mut i: usize = 0;
    assert(text::rows(parts@).len() == parts@.len());
    assert(text::strs(out@) =~= all.take(0).filter_map(f));
    while i < parts.len()
        invariant
            i <= parts@.len(),
            all == text::rows(parts@),
            f == (|p: Seq<char>| named_path(p)),
            text::strs(out@) == all.take(i as int).filter_map(f),
        decreases parts@.len() - i,
    {
        proof {
            all.lemma_filter_map_take_succ(f, i as int);
            assert(all[i as int] == parts@[i as int]@);
        }
        let t = text::trim_chars(&parts[i]);
        if t.len() > 0 && t[0] == '@' {
            let rest = slice_subrange(t, 1, t.len());
            assert(rest@ =~= t@.skip(1));
            let path = text::from_chars(rest);
            let ghost before = text::strs(out@);
            text::push_text(&mut out, path.as_str());
            assert(before + seq![path@] =~= before.push(path@));
        } else {
            assert(text::strs(out@) + Seq::<Seq<char>>::empty() =~= text::strs(out@));
        }
        i = i + 1;
    }
    assert(all.take(i as int) =~= all);
    out
}

impl App {
    /// The paths in the line that the current directory says more of.
    pub fn typed_paths(&self) -> (r: Vec<String>)
        ensures
            text::strs(r@) == (match self@.mode {
                ModeModel::Input { kind, buf, .. } => line_paths(kind, buf),
                _ => Seq::empty(),
            }),
    {
        let mut out: Vec<String> = Vec::new();
        assert(text::strs(out@) =~= Seq::<Seq<char>>::empty());
        if let Mode::Input { kind, buf, .. } = &self.mode {
            let cs = text::to_chars(buf.as_str());
            let t = text::trim_chars(&cs);
            let local = match kind {
                InputKind::NewTargetPath { .. } => true,
                InputKind::Target(f) => matches!(f, TargetField::Path | TargetField::ExportDir),
                _ => false,
            };
            if local {
                let path = text::from_chars(t);
                text::push_text(&mut out, path.as_str());
                assert(text::strs(out@) =~= seq![path@]);
            } else if matches!(kind, InputKind::AddUsers { .. }) {
                return named_paths(t);
            }
        }
        out
    }
}

/// The target `ts[i]` with a team more.
pub open spec fn with_team(ts: Seq<TargetModel>, i: int, team: Seq<char>) -> Seq<TargetModel> {
    let added = TeamModel { name: team, team_id: (config::top_id(ts[i].teams) + 1) as i64 };
    ts.update(i, TargetModel { teams: ts[i].teams.push(added), ..ts[i] })
}

/// What a new target's path does.
pub open spec fn target_committed(
    ts: Seq<TargetModel>,
    g: SettingsModel,
    name: Seq<char>,
    path: Seq<char>,
) -> CommitModel {
    if path.len() == 0 {
        refused(ts, g, "path cannot be empty"@)
    } else if config::target_names(ts).contains(name) {
        refused(ts, g, "Target '"@ + name + "' already exists"@)
    } else {
        accepted(
            ts.push(
                TargetModel {
                    name,
                    path,
                    teams: Seq::empty(),
                    users: Seq::empty(),
                    end_scan: None,
                    purge_time: None,
                    overrides: config::no_overrides(),
                },
            ),
            g,
            "Created target '"@ + name + "'"@,
            Select::LastTarget,
        )
    }
}

/// What a new team's name does on the target of the name `tn`.
pub open spec fn team_committed(
    ts: Seq<TargetModel>,
    g: SettingsModel,
    tn: Seq<char>,
    team: Seq<char>,
) -> CommitModel {
    let i = text::place(config::target_names(ts), tn);
    if config::team_names(ts[i].teams).contains(team) {
        refused(ts, g, "Team '"@ + team + "' already exists in '"@ + tn + "'"@)
    } else {
        accepted(with_team(ts, i, team), g, "Added team '"@ + team + "'"@, Select::LastTeam)
    }
}

/// What users do on a team of the target of the name `tn`.
pub open spec fn users_committed(
    ts: Seq<TargetModel>,
    g: SettingsModel,
    tn: Seq<char>,
    team: Seq<char>,
    users: Seq<Seq<char>>,
) -> CommitModel {
    let i = text::place(config::target_names(ts), tn);
    let k = text::place(config::team_names(ts[i].teams), team);
    if users.len() == 0 {
        refused(ts, g, "no users given"@)
    } else if !config::team_names(ts[i].teams).contains(team) {
        refused(ts, g, config::team_not_found(team, tn))
    } else {
        accepted(
            ts.update(
                i,
                TargetModel {
                    users: config::with_members(ts[i].users, users, ts[i].teams[k].team_id),
                    ..ts[i]
                },
            ),
            g,
            "Added "@ + text::dec(users.len()) + " user(s) to '"@ + team + "'"@,
            Select::Nothing,
        )
    }
}

/// What a list of users does on a team of the target of the name `tn`.
pub open spec fn list_committed(
    ts: Seq<TargetModel>,
    g: SettingsModel,
    tn: Seq<char>,
    team: Seq<char>,
    line: Seq<char>,
    files: Seq<UserList>,
) -> CommitModel {
    match cli::parsed_teams(seq![team + "="@ + line], files) {
        Err(e) => refused(ts, g, e),
        Ok(teams) => users_committed(
            ts,
            g,
            tn,
            team,
            if teams.len() > 0 {
                teams[0].users
            } else {
                Seq::empty()
            },
        ),
    }
}

/// What a line for one of a target's settings does on the selected target.
pub open spec fn field_committed(
    ts: Seq<TargetModel>,
    g: SettingsModel,
    c: Cursor,
    f: TargetField,
    line: Seq<char>,
) -> CommitModel {
    let i = c.target as int;
    if i >= ts.len() {
        refused(ts, g, "no target selected"@)
    } else {
        match tui::edited(ts[i], f, line) {
            None => refused(ts, g, "must be a number or empty"@),
            Some(t) => accepted(
                ts.update(i, t),
                g,
                "Updated "@ + tui::field_name(f) + " of '"@ + ts[i].name + "'"@,
                Select::Nothing,
            ),
        }
    }
}

/// What a line does that was taken for `k`.
pub open spec fn committed(
    ts: Seq<TargetModel>,
    g: SettingsModel,
    c: Cursor,
    k: KindModel,
    line: Seq<char>,
    files: Seq<UserList>,
) -> CommitModel {
    match k {
        KindModel::NewTargetName => if line.len() == 0 {
            refused(ts, g, "target name cannot be empty"@)
        } else {
            CommitModel { outcome: Ok(Seq::empty()), ..refused(ts, g, Seq::empty()) }
        },
        KindModel::NewTargetPath(name) => target_committed(ts, g, name, line),
        KindModel::NewTeam => match target_name(ts, c) {
            Some(tn) => team_committed(ts, g, tn, line),
            None => refused(ts, g, "no target selected"@),
        },
        KindModel::AddUsers(team) => match target_name(ts, c) {
            Some(tn) => list_committed(ts, g, tn, team, line, files),
            None => refused(ts, g, "no target selected"@),
        },
        KindModel::Target(f) => field_committed(ts, g, c, f, line),
        KindModel::Setting(f) => match tui::set(g, f, line) {
            Some((now, m)) => accepted(ts, now, m, Select::Nothing),
            None => refused(ts, g, "must be a number"@),
        },
    }
}

/// Whether the selected target has an id left for a team, if it needs one.
pub open spec fn team_id_left(ts: Seq<TargetModel>, c: Cursor, team: Seq<char>) -> bool {
    match target_name(ts, c) {
        Some(tn) => config::id_left(ts, tn, team),
        None => true,
    }
}

/// Whether taking the line in the input box does not need an id past the largest
/// one: only a new team's name may need one.
pub open spec fn id_left_for_line(
    mode: ModeModel,
    ts: Seq<TargetModel>,
    c: Cursor,
    table: Seq<(String, String)>,
) -> bool {
    match mode {
        ModeModel::Input { kind, buf, .. } => kind is NewTeam ==> team_id_left(
            ts,
            c,
            taken_line(kind, buf, table),
        ),
        _ => true,
    }
}

/// Whether a configuration and what is said are what a commit gives.
pub open spec fn is_commit(cfg: Config, r: Commit, m: CommitModel) -> bool {
    &&& cfg.model() == m.targets
    &&& cfg.settings() == m.settings
    &&& outcome_view(r.outcome) == m.outcome
    &&& r.save == m.save
    &&& r.select == m.select
}

fn refuse(e: String) -> (r: Commit)
    ensures
        r == (Commit { outcome: Err::<String, String>(e), save: false, select: Select::Nothing }),
{
    Commit { outcome: Err(e), save: false, select: Select::Nothing }
}

fn accept(m: String, select: Select) -> (r: Commit)
    ensures
        r == (Commit { outcome: Ok::<String, String>(m), save: true, select }),
{
    Commit { outcome: Ok(m), save: true, select }
}

proof fn lemma_selected(ts: Seq<TargetModel>, c: Cursor)
    requires
        c.target < ts.len(),
    ensures
        config::target_names(ts).contains(ts[c.target as int].name),
        0 <= text::place(config::target_names(ts), ts[c.target as int].name) < ts.len(),
{
    let name = ts[c.target as int].name;
    assert(config::target_names(ts)[c.target as int] == name);
    text::lemma_place(config::target_names(ts), name);
}

/// Adds users to a team of the target of the name `tn`.
fn commit_users(cfg: &mut Config, tn: &str, team: &str, users: &Vec<String>) -> (r: Commit)
    requires
        config::target_names(old(cfg).model()).contains(tn@),
        0 <= text::place(config::target_names(old(cfg).model()), tn@) < old(cfg).model().len(),
    ensures
        is_commit(
            *final(cfg),
            r,
            users_committed(
                old(cfg).model(),
                old(cfg).settings(),
                tn@,
                team@,
                text::strs(users@),
            ),
        ),
{
    if users.len() == 0 {
        return refuse("no users given".to_string());
    }
    let ghost ts = cfg.model();
    let ghost g = cfg.settings();
    let ghost i = text::place(config::target_names(ts), tn@);
    let ghost k = text::place(config::team_names(ts[i].teams), team@);
    let ghost id = ts[i].teams[k].team_id;
    let ghost all = text::strs(users@);
    let ghost names = config::target_names(ts);
    let mut n: usize = 0;
    assert(ts.update(i, TargetModel { users: config::with_members(ts[i].users, all.take(0), id), ..ts[i] })
        =~= ts);
    while n < users.len()
        invariant
            n <= users@.len(),
            all == text::strs(users@),
            ts == old(cfg).model(),
            g == old(cfg).settings(),
            names == config::target_names(ts),
            names.contains(tn@),
            i == text::place(names, tn@),
            0 <= i < ts.len(),
            k == text::place(config::team_names(ts[i].teams), team@),
            id == ts[i].teams[k].team_id,
            cfg.settings() == g,
            n > 0 ==> config::team_names(ts[i].teams).contains(team@),
            cfg.model() == ts.update(
                i,
                TargetModel { users: config::with_members(ts[i].users, all.take(n as int), id), ..ts[i] },
            ),
        decreases users@.len() - n,
    {
        proof {
            assert(config::target_names(cfg.model()) =~= names);
            assert(all.take(n + 1).drop_last() =~= all.take(n as int));
            assert(all.take(n + 1).last() == users@[n as int]@);
        }
        let ghost before = cfg.model();
        let done = cfg.add_user(users[n].as_str(), team, tn);
        match done {
            Ok(_) => {
                assert(cfg.model() =~= ts.update(
                    i,
                    TargetModel {
                        users: config::with_members(ts[i].users, all.take(n + 1), id),
                        ..ts[i]
                    },
                ));
            },
            Err(e) => {
                assert(n == 0);
                assert(cfg.model() =~= ts);
                return refuse(e);
            },
        }
        n = n + 1;
    }
    assert(all.take(n as int) =~= all);
    let count = text::dec_string(n as u64);
    let msg = text::cat5("Added ", count.as_str(), " user(s) to '", team, "'");
    accept(msg, Select::Nothing)
}

fn commit_list(cfg: &mut Config, tn: &str, team: &str, line: &str, files: &Vec<UserList>) -> (r:
    Commit)
    requires
        config::target_names(old(cfg).model()).contains(tn@),
        0 <= text::place(config::target_names(old(cfg).model()), tn@) < old(cfg).model().len(),
    ensures
        is_commit(
            *final(cfg),
            r,
            list_committed(
                old(cfg).model(),
                old(cfg).settings(),
                tn@,
                team@,
                line@,
                files@,
            ),
        ),
{
    let item = text::cat3(team, "=", line);
    let mut raw: Vec<String> = Vec::new();
    raw.push(item);
    assert(text::strs(raw@) =~= seq![team@ + "="@ + line@]);
    match cli::parse_team_specs(&raw, files) {
        Ok(teams) => {
            if teams.len() > 0 {
                assert(config::team_spec_views(teams@)[0].users == text::strs(teams@[0].users@));
                commit_users(cfg, tn, team, &teams[0].users)
            } else {
                let none: Vec<String> = Vec::new();
                assert(text::strs(none@) =~= Seq::<Seq<char>>::empty());
                commit_users(cfg, tn, team, &none)
            }
        },
        Err(e) => refuse(e),
    }
}

fn commit_target(cfg: &mut Config, name: &str, path: &str) -> (r: Commit)
    ensures
        is_commit(
            *final(cfg),
            r,
            target_committed(old(cfg).model(), old(cfg).settings(), name@, path@),
        ),
{
    if path.is_empty() {
        return refuse("path cannot be empty".to_string());
    }
    match cfg.add_target(name, path, None, None) {
        Ok(()) => {
            let msg = text::cat3("Created target '", name, "'");
            accept(msg, Select::LastTarget)
        },
        Err(e) => refuse(e),
    }
}

fn commit_team(cfg: &mut Config, tn: &str, team: &str) -> (r: Commit)
    requires
        config::target_names(old(cfg).model()).contains(tn@),
        config::id_left(old(cfg).model(), tn@, team@),
    ensures
        is_commit(
            *final(cfg),
            r,
            team_committed(old(cfg).model(), old(cfg).settings(), tn@, team@),
        ),
{
    match cfg.add_team(team, tn) {
        Ok(()) => {
            let msg = text::cat3("Added team '", team, "'");
            accept(msg, Select::LastTeam)
        },
        Err(e) => refuse(e),
    }
}

impl App {
    /// The user lists that the line names, where it is a list of users.
    pub fn named_lists(&self, table: &Vec<(String, String)>) -> (r: Vec<String>)
        ensures
            text::strs(r@) == (match self@.mode {
                ModeModel::Input { kind: KindModel::AddUsers(team), buf, .. } => cli::list_paths(
                    seq![team + "="@ + taken_line(KindModel::AddUsers(team), buf, table@)],
                ),
                _ => Seq::empty(),
            }),
    {
        if let Mode::Input { kind, buf, .. } = &self.mode {
            if let InputKind::AddUsers { team } = kind {
                let line = input_line(kind, buf.as_str(), table);
                let mut raw: Vec<String> = Vec::new();
                raw.push(text::cat3(team.as_str(), "=", line.as_str()));
                assert(text::strs(raw@) =~= seq![team@ + "="@ + line@]);
                return cli::user_list_paths(&raw);
            }
        }
        let none: Vec<String> = Vec::new();
        assert(text::strs(none@) =~= Seq::<Seq<char>>::empty());
        none
    }

    fn commit_kind(&mut self, kind: InputKind, line: &str, files: &Vec<UserList>) -> (r: Commit)
        requires
            kind is NewTeam ==> team_id_left(old(self).cfg.model(), old(self)@.cursor, line@),
        ensures
            final(self)@ == (ScreenModel {
                mode: if kind is NewTargetName && line@.len() > 0 {
                    input_box(KindModel::NewTargetPath(line@), "Path to scan:"@, Seq::empty())
                } else {
                    old(self)@.mode
                },
                ..old(self)@
            }),
            is_commit(
                final(self).cfg,
                r,
                committed(
                    old(self).cfg.model(),
                    old(self).cfg.settings(),
                    old(self)@.cursor,
                    kind_model(kind),
                    line@,
                    files@,
                ),
            ),
    {
        let ghost ts = self.cfg.model();
        let selected = self.current_target_name();
        proof {
            if self.cursor.target < ts.len() {
                lemma_selected(ts, self.cursor);
            }
        }
        match kind {
            InputKind::NewTargetName => {
                if line.is_empty() {
                    return refuse("target name cannot be empty".to_string());
                }
                proof {
                    reveal_strlit("");
                    assert(""@ =~= Seq::<char>::empty());
                }
                let kind = InputKind::NewTargetPath { name: line.to_string() };
                self.begin_input(kind, "Path to scan:", "");
                let none = String::new();
                assert(none@ =~= Seq::<char>::empty());
                Commit { outcome: Ok(none), save: false, select: Select::Nothing }
            },
            InputKind::NewTargetPath { name } => commit_target(
                &mut self.cfg,
                name.as_str(),
                line,
            ),
            InputKind::NewTeam => match selected {
                Some(tn) => commit_team(&mut self.cfg, tn.as_str(), line),
                None => refuse("no target selected".to_string()),
            },
            InputKind::AddUsers { team } => match selected {
                Some(tn) => commit_list(&mut self.cfg, tn.as_str(), team.as_str(), line, files),
                None => refuse("no target selected".to_string()),
            },
            InputKind::Target(f) => {
                let i = self.cursor.target;
                match tui::edit_target(&mut self.cfg, i, f, line) {
                    Ok(m) => accept(m, Select::Nothing),
                    Err(e) => refuse(e),
                }
            },
            InputKind::Setting(f) => match tui::edit_setting(&mut self.cfg, f, line) {
                Ok(m) => accept(m, Select::Nothing),
                Err(e) => refuse(e),
            },
        }
    }

    /// Whether taking the line in the input box does not need an id past the largest
    /// one.
    pub fn has_id_left(&self, table: &Vec<(String, String)>) -> (r: bool)
        ensures
            r == id_left_for_line(self@.mode, self.cfg.model(), self@.cursor, table@),
    {
        if let Mode::Input { kind, buf, .. } = &self.mode {
            if let InputKind::NewTeam = kind {
                let line = input_line(kind, buf.as_str(), table);
                return match self.current_target_name() {
                    Some(tn) => self.cfg.has_id_left(line.as_str(), tn.as_str()),
                    None => true,
                };
            }
        }
        true
    }

    /// Takes the line in the input box. `table` holds what the paths in it stand
    /// for in the current directory, `files` the user lists that it names.
    pub fn commit_input(&mut self, table: &Vec<(String, String)>, files: &Vec<UserList>) -> (r:
        Option<Commit>)
        requires
            id_left_for_line(old(self)@.mode, old(self).cfg.model(), old(self)@.cursor, table@),
        ensures
            match old(self)@.mode {
                ModeModel::Input { kind, buf, .. } => {
                    let line = taken_line(kind, buf, table@);
                    &&& final(self)@ == (ScreenModel {
                        mode: if kind is NewTargetName && line.len() > 0 {
                            input_box(
                                KindModel::NewTargetPath(line),
                                "Path to scan:"@,
                                Seq::empty(),
                            )
                        } else {
                            ModeModel::Browse
                        },
                        ..old(self)@
                    })
                    &&& r matches Some(done) && is_commit(
                        final(self).cfg,
                        done,
                        committed(
                            old(self).cfg.model(),
                            old(self).cfg.settings(),
                            old(self)@.cursor,
                            kind,
                            line,
                            files@,
                        ),
                    )
                },
                _ => r is None && *final(self) == *old(self),
            },
    {
        if !matches!(self.mode, Mode::Input { .. }) {
            return None;
        }
        let mut m = Mode::Browse;
        std::mem::swap(&mut m, &mut self.mode);
        match m {
            Mode::Input { kind, buf, .. } => {
                let line = input_line(&kind, buf.as_str(), table);
                Some(self.commit_kind(kind, line.as_str(), files))
            },
            _ => None,
        }
    }
}

/// What is said once a change was saved, or could not be.
pub open spec fn settled(
    outcome: Result<Seq<char>, Seq<char>>,
    save: bool,
    saved: Result<(), Seq<char>>,
) -> Result<Seq<char>, Seq<char>> {
    match saved {
        Err(e) => if save {
            Err(e)
        } else {
            outcome
        },
        Ok(()) => outcome,
    }
}

/// The cursor after a change that was saved.
pub open spec fn selected(ts: Seq<TargetModel>, c: Cursor, select: Select) -> Cursor {
    match select {
        Select::Nothing => c,
        Select::LastTarget => Cursor { target: within(usize::MAX, ts.len() as int), ..c },
        Select::LastTeam => if c.target < ts.len() {
            Cursor {
                team: within(usize::MAX, ts[c.target as int].teams.len() as int),
                user: 0,
                ..c
            }
        } else {
            c
        },
    }
}

/// The screen once a change was saved, or could not be.
pub open spec fn finished(
    s: ScreenModel,
    ts: Seq<TargetModel>,
    r: Result<Seq<char>, Seq<char>>,
    select: Select,
) -> ScreenModel {
    let c = if r is Ok {
        selected(ts, s.cursor, select)
    } else {
        s.cursor
    };
    ScreenModel {
        cursor: clamped(ts, c, s.filter_lower),
        status: match r {
            Ok(m) => if m.len() > 0 {
                m
            } else {
                s.status
            },
            Err(e) => "Error: "@ + e,
        },
        ..s
    }
}

/// Whether a configuration could be saved.
pub open spec fn saved_view(r: Result<(), String>) -> Result<(), Seq<char>> {
    match r {
        Ok(()) => Ok(()),
        Err(e) => Err(e@),
    }
}

/// What a yes does.
pub open spec fn confirmed(
    ts: Seq<TargetModel>,
    g: SettingsModel,
    c: Cursor,
    a: ConfirmModel,
) -> CommitModel {
    match a {
        ConfirmModel::DeleteTarget(name) => if config::target_names(ts).contains(name) {
            accepted(
                ts.remove(text::place(config::target_names(ts), name)),
                g,
                "Deleted target '"@ + name + "'"@,
                Select::Nothing,
            )
        } else {
            refused(ts, g, config::target_not_found(name))
        },
        ConfirmModel::DeleteTeam(team) => match target_name(ts, c) {
            None => refused(ts, g, "no target"@),
            Some(tn) => {
                let i = text::place(config::target_names(ts), tn);
                let k = text::place(config::team_names(ts[i].teams), team);
                if config::team_names(ts[i].teams).contains(team) {
                    accepted(
                        ts.update(
                            i,
                            TargetModel {
                                teams: config::without_team(ts[i].teams, team),
                                users: config::without_members(ts[i].users, ts[i].teams[k].team_id),
                                ..ts[i]
                            },
                        ),
                        g,
                        "Deleted team '"@ + team + "'"@,
                        Select::Nothing,
                    )
                } else {
                    refused(ts, g, config::team_not_found(team, tn))
                }
            },
        },
        ConfirmModel::DeleteUser(user) => match target_name(ts, c) {
            None => refused(ts, g, "no target"@),
            Some(tn) => {
                let i = text::place(config::target_names(ts), tn);
                accepted(
                    ts.update(
                        i,
                        TargetModel { users: config::without_user(ts[i].users, user), ..ts[i] },
                    ),
                    g,
                    "Removed user '"@ + user + "'"@,
                    Select::Nothing,
                )
            },
        },
    }
}

impl App {
    /// Says what became of a change and selects what it brought, now that it was
    /// saved or could not be.
    pub fn finish(&mut self, done: Commit, saved: Result<(), String>)
        ensures
            final(self).cfg == old(self).cfg,
            final(self)@ == finished(
                old(self)@,
                old(self).cfg.model(),
                settled(outcome_view(done.outcome), done.save, saved_view(saved)),
                done.select,
            ),
    {
        let ghost ts = self.cfg.model();
        let mut outcome = done.outcome;
        if done.save {
            if let Err(e) = saved {
                outcome = Err(e);
            }
        }
        let ghost before = self@;
        if outcome.is_ok() {
            match done.select {
                Select::Nothing => {},
                Select::LastTarget => {
                    self.cursor.target = bounded(usize::MAX, self.cfg.targets.len());
                },
                Select::LastTeam => {
                    if self.cursor.target < self.cfg.targets.len() {
                        assert(ts[self.cursor.target as int]
                            == self.cfg.targets@[self.cursor.target as int]@);
                        self.cursor.team =
                        bounded(usize::MAX, self.cfg.targets[self.cursor.target].teams.len());
                        self.cursor.user = 0;
                    }
                },
            }
        }
        self.clamp_selections();
        match outcome {
            Ok(m) => {
                if !m.as_str().is_empty() {
                    self.status = m;
                }
            },
            Err(e) => {
                self.status = text::cat2("Error: ", e.as_str());
            },
        }
    }

    fn confirm(&mut self, a: ConfirmAction) -> (r: Commit)
        ensures
            final(self)@ == old(self)@,
            is_commit(
                final(self).cfg,
                r,
                confirmed(
                    old(self).cfg.model(),
                    old(self).cfg.settings(),
                    old(self)@.cursor,
                    confirm_model(a),
                ),
            ),
    {
        let selected = self.current_target_name();
        proof {
            if self.cursor.target < self.cfg.model().len() {
                lemma_selected(self.cfg.model(), self.cursor);
            }
        }
        match a {
            ConfirmAction::DeleteTarget(name) => match self.cfg.remove_target(name.as_str()) {
                Ok(()) => {
                    let msg = text::cat3("Deleted target '", name.as_str(), "'");
                    accept(msg, Select::Nothing)
                },
                Err(e) => refuse(e),
            },
            ConfirmAction::DeleteTeam(team) => match selected {
                Some(tn) => match self.cfg.remove_team(team.as_str(), tn.as_str()) {
                    Ok(()) => {
                        let msg = text::cat3("Deleted team '", team.as_str(), "'");
                        accept(msg, Select::Nothing)
                    },
                    Err(e) => refuse(e),
                },
                None => refuse("no target".to_string()),
            },
            ConfirmAction::DeleteUser(user) => match selected {
                Some(tn) => match self.cfg.remove_user(user.as_str(), tn.as_str()) {
                    Ok(()) => {
                        let msg = text::cat3("Removed user '", user.as_str(), "'");
                        accept(msg, Select::Nothing)
                    },
                    Err(e) => refuse(e),
                },
                None => refuse("no target".to_string()),
            },
        }
    }

    /// A key while a question waits for a yes. Every other key is a no and leaves
    /// the configuration as it is.
    pub fn handle_confirm_key(&mut self, k: KeyCode) -> (r: Option<Commit>)
        ensures
            if k == KeyCode::Char('y') || k == KeyCode::Char('Y') {
                match old(self)@.mode {
                    ModeModel::Confirm { action, .. } => {
                        &&& final(self)@ == (ScreenModel { mode: ModeModel::Browse, ..old(self)@ })
                        &&& r matches Some(done) && is_commit(
                            final(self).cfg,
                            done,
                            confirmed(
                                old(self).cfg.model(),
                                old(self).cfg.settings(),
                                old(self)@.cursor,
                                action,
                            ),
                        )
                    },
                    _ => r is None && *final(self) == *old(self),
                }
            } else {
                &&& r is None
                &&& final(self).cfg == old(self).cfg
                &&& final(self)@ == saying(
                    ScreenModel { mode: ModeModel::Browse, ..old(self)@ },
                    "Cancelled."@,
                )
            },
    {
        let yes = match k {
            KeyCode::Char(x) => x == 'y' || x == 'Y',
            _ => false,
        };
        if !yes {
            self.mode = Mode::Browse;
            self.status = "Cancelled.".to_string();
            return None;
        }
        if !matches!(self.mode, Mode::Confirm { .. }) {
            return None;
        }
        let mut m = Mode::Browse;
        std::mem::swap(&mut m, &mut self.mode);
        match m {
            Mode::Confirm { action, .. } => Some(self.confirm(action)),
            _ => None,
        }
    }
}

/// A new team is selected once it was saved, and so users that are added next go
/// onto it.
pub proof fn law_new_team_is_selected(
    s: ScreenModel,
    ts: Seq<TargetModel>,
    g: SettingsModel,
    team: Seq<char>,
    files: Seq<UserList>,
)
    requires
        s.cursor.target < ts.len(),
        // the target is the first of its name
        text::place(config::target_names(ts), ts[s.cursor.target as int].name) == s.cursor.target,
        ts[s.cursor.target as int].teams.len() < usize::MAX,
        !config::team_names(ts[s.cursor.target as int].teams).contains(team),
    ensures
        ({
            let m = committed(ts, g, s.cursor, KindModel::NewTeam, team, files);
            let after = finished(s, m.targets, m.outcome, m.select);
            &&& m.outcome is Ok
            &&& team_name(m.targets, after.cursor) == Some(team)
        }),
{
    let i = s.cursor.target as int;
    let now = with_team(ts, i, team);
    assert(now[i].teams.last().name == team);
}

/// A refused line and a refused yes leave the configuration as it is, and are not
/// saved.
pub proof fn law_refusals_change_nothing(
    ts: Seq<TargetModel>,
    g: SettingsModel,
    c: Cursor,
    k: KindModel,
    line: Seq<char>,
    files: Seq<UserList>,
    a: ConfirmModel,
)
    ensures
        ({
            let m = committed(ts, g, c, k, line, files);
            m.outcome is Err ==> m.targets == ts && m.settings == g && !m.save
        }),
        ({
            let m = confirmed(ts, g, c, a);
            m.outcome is Err ==> m.targets == ts && m.settings == g && !m.save
        }),
{
}

// ---------------------------------------------------------------------------
// Hints
// ---------------------------------------------------------------------------

/// The keys that can be used.
pub open spec fn hint(s: ScreenModel) -> Seq<char> {
    if s.cursor.filtering {
        "Type to filter \u{b7} Enter keep \u{b7} Esc clear \u{b7} Backspace delete"@
    } else {
        match s.mode {
            ModeModel::Input { kind, .. } => if is_path(kind) {
                "Type value \u{b7} Tab complete dir \u{b7} Enter confirm \u{b7} Esc cancel"@
            } else if kind is AddUsers {
                "Type users (alice,bob or @file) \u{b7} Tab complete @file \u{b7} Enter confirm \u{b7} Esc cancel"@
            } else {
                "Type value \u{b7} Enter confirm \u{b7} Esc cancel"@
            },
            ModeModel::Confirm { .. } => "y confirm \u{b7} any other key cancel"@,
            ModeModel::Browse => browse_hint(s.cursor),
        }
    }
}

/// The keys that can be used on a tab.
pub open spec fn browse_hint(c: Cursor) -> Seq<char> {
    match c.tab {
        Tab::Targets => "\u{2191}\u{2193} move \u{b7} a add \u{b7} e path \u{b7} s end-scan \u{b7} p purge \u{b7} d delete \u{b7} r scan \u{b7} R scan-all \u{b7} \u{21b9} tab \u{b7} q quit"@,
        Tab::TeamsUsers => "[ ] target \u{b7} \u{2191}\u{2193} team \u{b7} \u{2190}\u{2192} user \u{b7} / search \u{b7} a add-team \u{b7} d del-team \u{b7} u add-users \u{b7} x del-user \u{b7} q quit"@,
        Tab::ScanSync => "[ ] target \u{b7} \u{2191}\u{2193} move \u{b7} Enter/e edit \u{b7} r scan this \u{b7} R scan-all \u{b7} \u{21b9} tab \u{b7} q quit"@,
        Tab::Output => match c.output {
            OutputView::History => "[ ] target \u{b7} h/d/p/i/t view \u{b7} \u{2191}\u{2193} scroll \u{b7} r/R scan \u{b7} \u{21b9} tab \u{b7} q quit"@,
            OutputView::Detail => "[ ] target \u{b7} h/d/p/i/t \u{b7} / search \u{b7} \u{2191}\u{2193} user \u{b7} x export \u{b7} X export-all \u{b7} r/R scan \u{b7} q quit"@,
            OutputView::Permission => "[ ] target \u{b7} h/d/p/i/t \u{b7} / search \u{b7} \u{2191}\u{2193} user \u{b7} perm issues \u{b7} r/R scan \u{b7} q quit"@,
            OutputView::Inode => "[ ] target \u{b7} h/d/p/i/t \u{b7} / search \u{b7} \u{2191}\u{2193} user \u{b7} inode counts \u{b7} r/R scan \u{b7} q quit"@,
            OutputView::Treemap => "[ ] target \u{b7} h/d/p/i/t \u{b7} / search \u{b7} \u{2191}\u{2193} move \u{b7} Enter open \u{b7} Bksp up \u{b7} q quit"@,
        },
        Tab::Settings => "\u{2191}\u{2193} move \u{b7} Enter/e edit \u{b7} r/R scan \u{b7} \u{21b9} tab \u{b7} q quit"@,
    }
}

/// The keys that can be used.
pub fn footer_hint(app: &App) -> (r: &'static str)
    ensures
        r@ == hint(app@),
{
    if app.cursor.filtering {
        return "Type to filter \u{b7} Enter keep \u{b7} Esc clear \u{b7} Backspace delete";
    }
    match &app.mode {
        Mode::Input { kind, .. } => {
            if tui::is_path_input(kind) {
                "Type value \u{b7} Tab complete dir \u{b7} Enter confirm \u{b7} Esc cancel"
            } else if matches!(kind, InputKind::AddUsers { .. }) {
                "Type users (alice,bob or @file) \u{b7} Tab complete @file \u{b7} Enter confirm \u{b7} Esc cancel"
            } else {
                "Type value \u{b7} Enter confirm \u{b7} Esc cancel"
            }
        },
        Mode::Confirm { .. } => "y confirm \u{b7} any other key cancel",
        Mode::Browse => match app.cursor.tab {
            Tab::Targets => "\u{2191}\u{2193} move \u{b7} a add \u{b7} e path \u{b7} s end-scan \u{b7} p purge \u{b7} d delete \u{b7} r scan \u{b7} R scan-all \u{b7} \u{21b9} tab \u{b7} q quit",
            Tab::TeamsUsers => "[ ] target \u{b7} \u{2191}\u{2193} team \u{b7} \u{2190}\u{2192} user \u{b7} / search \u{b7} a add-team \u{b7} d del-team \u{b7} u add-users \u{b7} x del-user \u{b7} q quit",
            Tab::ScanSync => "[ ] target \u{b7} \u{2191}\u{2193} move \u{b7} Enter/e edit \u{b7} r scan this \u{b7} R scan-all \u{b7} \u{21b9} tab \u{b7} q quit",
            Tab::Output => match app.cursor.output {
                OutputView::History => "[ ] target \u{b7} h/d/p/i/t view \u{b7} \u{2191}\u{2193} scroll \u{b7} r/R scan \u{b7} \u{21b9} tab \u{b7} q quit",
                OutputView::Detail => "[ ] target \u{b7} h/d/p/i/t \u{b7} / search \u{b7} \u{2191}\u{2193} user \u{b7} x export \u{b7} X export-all \u{b7} r/R scan \u{b7} q quit",
                OutputView::Permission => "[ ] target \u{b7} h/d/p/i/t \u{b7} / search \u{b7} \u{2191}\u{2193} user \u{b7} perm issues \u{b7} r/R scan \u{b7} q quit",
                OutputView::Inode => "[ ] target \u{b7} h/d/p/i/t \u{b7} / search \u{b7} \u{2191}\u{2193} user \u{b7} inode counts \u{b7} r/R scan \u{b7} q quit",
                OutputView::Treemap => "[ ] target \u{b7} h/d/p/i/t \u{b7} / search \u{b7} \u{2191}\u{2193} move \u{b7} Enter open \u{b7} Bksp up \u{b7} q quit",
            },
            Tab::Settings => "\u{2191}\u{2193} move \u{b7} Enter/e edit \u{b7} r/R scan \u{b7} \u{21b9} tab \u{b7} q quit",
        },
    }
}

/// A line that is typed for a setting of a target is what the setting then reads, where
/// the setting is a text; a number reads as the number that was typed, one below zero is
/// refused, and an empty line unsets what can be unset. Every other setting reads as before, and so do the name, the
/// teams and the users.
pub proof fn law_edited_settings_read_as_typed(
    m: TargetModel,
    f: TargetField,
    g: TargetField,
    t: Seq<char>,
    n: i64,
)
    ensures
        tui::edited(m, f, t) matches Some(now) ==> {
            &&& g != f ==> field_text(now, g) == field_text(m, g)
            &&& now.name == m.name && now.teams == m.teams && now.users == m.users
            &&& now.overrides.tree_map == m.overrides.tree_map
            &&& now.overrides.sync_pass == m.overrides.sync_pass
        },
        f != TargetField::PurgeTime && f != TargetField::Level && f != TargetField::Workers
            ==> tui::edited(m, f, t) is Some && field_text(tui::edited(m, f, t)->0, f) == t,
        f == TargetField::PurgeTime || f == TargetField::Level || f == TargetField::Workers ==> {
            &&& tui::edited(m, f, Seq::empty()) matches Some(now) && field_text(now, f).len() == 0
            &&& n >= 0 ==> (tui::edited(m, f, text::dec_int(n as int)) matches Some(now)
                && field_text(now, f) == text::dec_int(n as int))
            &&& n < 0 ==> tui::edited(m, f, text::dec_int(n as int)) is None
        },
{
    assert(t.len() == 0 ==> t =~= Seq::<char>::empty());
    tui::law_typed_numbers(None);
    if n >= 0 {
        tui::law_typed_numbers(Some(n));
    } else {
        text::law_read_of_written_signed(n);
        text::lemma_dec_digits((-n) as nat);
    }
}

/// A line that is typed for a global setting is what the setting then reads, where the
/// setting is a text, and every other setting reads as before.
pub proof fn law_set_settings_read_as_typed(
    s: SettingsModel,
    f: SettingField,
    g: SettingField,
    t: Seq<char>,
)
    ensures
        tui::set(s, f, t) matches Some(now) ==> (g != f ==> setting_text(now.0, g) == setting_text(
            s,
            g,
        )),
        f == SettingField::OutputDir || f == SettingField::Workers || f == SettingField::LsfCmd || f
            == SettingField::LsfOs || f == SettingField::LsfQueue ==> (tui::set(s, f, t) matches Some(
            now,
        ) && setting_text(now.0, f) == t),
{
}

/// A number that is typed for a limit is what the limit then reads, from the least value
/// on that the limit may have: one walker for network and spinning disks, none for the
/// others, where it means no limit.
pub proof fn law_set_limits_read_as_typed(s: SettingsModel, f: SettingField, n: i64)
    requires
        f == SettingField::MaxParallel || f == SettingField::NfsParallel || f
            == SettingField::HddParallel || f == SettingField::SsdParallel || f
            == SettingField::LsfMemMb,
    ensures
        tui::set(s, f, text::dec_int(n as int)) matches Some(now) && ({
            let least: int = if f == SettingField::NfsParallel || f == SettingField::HddParallel {
                1
            } else {
                0
            };
            &&& n >= least ==> setting_text(now.0, f) == text::dec_int(n as int)
            &&& n < least ==> setting_text(now.0, f) == text::dec_int(least)
        }),
{
    text::law_read_of_written_signed(n);
}

} // verus!
