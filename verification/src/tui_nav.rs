//! The configuration screen's keys: where the cursor goes, and what a key asks
//! for.

use vstd::prelude::*;

verus! {

/// The tabs of the screen.
#[derive(PartialEq, Eq, Structural, Copy, Clone, Debug)]
pub enum Tab {
    Targets,
    TeamsUsers,
    ScanSync,
    Output,
    Settings,
}

/// What the output tab shows.
#[derive(PartialEq, Eq, Structural, Copy, Clone, Debug)]
pub enum OutputView {
    History,
    Detail,
    Permission,
    Inode,
    Treemap,
}

/// A setting of a target that is typed in.
#[derive(PartialEq, Eq, Structural, Copy, Clone, Debug)]
pub enum TargetField {
    Path,
    EndScan,
    PurgeTime,
    Level,
    Workers,
    SyncHost,
    SyncDest,
    SyncUser,
    ExportDir,
    WebhookUrl,
}

/// A global setting that is typed in.
#[derive(PartialEq, Eq, Structural, Copy, Clone, Debug)]
pub enum SettingField {
    OutputDir,
    Workers,
    MaxParallel,
    NfsParallel,
    HddParallel,
    SsdParallel,
    LsfEnabled,
    LsfCmd,
    LsfOs,
    LsfMemMb,
    LsfQueue,
}

/// A key.
#[derive(PartialEq, Eq, Structural, Copy, Clone, Debug)]
pub enum KeyCode {
    Char(char),
    Up,
    Down,
    Left,
    Right,
    Enter,
    Esc,
    Tab,
    BackTab,
    Backspace,
    Other,
}

/// A key, and whether the control key was held.
#[derive(PartialEq, Eq, Structural, Copy, Clone, Debug)]
pub struct Key {
    pub code: KeyCode,
    pub ctrl: bool,
}

/// Whether a scan was started from the screen.
#[derive(PartialEq, Eq, Structural, Copy, Clone, Debug)]
pub enum ScanState {
    Idle,
    Running,
    Finished,
}

/// Where everything stands on the screen.
#[derive(PartialEq, Eq, Structural, Copy, Clone, Debug)]
pub struct Cursor {
    pub tab: Tab,
    pub target: usize,
    pub team: usize,
    pub user: usize,
    pub setting: usize,
    pub scansync: usize,
    pub output: OutputView,
    pub snapshot: usize,
    pub detail: usize,
    pub tree: usize,
    pub filtering: bool,
}

/// How much there is to move over.
#[derive(PartialEq, Eq, Structural, Copy, Clone, Debug)]
pub struct Facts {
    pub scan: ScanState,
    /// Whether batch jobs are followed.
    pub lsf: bool,
    pub targets: usize,
    /// The teams of the selected target.
    pub teams: usize,
    /// The users of the selected team that the filter lets through.
    pub users: usize,
    pub snapshots: usize,
    /// The users of the report that the filter lets through.
    pub report_users: usize,
    /// The directories of the treemap that the filter lets through.
    pub children: usize,
}

/// What is said.
#[derive(PartialEq, Eq, Structural, Copy, Clone, Debug)]
pub enum Notice {
    NoTargetSelected,
    SelectTeam,
    AlreadyScanning,
    NoTargetToScan,
    NoTargets,
    NoUserToExport,
}

/// What is asked for.
#[derive(PartialEq, Eq, Structural, Copy, Clone, Debug)]
pub enum Question {
    NewTarget,
    NewTeam,
    AddUsers,
    Target(TargetField),
    Setting(SettingField),
}

/// What a key asks for beyond moving.
#[derive(PartialEq, Eq, Structural, Copy, Clone, Debug)]
pub enum Action {
    Nothing,
    Quit,
    CancelScan,
    LeaveLsf,
    ScanSelected,
    ScanAll,
    Say(Notice),
    /// Say which target is selected now.
    ShowTarget,
    Ask(Question),
    ConfirmDeleteTarget,
    ConfirmDeleteTeam,
    ConfirmDeleteUser,
    CycleTreeMap,
    CycleSyncPass,
    FilterPush(char),
    FilterPop,
    /// Drop the filter.
    FilterClear,
    ExportSelected,
    ExportAll,
    OpenChild,
    LeaveChild,
}

/// What a key does: where the cursor goes, what it asks for, and what is dropped
/// on the way.
#[derive(PartialEq, Eq, Structural, Copy, Clone, Debug)]
pub struct Move {
    pub cursor: Cursor,
    pub action: Action,
    /// The filter goes.
    pub clear_filter: bool,
    /// What was read of reports is read anew.
    pub reload: bool,
    /// The treemap is back at its root.
    pub tree_root: bool,
}

/// The last row on the tab of a target's overrides.
pub const SCANSYNC_LAST: usize = 8;

/// The last row on the settings tab.
pub const SETTINGS_LAST: usize = 10;

// ---------------------------------------------------------------------------
// Tabs and rows
// ---------------------------------------------------------------------------

/// The tab after.
pub open spec fn tab_after(t: Tab) -> Tab {
    match t {
        Tab::Targets => Tab::TeamsUsers,
        Tab::TeamsUsers => Tab::ScanSync,
        Tab::ScanSync => Tab::Output,
        Tab::Output => Tab::Settings,
        Tab::Settings => Tab::Targets,
    }
}

/// The tab after.
pub fn next_tab(t: Tab) -> (r: Tab)
    ensures
        r == tab_after(t),
{
    match t {
        Tab::Targets => Tab::TeamsUsers,
        Tab::TeamsUsers => Tab::ScanSync,
        Tab::ScanSync => Tab::Output,
        Tab::Output => Tab::Settings,
        Tab::Settings => Tab::Targets,
    }
}

/// The tab before.
pub fn prev_tab(t: Tab) -> (r: Tab)
    ensures
        tab_after(r) == t,
{
    match t {
        Tab::Targets => Tab::Settings,
        Tab::TeamsUsers => Tab::Targets,
        Tab::ScanSync => Tab::TeamsUsers,
        Tab::Output => Tab::ScanSync,
        Tab::Settings => Tab::Output,
    }
}

/// The tabs are a ring: no two have the same tab after them, and five steps lead
/// back.
pub proof fn law_tabs_are_a_ring(a: Tab, b: Tab)
    ensures
        tab_after(a) == tab_after(b) ==> a == b,
        tab_after(tab_after(tab_after(tab_after(tab_after(a))))) == a,
{
}

/// The tab before.
pub open spec fn tab_before(t: Tab) -> Tab {
    tab_after(tab_after(tab_after(tab_after(t))))
}

/// The setting of a target on a row, where the row is typed in.
pub open spec fn scansync_field(row: int) -> Option<TargetField> {
    if row == 1 {
        Some(TargetField::Level)
    } else if row == 2 {
        Some(TargetField::Workers)
    } else if row == 3 {
        Some(TargetField::SyncHost)
    } else if row == 4 {
        Some(TargetField::SyncDest)
    } else if row == 5 {
        Some(TargetField::SyncUser)
    } else if row == 6 {
        Some(TargetField::ExportDir)
    } else if row == 7 {
        Some(TargetField::WebhookUrl)
    } else {
        None
    }
}

/// The global setting on a row.
pub open spec fn setting_field(row: int) -> Option<SettingField> {
    if row == 0 {
        Some(SettingField::OutputDir)
    } else if row == 1 {
        Some(SettingField::Workers)
    } else if row == 2 {
        Some(SettingField::MaxParallel)
    } else if row == 3 {
        Some(SettingField::NfsParallel)
    } else if row == 4 {
        Some(SettingField::HddParallel)
    } else if row == 5 {
        Some(SettingField::SsdParallel)
    } else if row == 6 {
        Some(SettingField::LsfEnabled)
    } else if row == 7 {
        Some(SettingField::LsfCmd)
    } else if row == 8 {
        Some(SettingField::LsfOs)
    } else if row == 9 {
        Some(SettingField::LsfMemMb)
    } else if row == 10 {
        Some(SettingField::LsfQueue)
    } else {
        None
    }
}

fn field_of_row(row: usize) -> (r: Option<TargetField>)
    ensures
        r == scansync_field(row as int),
{
    match row {
        1 => Some(TargetField::Level),
        2 => Some(TargetField::Workers),
        3 => Some(TargetField::SyncHost),
        4 => Some(TargetField::SyncDest),
        5 => Some(TargetField::SyncUser),
        6 => Some(TargetField::ExportDir),
        7 => Some(TargetField::WebhookUrl),
        _ => None,
    }
}

fn setting_of_row(row: usize) -> (r: Option<SettingField>)
    ensures
        r == setting_field(row as int),
{
    match row {
        0 => Some(SettingField::OutputDir),
        1 => Some(SettingField::Workers),
        2 => Some(SettingField::MaxParallel),
        3 => Some(SettingField::NfsParallel),
        4 => Some(SettingField::HddParallel),
        5 => Some(SettingField::SsdParallel),
        6 => Some(SettingField::LsfEnabled),
        7 => Some(SettingField::LsfCmd),
        8 => Some(SettingField::LsfOs),
        9 => Some(SettingField::LsfMemMb),
        10 => Some(SettingField::LsfQueue),
        _ => None,
    }
}

// ---------------------------------------------------------------------------
// Moves
// ---------------------------------------------------------------------------

/// Whether a key goes up.
pub open spec fn goes_up(k: KeyCode) -> bool {
    k == KeyCode::Up || k == KeyCode::Char('k')
}

/// Whether a key goes down.
pub open spec fn goes_down(k: KeyCode) -> bool {
    k == KeyCode::Down || k == KeyCode::Char('j')
}

/// Whether a key edits the row.
pub open spec fn edits(k: KeyCode) -> bool {
    k == KeyCode::Enter || k == KeyCode::Char('e')
}

/// The row above, if there is one.
pub open spec fn above(i: usize) -> usize {
    if i > 0 {
        (i - 1) as usize
    } else {
        i
    }
}

/// The row below, if it is among `n`.
pub open spec fn below(i: usize, n: usize) -> usize {
    if i + 1 < n {
        (i + 1) as usize
    } else {
        i
    }
}

/// The cursor stays, and something is asked for.
pub open spec fn stay(c: Cursor, action: Action) -> Move {
    Move { cursor: c, action, clear_filter: false, reload: false, tree_root: false }
}

/// The cursor goes, and nothing is asked for.
pub open spec fn go(c: Cursor) -> Move {
    stay(c, Action::Nothing)
}

/// Another target is selected: its first team and user are.
pub open spec fn with_target(c: Cursor, target: usize) -> Cursor {
    Cursor { target, team: 0, user: 0, ..c }
}

/// Another tab, without the filter.
pub open spec fn with_tab(c: Cursor, tab: Tab) -> Move {
    Move { clear_filter: true, ..go(Cursor { tab, filtering: false, ..c }) }
}

/// The keys of the targets tab.
pub open spec fn on_targets(c: Cursor, k: KeyCode, f: Facts) -> Move {
    let some = c.target < f.targets;
    if goes_up(k) {
        go(
            if c.target > 0 {
                with_target(c, above(c.target))
            } else {
                c
            },
        )
    } else if goes_down(k) {
        go(
            if c.target + 1 < f.targets {
                with_target(c, below(c.target, f.targets))
            } else {
                c
            },
        )
    } else if k == KeyCode::Char('a') {
        stay(c, Action::Ask(Question::NewTarget))
    } else if k == KeyCode::Char('e') && some {
        stay(c, Action::Ask(Question::Target(TargetField::Path)))
    } else if k == KeyCode::Char('s') && some {
        stay(c, Action::Ask(Question::Target(TargetField::EndScan)))
    } else if k == KeyCode::Char('p') && some {
        stay(c, Action::Ask(Question::Target(TargetField::PurgeTime)))
    } else if k == KeyCode::Char('d') && some {
        stay(c, Action::ConfirmDeleteTarget)
    } else if k == KeyCode::Enter {
        go(Cursor { tab: Tab::TeamsUsers, ..c })
    } else {
        go(c)
    }
}

/// The keys while a filter is typed: they are text.
pub open spec fn on_filter(c: Cursor, k: KeyCode) -> Move {
    let first = Cursor {
        user: if c.tab == Tab::TeamsUsers {
            0
        } else {
            c.user
        },
        detail: if c.tab == Tab::Output {
            0
        } else {
            c.detail
        },
        tree: if c.tab == Tab::Output {
            0
        } else {
            c.tree
        },
        ..c
    };
    match k {
        KeyCode::Esc => Move {
            clear_filter: true,
            ..stay(Cursor { filtering: false, ..c }, Action::FilterClear)
        },
        KeyCode::Enter => go(Cursor { filtering: false, ..c }),
        KeyCode::Backspace => Move { reload: true, ..stay(first, Action::FilterPop) },
        KeyCode::Char(x) => Move { reload: true, ..stay(first, Action::FilterPush(x)) },
        _ => go(c),
    }
}

/// The target before or after, as `[` and `]` select it.
pub open spec fn bracket(c: Cursor, k: KeyCode, f: Facts) -> Option<usize> {
    if k == KeyCode::Char('[') && c.target > 0 {
        Some(above(c.target))
    } else if k == KeyCode::Char(']') && c.target + 1 < f.targets {
        Some(below(c.target, f.targets))
    } else {
        None
    }
}

/// The keys of the tab of teams and users.
pub open spec fn on_teams(c: Cursor, k: KeyCode, f: Facts) -> Move {
    if c.target >= f.targets {
        stay(c, Action::Say(Notice::NoTargetSelected))
    } else if c.filtering {
        on_filter(c, k)
    } else if bracket(c, k, f) is Some {
        Move {
            clear_filter: true,
            ..stay(
                Cursor { filtering: false, ..with_target(c, bracket(c, k, f)->0) },
                Action::ShowTarget,
            )
        }
    } else if k == KeyCode::Char('/') {
        go(Cursor { filtering: true, user: 0, ..c })
    } else if goes_up(k) && c.team > 0 {
        Move {
            clear_filter: true,
            ..go(Cursor { team: above(c.team), user: 0, filtering: false, ..c })
        }
    } else if goes_down(k) && c.team + 1 < f.teams {
        Move {
            clear_filter: true,
            ..go(Cursor { team: below(c.team, f.teams), user: 0, filtering: false, ..c })
        }
    } else if k == KeyCode::Left {
        go(Cursor { user: above(c.user), ..c })
    } else if k == KeyCode::Right {
        go(Cursor { user: below(c.user, f.users), ..c })
    } else if k == KeyCode::Char('a') {
        stay(c, Action::Ask(Question::NewTeam))
    } else if k == KeyCode::Char('d') && c.team < f.teams {
        stay(c, Action::ConfirmDeleteTeam)
    } else if k == KeyCode::Char('u') {
        stay(
            c,
            if c.team < f.teams {
                Action::Ask(Question::AddUsers)
            } else {
                Action::Say(Notice::SelectTeam)
            },
        )
    } else if k == KeyCode::Char('x') && c.user < f.users {
        stay(c, Action::ConfirmDeleteUser)
    } else {
        go(c)
    }
}

/// The keys of the tab of a target's overrides.
pub open spec fn on_scansync(c: Cursor, k: KeyCode, f: Facts) -> Move {
    if c.target >= f.targets {
        stay(c, Action::Say(Notice::NoTargetSelected))
    } else if bracket(c, k, f) is Some {
        stay(with_target(c, bracket(c, k, f)->0), Action::ShowTarget)
    } else if goes_up(k) {
        go(Cursor { scansync: above(c.scansync), ..c })
    } else if goes_down(k) {
        go(Cursor { scansync: below(c.scansync, (SCANSYNC_LAST + 1) as usize), ..c })
    } else if edits(k) {
        stay(
            c,
            if c.scansync == 0 {
                Action::CycleTreeMap
            } else if c.scansync == 8 {
                Action::CycleSyncPass
            } else if scansync_field(c.scansync as int) is Some {
                Action::Ask(Question::Target(scansync_field(c.scansync as int)->0))
            } else {
                Action::Nothing
            },
        )
    } else {
        go(c)
    }
}

/// The keys of the settings tab.
pub open spec fn on_settings(c: Cursor, k: KeyCode) -> Move {
    if goes_up(k) {
        go(Cursor { setting: above(c.setting), ..c })
    } else if goes_down(k) {
        go(Cursor { setting: below(c.setting, (SETTINGS_LAST + 1) as usize), ..c })
    } else if edits(k) && setting_field(c.setting as int) is Some {
        stay(c, Action::Ask(Question::Setting(setting_field(c.setting as int)->0)))
    } else {
        go(c)
    }
}

/// The view of the output tab that a key selects.
pub open spec fn view_key(k: KeyCode) -> Option<OutputView> {
    match k {
        KeyCode::Char(x) => if x == 'h' {
            Some(OutputView::History)
        } else if x == 'd' {
            Some(OutputView::Detail)
        } else if x == 'p' {
            Some(OutputView::Permission)
        } else if x == 'i' {
            Some(OutputView::Inode)
        } else if x == 't' {
            Some(OutputView::Treemap)
        } else {
            None
        },
        _ => None,
    }
}

/// Another view of the output tab: from its first row, without the filter.
pub open spec fn with_view(c: Cursor, v: OutputView) -> Move {
    Move {
        cursor: Cursor {
            output: v,
            filtering: false,
            snapshot: if v == OutputView::History {
                0
            } else {
                c.snapshot
            },
            detail: if v == OutputView::Detail || v == OutputView::Permission || v
                == OutputView::Inode {
                0
            } else {
                c.detail
            },
            tree: if v == OutputView::Treemap {
                0
            } else {
                c.tree
            },
            ..c
        },
        action: Action::Nothing,
        clear_filter: true,
        reload: true,
        tree_root: v == OutputView::Treemap,
    }
}

/// The keys of the output tab in one of the views that list users.
pub open spec fn on_user_list(c: Cursor, k: KeyCode, f: Facts) -> Move {
    if k == KeyCode::Char('/') {
        go(Cursor { filtering: true, detail: 0, ..c })
    } else if goes_up(k) {
        go(Cursor { detail: above(c.detail), ..c })
    } else if goes_down(k) {
        go(Cursor { detail: below(c.detail, f.report_users), ..c })
    } else if k == KeyCode::Char('x') && c.output == OutputView::Detail {
        stay(
            c,
            if c.detail < f.report_users {
                Action::ExportSelected
            } else {
                Action::Say(Notice::NoUserToExport)
            },
        )
    } else if k == KeyCode::Char('X') && c.output == OutputView::Detail {
        stay(c, Action::ExportAll)
    } else {
        go(c)
    }
}

/// The keys of the output tab in the treemap.
pub open spec fn on_tree(c: Cursor, k: KeyCode, f: Facts) -> Move {
    if k == KeyCode::Char('/') {
        go(Cursor { filtering: true, tree: 0, ..c })
    } else if goes_up(k) {
        go(Cursor { tree: above(c.tree), ..c })
    } else if goes_down(k) {
        go(Cursor { tree: below(c.tree, f.children), ..c })
    } else if (k == KeyCode::Enter || k == KeyCode::Right) && c.tree < f.children {
        stay(c, Action::OpenChild)
    } else if k == KeyCode::Backspace || k == KeyCode::Left {
        stay(c, Action::LeaveChild)
    } else {
        go(c)
    }
}

/// The keys of the output tab.
pub open spec fn on_output(c: Cursor, k: KeyCode, f: Facts) -> Move {
    if c.filtering {
        on_filter(c, k)
    } else if k == KeyCode::Char('[') || k == KeyCode::Char(']') {
        match bracket(c, k, f) {
            Some(t) => Move {
                cursor: Cursor {
                    snapshot: 0,
                    detail: 0,
                    tree: 0,
                    filtering: false,
                    ..with_target(c, t)
                },
                action: Action::ShowTarget,
                clear_filter: true,
                reload: true,
                tree_root: true,
            },
            None => go(c),
        }
    } else if view_key(k) is Some {
        with_view(c, view_key(k)->0)
    } else {
        match c.output {
            OutputView::History => if goes_up(k) {
                go(Cursor { snapshot: above(c.snapshot), ..c })
            } else if goes_down(k) {
                go(Cursor { snapshot: below(c.snapshot, f.snapshots), ..c })
            } else {
                go(c)
            },
            OutputView::Treemap => on_tree(c, k, f),
            _ => on_user_list(c, k, f),
        }
    }
}

/// The keys of the selected tab.
pub open spec fn on_tab(c: Cursor, k: KeyCode, f: Facts) -> Move {
    match c.tab {
        Tab::Targets => on_targets(c, k, f),
        Tab::TeamsUsers => on_teams(c, k, f),
        Tab::ScanSync => on_scansync(c, k, f),
        Tab::Output => on_output(c, k, f),
        Tab::Settings => on_settings(c, k),
    }
}

/// What a key does. While a filter is typed every key is the filter's; else the
/// keys that work everywhere come first.
pub open spec fn on_key(c: Cursor, key: Key, f: Facts) -> Move {
    let k = key.code;
    if c.filtering {
        if c.tab == Tab::TeamsUsers || c.tab == Tab::Output {
            on_tab(c, k, f)
        } else {
            go(Cursor { filtering: false, ..c })
        }
    } else if k == KeyCode::Char('q') || k == KeyCode::Esc {
        stay(
            c,
            if f.scan == ScanState::Running {
                Action::CancelScan
            } else if f.lsf {
                Action::LeaveLsf
            } else {
                Action::Quit
            },
        )
    } else if k == KeyCode::Char('c') && key.ctrl {
        stay(c, Action::Quit)
    } else if k == KeyCode::Tab || k == KeyCode::Char('\t') {
        with_tab(c, tab_after(c.tab))
    } else if k == KeyCode::BackTab {
        with_tab(c, tab_before(c.tab))
    } else if k == KeyCode::Char('1') {
        with_tab(c, Tab::Targets)
    } else if k == KeyCode::Char('2') {
        with_tab(c, Tab::TeamsUsers)
    } else if k == KeyCode::Char('3') {
        with_tab(c, Tab::ScanSync)
    } else if k == KeyCode::Char('4') {
        with_tab(c, Tab::Output)
    } else if k == KeyCode::Char('5') {
        with_tab(c, Tab::Settings)
    } else if k == KeyCode::Char('r') {
        stay(
            c,
            if f.scan != ScanState::Idle {
                Action::Say(Notice::AlreadyScanning)
            } else if c.target < f.targets {
                Action::ScanSelected
            } else {
                Action::Say(Notice::NoTargetToScan)
            },
        )
    } else if k == KeyCode::Char('R') {
        stay(
            c,
            if f.scan != ScanState::Idle {
                Action::Say(Notice::AlreadyScanning)
            } else if f.targets == 0 {
                Action::Say(Notice::NoTargets)
            } else {
                Action::ScanAll
            },
        )
    } else {
        on_tab(c, k, f)
    }
}

fn up(k: KeyCode) -> (r: bool)
    ensures
        r == goes_up(k),
{
    matches!(k, KeyCode::Up | KeyCode::Char('k'))
}

fn down(k: KeyCode) -> (r: bool)
    ensures
        r == goes_down(k),
{
    matches!(k, KeyCode::Down | KeyCode::Char('j'))
}

fn edit(k: KeyCode) -> (r: bool)
    ensures
        r == edits(k),
{
    matches!(k, KeyCode::Enter | KeyCode::Char('e'))
}

fn is_char(k: KeyCode, c: char) -> (r: bool)
    ensures
        r == (k == KeyCode::Char(c)),
{
    match k {
        KeyCode::Char(x) => x == c,
        _ => false,
    }
}

fn row_above(i: usize) -> (r: usize)
    ensures
        r == above(i),
{
    if i > 0 {
        i - 1
    } else {
        i
    }
}

fn row_below(i: usize, n: usize) -> (r: usize)
    ensures
        r == below(i, n),
{
    if i < n && n - i > 1 {
        i + 1
    } else {
        i
    }
}

fn asks(c: Cursor, action: Action) -> (r: Move)
    ensures
        r == stay(c, action),
{
    Move { cursor: c, action, clear_filter: false, reload: false, tree_root: false }
}

fn goes(c: Cursor) -> (r: Move)
    ensures
        r == go(c),
{
    asks(c, Action::Nothing)
}

fn to_tab(c: Cursor, tab: Tab) -> (r: Move)
    ensures
        r == with_tab(c, tab),
{
    Move {
        cursor: Cursor { tab, filtering: false, ..c },
        action: Action::Nothing,
        clear_filter: true,
        reload: false,
        tree_root: false,
    }
}

fn to_target(c: Cursor, target: usize) -> (r: Cursor)
    ensures
        r == with_target(c, target),
{
    Cursor { target, team: 0, user: 0, ..c }
}

/// The keys of the targets tab.
pub fn browse_targets(c: Cursor, k: KeyCode, f: Facts) -> (r: Move)
    ensures
        r == on_targets(c, k, f),
{
    let some = c.target < f.targets;
    if up(k) {
        if c.target > 0 {
            goes(to_target(c, row_above(c.target)))
        } else {
            goes(c)
        }
    } else if down(k) {
        if c.target < f.targets && f.targets - c.target > 1 {
            goes(to_target(c, row_below(c.target, f.targets)))
        } else {
            goes(c)
        }
    } else if is_char(k, 'a') {
        asks(c, Action::Ask(Question::NewTarget))
    } else if is_char(k, 'e') && some {
        asks(c, Action::Ask(Question::Target(TargetField::Path)))
    } else if is_char(k, 's') && some {
        asks(c, Action::Ask(Question::Target(TargetField::EndScan)))
    } else if is_char(k, 'p') && some {
        asks(c, Action::Ask(Question::Target(TargetField::PurgeTime)))
    } else if is_char(k, 'd') && some {
        asks(c, Action::ConfirmDeleteTarget)
    } else if k == KeyCode::Enter {
        goes(Cursor { tab: Tab::TeamsUsers, ..c })
    } else {
        goes(c)
    }
}

fn browse_filter(c: Cursor, k: KeyCode) -> (r: Move)
    ensures
        r == on_filter(c, k),
{
    let first = Cursor {
        user: if c.tab == Tab::TeamsUsers {
            0
        } else {
            c.user
        },
        detail: if c.tab == Tab::Output {
            0
        } else {
            c.detail
        },
        tree: if c.tab == Tab::Output {
            0
        } else {
            c.tree
        },
        ..c
    };
    match k {
        KeyCode::Esc => Move {
            cursor: Cursor { filtering: false, ..c },
            action: Action::FilterClear,
            clear_filter: true,
            reload: false,
            tree_root: false,
        },
        KeyCode::Enter => goes(Cursor { filtering: false, ..c }),
        KeyCode::Backspace => Move {
            cursor: first,
            action: Action::FilterPop,
            clear_filter: false,
            reload: true,
            tree_root: false,
        },
        KeyCode::Char(x) => Move {
            cursor: first,
            action: Action::FilterPush(x),
            clear_filter: false,
            reload: true,
            tree_root: false,
        },
        _ => goes(c),
    }
}

fn bracketed(c: Cursor, k: KeyCode, f: Facts) -> (r: Option<usize>)
    ensures
        r == bracket(c, k, f),
{
    if is_char(k, '[') && c.target > 0 {
        Some(row_above(c.target))
    } else if is_char(k, ']') && c.target < f.targets && f.targets - c.target > 1 {
        Some(row_below(c.target, f.targets))
    } else {
        None
    }
}

/// The keys of the tab of teams and users.
pub fn browse_teams_users(c: Cursor, k: KeyCode, f: Facts) -> (r: Move)
    ensures
        r == on_teams(c, k, f),
{
    if c.target >= f.targets {
        return asks(c, Action::Say(Notice::NoTargetSelected));
    }
    if c.filtering {
        return browse_filter(c, k);
    }
    match bracketed(c, k, f) {
        Some(t) => {
            return Move {
                cursor: Cursor { filtering: false, ..to_target(c, t) },
                action: Action::ShowTarget,
                clear_filter: true,
                reload: false,
                tree_root: false,
            };
        },
        None => {},
    }
    if is_char(k, '/') {
        goes(Cursor { filtering: true, user: 0, ..c })
    } else if up(k) && c.team > 0 {
        Move {
            cursor: Cursor { team: row_above(c.team), user: 0, filtering: false, ..c },
            action: Action::Nothing,
            clear_filter: true,
            reload: false,
            tree_root: false,
        }
    } else if down(k) && c.team < f.teams && f.teams - c.team > 1 {
        Move {
            cursor: Cursor { team: row_below(c.team, f.teams), user: 0, filtering: false, ..c },
            action: Action::Nothing,
            clear_filter: true,
            reload: false,
            tree_root: false,
        }
    } else if k == KeyCode::Left {
        goes(Cursor { user: row_above(c.user), ..c })
    } else if k == KeyCode::Right {
        goes(Cursor { user: row_below(c.user, f.users), ..c })
    } else if is_char(k, 'a') {
        asks(c, Action::Ask(Question::NewTeam))
    } else if is_char(k, 'd') && c.team < f.teams {
        asks(c, Action::ConfirmDeleteTeam)
    } else if is_char(k, 'u') {
        if c.team < f.teams {
            asks(c, Action::Ask(Question::AddUsers))
        } else {
            asks(c, Action::Say(Notice::SelectTeam))
        }
    } else if is_char(k, 'x') && c.user < f.users {
        asks(c, Action::ConfirmDeleteUser)
    } else {
        goes(c)
    }
}

/// The keys of the tab of a target's overrides.
pub fn browse_scansync(c: Cursor, k: KeyCode, f: Facts) -> (r: Move)
    ensures
        r == on_scansync(c, k, f),
{
    if c.target >= f.targets {
        return asks(c, Action::Say(Notice::NoTargetSelected));
    }
    match bracketed(c, k, f) {
        Some(t) => {
            return asks(to_target(c, t), Action::ShowTarget);
        },
        None => {},
    }
    if up(k) {
        goes(Cursor { scansync: row_above(c.scansync), ..c })
    } else if down(k) {
        goes(Cursor { scansync: row_below(c.scansync, SCANSYNC_LAST + 1), ..c })
    } else if edit(k) {
        if c.scansync == 0 {
            asks(c, Action::CycleTreeMap)
        } else if c.scansync == 8 {
            asks(c, Action::CycleSyncPass)
        } else {
            match field_of_row(c.scansync) {
                Some(t) => asks(c, Action::Ask(Question::Target(t))),
                None => goes(c),
            }
        }
    } else {
        goes(c)
    }
}

/// The keys of the settings tab.
pub fn browse_settings(c: Cursor, k: KeyCode) -> (r: Move)
    ensures
        r == on_settings(c, k),
{
    if up(k) {
        goes(Cursor { setting: row_above(c.setting), ..c })
    } else if down(k) {
        goes(Cursor { setting: row_below(c.setting, SETTINGS_LAST + 1), ..c })
    } else if edit(k) {
        match setting_of_row(c.setting) {
            Some(s) => asks(c, Action::Ask(Question::Setting(s))),
            None => goes(c),
        }
    } else {
        goes(c)
    }
}

fn view_of_key(k: KeyCode) -> (r: Option<OutputView>)
    ensures
        r == view_key(k),
{
    match k {
        KeyCode::Char(x) => if x == 'h' {
            Some(OutputView::History)
        } else if x == 'd' {
            Some(OutputView::Detail)
        } else if x == 'p' {
            Some(OutputView::Permission)
        } else if x == 'i' {
            Some(OutputView::Inode)
        } else if x == 't' {
            Some(OutputView::Treemap)
        } else {
            None
        },
        _ => None,
    }
}

fn to_view(c: Cursor, v: OutputView) -> (r: Move)
    ensures
        r == with_view(c, v),
{
    let lists = v == OutputView::Detail || v == OutputView::Permission || v == OutputView::Inode;
    Move {
        cursor: Cursor {
            output: v,
            filtering: false,
            snapshot: if v == OutputView::History {
                0
            } else {
                c.snapshot
            },
            detail: if lists {
                0
            } else {
                c.detail
            },
            tree: if v == OutputView::Treemap {
                0
            } else {
                c.tree
            },
            ..c
        },
        action: Action::Nothing,
        clear_filter: true,
        reload: true,
        tree_root: v == OutputView::Treemap,
    }
}

fn browse_user_list(c: Cursor, k: KeyCode, f: Facts) -> (r: Move)
    ensures
        r == on_user_list(c, k, f),
{
    if is_char(k, '/') {
        goes(Cursor { filtering: true, detail: 0, ..c })
    } else if up(k) {
        goes(Cursor { detail: row_above(c.detail), ..c })
    } else if down(k) {
        goes(Cursor { detail: row_below(c.detail, f.report_users), ..c })
    } else if is_char(k, 'x') && c.output == OutputView::Detail {
        if c.detail < f.report_users {
            asks(c, Action::ExportSelected)
        } else {
            asks(c, Action::Say(Notice::NoUserToExport))
        }
    } else if is_char(k, 'X') && c.output == OutputView::Detail {
        asks(c, Action::ExportAll)
    } else {
        goes(c)
    }
}

fn browse_tree(c: Cursor, k: KeyCode, f: Facts) -> (r: Move)
    ensures
        r == on_tree(c, k, f),
{
    if is_char(k, '/') {
        goes(Cursor { filtering: true, tree: 0, ..c })
    } else if up(k) {
        goes(Cursor { tree: row_above(c.tree), ..c })
    } else if down(k) {
        goes(Cursor { tree: row_below(c.tree, f.children), ..c })
    } else if (k == KeyCode::Enter || k == KeyCode::Right) && c.tree < f.children {
        asks(c, Action::OpenChild)
    } else if k == KeyCode::Backspace || k == KeyCode::Left {
        asks(c, Action::LeaveChild)
    } else {
        goes(c)
    }
}

/// The keys of the output tab.
pub fn browse_output(c: Cursor, k: KeyCode, f: Facts) -> (r: Move)
    ensures
        r == on_output(c, k, f),
{
    if c.filtering {
        return browse_filter(c, k);
    }
    if is_char(k, '[') || is_char(k, ']') {
        return match bracketed(c, k, f) {
            Some(t) => Move {
                cursor: Cursor {
                    snapshot: 0,
                    detail: 0,
                    tree: 0,
                    filtering: false,
                    ..to_target(c, t)
                },
                action: Action::ShowTarget,
                clear_filter: true,
                reload: true,
                tree_root: true,
            },
            None => goes(c),
        };
    }
    match view_of_key(k) {
        Some(v) => {
            return to_view(c, v);
        },
        None => {},
    }
    match c.output {
        OutputView::History => if up(k) {
            goes(Cursor { snapshot: row_above(c.snapshot), ..c })
        } else if down(k) {
            goes(Cursor { snapshot: row_below(c.snapshot, f.snapshots), ..c })
        } else {
            goes(c)
        },
        OutputView::Treemap => browse_tree(c, k, f),
        _ => browse_user_list(c, k, f),
    }
}

fn browse_tab(c: Cursor, k: KeyCode, f: Facts) -> (r: Move)
    ensures
        r == on_tab(c, k, f),
{
    match c.tab {
        Tab::Targets => browse_targets(c, k, f),
        Tab::TeamsUsers => browse_teams_users(c, k, f),
        Tab::ScanSync => browse_scansync(c, k, f),
        Tab::Output => browse_output(c, k, f),
        Tab::Settings => browse_settings(c, k),
    }
}

/// What a key does while nothing is typed in or confirmed.
pub fn handle_browse_key(c: Cursor, key: Key, f: Facts) -> (r: Move)
    ensures
        r == on_key(c, key, f),
{
    let k = key.code;
    if c.filtering {
        if c.tab == Tab::TeamsUsers || c.tab == Tab::Output {
            browse_tab(c, k, f)
        } else {
            goes(Cursor { filtering: false, ..c })
        }
    } else if is_char(k, 'q') || k == KeyCode::Esc {
        if f.scan == ScanState::Running {
            asks(c, Action::CancelScan)
        } else if f.lsf {
            asks(c, Action::LeaveLsf)
        } else {
            asks(c, Action::Quit)
        }
    } else if is_char(k, 'c') && key.ctrl {
        asks(c, Action::Quit)
    } else if k == KeyCode::Tab || is_char(k, '\t') {
        to_tab(c, next_tab(c.tab))
    } else if k == KeyCode::BackTab {
        let t = prev_tab(c.tab);
        proof {
            law_tabs_are_a_ring(t, tab_before(c.tab));
            law_tabs_are_a_ring(c.tab, c.tab);
        }
        to_tab(c, t)
    } else if is_char(k, '1') {
        to_tab(c, Tab::Targets)
    } else if is_char(k, '2') {
        to_tab(c, Tab::TeamsUsers)
    } else if is_char(k, '3') {
        to_tab(c, Tab::ScanSync)
    } else if is_char(k, '4') {
        to_tab(c, Tab::Output)
    } else if is_char(k, '5') {
        to_tab(c, Tab::Settings)
    } else if is_char(k, 'r') {
        if f.scan != ScanState::Idle {
            asks(c, Action::Say(Notice::AlreadyScanning))
        } else if c.target < f.targets {
            asks(c, Action::ScanSelected)
        } else {
            asks(c, Action::Say(Notice::NoTargetToScan))
        }
    } else if is_char(k, 'R') {
        if f.scan != ScanState::Idle {
            asks(c, Action::Say(Notice::AlreadyScanning))
        } else if f.targets == 0 {
            asks(c, Action::Say(Notice::NoTargets))
        } else {
            asks(c, Action::ScanAll)
        }
    } else {
        browse_tab(c, k, f)
    }
}

// ---------------------------------------------------------------------------
// Laws
// ---------------------------------------------------------------------------

/// A row is among `n`, or is the first where there is none.
pub open spec fn in_rows(i: usize, n: usize) -> bool {
    i < n || i == 0
}

/// Every part of the cursor is on a row that is there.
pub open spec fn in_range(c: Cursor, f: Facts) -> bool {
    &&& in_rows(c.target, f.targets)
    &&& in_rows(c.team, f.teams)
    &&& in_rows(c.user, f.users)
    &&& c.setting <= SETTINGS_LAST
    &&& c.scansync <= SCANSYNC_LAST
    &&& in_rows(c.snapshot, f.snapshots)
    &&& in_rows(c.detail, f.report_users)
    &&& in_rows(c.tree, f.children)
}

/// No key takes the cursor off the rows that are there. Where another target or
/// team is selected, the cursor is on the first of what belongs to it.
pub proof fn law_cursor_stays_in_range(c: Cursor, key: Key, f: Facts)
    requires
        in_range(c, f),
    ensures
        ({
            let n = on_key(c, key, f).cursor;
            &&& in_rows(n.target, f.targets)
            &&& n.setting <= SETTINGS_LAST
            &&& n.scansync <= SCANSYNC_LAST
            &&& n.target == c.target ==> in_range(n, f)
            &&& n.target != c.target ==> n.team == 0 && n.user == 0
        }),
{
}

/// While a filter is typed no key quits, scans, or leaves the tab.
pub proof fn law_filter_keys_are_text(c: Cursor, key: Key, f: Facts)
    requires
        c.filtering,
    ensures
        ({
            let m = on_key(c, key, f);
            &&& m.cursor.tab == c.tab
            &&& m.cursor.target == c.target
            &&& m.action == Action::Nothing || m.action == Action::FilterPop || m.action
                == Action::FilterClear || m.action is FilterPush || m.action == Action::Say(
                Notice::NoTargetSelected,
            )
        }),
{
}

/// A scan is started only while none is there.
pub proof fn law_one_scan_at_a_time(c: Cursor, key: Key, f: Facts)
    ensures
        f.scan != ScanState::Idle ==> on_key(c, key, f).action != Action::ScanSelected && on_key(
            c,
            key,
            f,
        ).action != Action::ScanAll,
        f.scan == ScanState::Running && !key.ctrl ==> on_key(c, key, f).action != Action::Quit,
{
}

/// A step down and a step up again lead back to the row, in every list, unless the row
/// was the last; and no step leaves the list.
pub proof fn law_steps_undo_each_other(i: usize, n: usize)
    requires
        i < n,
    ensures
        i + 1 < n ==> below(i, n) == i + 1 && above(below(i, n)) == i,
        i + 1 == n ==> below(i, n) == i,
        i > 0 ==> above(i) == i - 1 && below(above(i), n) == i,
        i == 0 ==> above(i) == 0,
{
}

/// The arrows and `j` and `k` move the row of the list that is shown and ask for nothing.
pub proof fn law_arrows_move_the_shown_list(c: Cursor, f: Facts, down: bool)
    requires
        !c.filtering,
    ensures
        ({
            let k = if down {
                KeyCode::Down
            } else {
                KeyCode::Up
            };
            let j = if down {
                KeyCode::Char('j')
            } else {
                KeyCode::Char('k')
            };
            let step = |i: usize, n: usize|
                if down {
                    below(i, n)
                } else {
                    above(i)
                };
            let m = on_tab(c, k, f);
            &&& on_tab(c, j, f) == m
            &&& c.tab == Tab::Targets ==> m.cursor.target == step(c.target, f.targets)
                && m.action == Action::Nothing && m.cursor.tab == c.tab
            &&& c.tab == Tab::TeamsUsers && c.target < f.targets ==> m.cursor.team == step(
                c.team,
                f.teams,
            ) && m.cursor.target == c.target && m.action == Action::Nothing
            &&& c.tab == Tab::Settings ==> m.cursor == (Cursor {
                setting: step(c.setting, 11),
                ..c
            }) && m.action == Action::Nothing
            &&& c.tab == Tab::ScanSync && c.target < f.targets ==> m.cursor == (Cursor {
                scansync: step(c.scansync, 9),
                ..c
            }) && m.action == Action::Nothing
            &&& c.tab == Tab::Output && c.output == OutputView::History ==> m.cursor == (Cursor {
                snapshot: step(c.snapshot, f.snapshots),
                ..c
            }) && m.action == Action::Nothing
            &&& c.tab == Tab::Output && c.output == OutputView::Treemap ==> m.cursor == (Cursor {
                tree: step(c.tree, f.children),
                ..c
            }) && m.action == Action::Nothing
            &&& c.tab == Tab::Output && c.output != OutputView::History && c.output
                != OutputView::Treemap ==> m.cursor == (Cursor {
                detail: step(c.detail, f.report_users),
                ..c
            }) && m.action == Action::Nothing
        }),
{
}

/// The number keys select the tabs in their order, `r` scans the selected target and `R`
/// all of them where no scan runs, and `q` leaves, or stops a scan that runs.
pub proof fn law_keys_that_work_everywhere(c: Cursor, f: Facts)
    requires
        !c.filtering,
    ensures
        on_key(c, Key { code: KeyCode::Char('1'), ctrl: false }, f).cursor.tab == Tab::Targets,
        on_key(c, Key { code: KeyCode::Char('2'), ctrl: false }, f).cursor.tab == Tab::TeamsUsers,
        on_key(c, Key { code: KeyCode::Char('3'), ctrl: false }, f).cursor.tab == Tab::ScanSync,
        on_key(c, Key { code: KeyCode::Char('4'), ctrl: false }, f).cursor.tab == Tab::Output,
        on_key(c, Key { code: KeyCode::Char('5'), ctrl: false }, f).cursor.tab == Tab::Settings,
        f.scan == ScanState::Idle && c.target < f.targets ==> on_key(
            c,
            Key { code: KeyCode::Char('r'), ctrl: false },
            f,
        ).action == Action::ScanSelected,
        f.scan == ScanState::Idle && f.targets > 0 ==> on_key(
            c,
            Key { code: KeyCode::Char('R'), ctrl: false },
            f,
        ).action == Action::ScanAll,
        f.scan == ScanState::Running ==> on_key(
            c,
            Key { code: KeyCode::Char('q'), ctrl: false },
            f,
        ).action == Action::CancelScan,
        f.scan != ScanState::Running && !f.lsf ==> on_key(
            c,
            Key { code: KeyCode::Char('q'), ctrl: false },
            f,
        ).action == Action::Quit,
        on_key(c, Key { code: KeyCode::Char('c'), ctrl: true }, f).action == Action::Quit,
{
}

/// What the keys of a list ask for: a new entry, a change or the removal of the entry
/// that is selected, and nothing where none is.
pub proof fn law_keys_of_the_lists(c: Cursor, f: Facts)
    ensures
        on_targets(c, KeyCode::Char('a'), f).action == Action::Ask(Question::NewTarget),
        on_targets(c, KeyCode::Char('d'), f).action == (if c.target < f.targets {
            Action::ConfirmDeleteTarget
        } else {
            Action::Nothing
        }),
        c.target < f.targets ==> {
            &&& on_targets(c, KeyCode::Char('e'), f).action == Action::Ask(
                Question::Target(TargetField::Path),
            )
            &&& on_targets(c, KeyCode::Char('s'), f).action == Action::Ask(
                Question::Target(TargetField::EndScan),
            )
            &&& on_targets(c, KeyCode::Char('p'), f).action == Action::Ask(
                Question::Target(TargetField::PurgeTime),
            )
        },
        c.target < f.targets && !c.filtering ==> {
            &&& on_teams(c, KeyCode::Char('a'), f).action == Action::Ask(Question::NewTeam)
            &&& c.team < f.teams ==> on_teams(c, KeyCode::Char('d'), f).action
                == Action::ConfirmDeleteTeam
            &&& c.team < f.teams ==> on_teams(c, KeyCode::Char('u'), f).action == Action::Ask(
                Question::AddUsers,
            )
            &&& c.user < f.users ==> on_teams(c, KeyCode::Char('x'), f).action
                == Action::ConfirmDeleteUser
        },
{
}

} // verus!
