//! The configuration: global settings and targets with their teams and users,
//! the shape of a target's file, and the changes that commands make.

use crate::interner::Interner;
use crate::interner;
use crate::paths;
use crate::text;
use vstd::prelude::*;

verus! {

/// A directory tree to scan, with its teams, users and overrides.
#[derive(Clone, Debug)]
pub struct Target {
    pub name: String,
    pub path: String,
    pub teams: Vec<Team>,
    pub users: Vec<User>,
    pub end_scan: Option<String>,
    pub purge_time: Option<i64>,
    pub tree_map: Option<bool>,
    pub level: Option<i64>,
    pub workers: Option<i64>,
    pub sync_host: Option<String>,
    pub sync_dest_dir: Option<String>,
    pub sync_user: Option<String>,
    pub export_dir: Option<String>,
    pub webhook_url: Option<String>,
    pub sync_pass: Option<bool>,
}

/// A team of a target.
#[derive(Clone, Debug)]
pub struct Team {
    pub name: String,
    pub team_id: i64,
}

/// A user of a target, on the team with this id.
#[derive(Clone, Debug)]
pub struct User {
    pub name: String,
    pub team_id: i64,
}

/// A team and its members, as commands declare it.
#[derive(Clone, Debug)]
pub struct TeamSpec {
    pub name: String,
    pub users: Vec<String>,
}

/// A whole target, as commands declare it.
#[derive(Clone, Debug)]
pub struct TargetSpec {
    pub name: String,
    pub path: String,
    pub teams: Vec<TeamSpec>,
    pub end_scan: Option<String>,
    pub purge_time: Option<i64>,
}

/// The global settings, as the settings file holds them.
#[derive(Clone, Debug)]
pub struct Globals {
    pub output_dir: String,
    pub workers: String,
    pub max_parallel_devices: i64,
    pub nfs_parallel: i64,
    pub hdd_parallel: i64,
    pub ssd_parallel: i64,
    pub lsf: LsfConfig,
}

/// The settings for submitting a scan as a batch job. What is empty or 0 is left
/// out of the command line.
#[derive(Clone, Debug)]
pub struct LsfConfig {
    pub enabled: bool,
    pub cmd: String,
    pub os: String,
    pub mem_mb: i64,
    pub queue: String,
    pub extra_args: Vec<String>,
}

/// A target, as its own file holds it: teams carry their members, and ids are
/// never written.
#[derive(Clone, Debug)]
pub struct TargetFile {
    pub name: String,
    pub path: String,
    pub teams: Vec<TeamFile>,
    pub end_scan: Option<String>,
    pub purge_time: Option<i64>,
    pub tree_map: Option<bool>,
    pub level: Option<i64>,
    pub workers: Option<i64>,
    pub sync_host: Option<String>,
    pub sync_dest_dir: Option<String>,
    pub sync_user: Option<String>,
    pub export_dir: Option<String>,
    pub webhook_url: Option<String>,
    pub sync_pass: Option<bool>,
}

/// A team and its members, as a target's file holds it.
#[derive(Clone, Debug)]
pub struct TeamFile {
    pub name: String,
    pub users: Vec<String>,
}

/// What saving a configuration writes and removes.
#[derive(Clone, Debug)]
pub struct SavePlan {
    pub globals: Globals,
    /// The files of the targets, each under its stem.
    pub files: Vec<(String, TargetFile)>,
    /// The stems of the files that belong to no target.
    pub orphans: Vec<String>,
}

/// The configuration in memory.
#[derive(Clone, Debug)]
pub struct Config {
    pub output_dir: String,
    pub workers: String,
    pub max_parallel_devices: i64,
    pub nfs_parallel: i64,
    pub hdd_parallel: i64,
    pub ssd_parallel: i64,
    pub lsf: LsfConfig,
    pub targets: Vec<Target>,
}

// ---------------------------------------------------------------------------
// Models
// ---------------------------------------------------------------------------

#[verifier::ext_equal]
pub struct TeamModel {
    pub name: Seq<char>,
    pub team_id: i64,
}

#[verifier::ext_equal]
pub struct UserModel {
    pub name: Seq<char>,
    pub team_id: i64,
}

/// A declared team: its name and its members.
#[verifier::ext_equal]
pub struct MembersModel {
    pub name: Seq<char>,
    pub users: Seq<Seq<char>>,
}

/// The overrides of a target that no command declares.
#[verifier::ext_equal]
pub struct OverridesModel {
    pub tree_map: Option<bool>,
    pub level: Option<i64>,
    pub workers: Option<i64>,
    pub sync_host: Option<Seq<char>>,
    pub sync_dest_dir: Option<Seq<char>>,
    pub sync_user: Option<Seq<char>>,
    pub export_dir: Option<Seq<char>>,
    pub webhook_url: Option<Seq<char>>,
    pub sync_pass: Option<bool>,
}

#[verifier::ext_equal]
pub struct TargetModel {
    pub name: Seq<char>,
    pub path: Seq<char>,
    pub teams: Seq<TeamModel>,
    pub users: Seq<UserModel>,
    pub end_scan: Option<Seq<char>>,
    pub purge_time: Option<i64>,
    pub overrides: OverridesModel,
}

#[verifier::ext_equal]
pub struct TargetFileModel {
    pub name: Seq<char>,
    pub path: Seq<char>,
    pub teams: Seq<MembersModel>,
    pub end_scan: Option<Seq<char>>,
    pub purge_time: Option<i64>,
    pub overrides: OverridesModel,
}

#[verifier::ext_equal]
pub struct TargetSpecModel {
    pub name: Seq<char>,
    pub path: Seq<char>,
    pub teams: Seq<MembersModel>,
    pub end_scan: Option<Seq<char>>,
    pub purge_time: Option<i64>,
}

/// The settings for batch jobs.
#[verifier::ext_equal]
pub struct LsfModel {
    pub enabled: bool,
    pub cmd: Seq<char>,
    pub os: Seq<char>,
    pub mem_mb: i64,
    pub queue: Seq<char>,
    pub extra_args: Seq<Seq<char>>,
}

/// The global settings.
#[verifier::ext_equal]
pub struct SettingsModel {
    pub output_dir: Seq<char>,
    pub workers: Seq<char>,
    pub max_parallel_devices: i64,
    pub nfs_parallel: i64,
    pub hdd_parallel: i64,
    pub ssd_parallel: i64,
    pub lsf: LsfModel,
}

impl View for LsfConfig {
    type V = LsfModel;

    open spec fn view(&self) -> LsfModel {
        LsfModel {
            enabled: self.enabled,
            cmd: self.cmd@,
            os: self.os@,
            mem_mb: self.mem_mb,
            queue: self.queue@,
            extra_args: text::strs(self.extra_args@),
        }
    }
}

impl View for Globals {
    type V = SettingsModel;

    open spec fn view(&self) -> SettingsModel {
        SettingsModel {
            output_dir: self.output_dir@,
            workers: self.workers@,
            max_parallel_devices: self.max_parallel_devices,
            nfs_parallel: self.nfs_parallel,
            hdd_parallel: self.hdd_parallel,
            ssd_parallel: self.ssd_parallel,
            lsf: self.lsf@,
        }
    }
}

impl View for Team {
    type V = TeamModel;

    open spec fn view(&self) -> TeamModel {
        TeamModel { name: self.name@, team_id: self.team_id }
    }
}

impl View for User {
    type V = UserModel;

    open spec fn view(&self) -> UserModel {
        UserModel { name: self.name@, team_id: self.team_id }
    }
}

impl View for TeamSpec {
    type V = MembersModel;

    open spec fn view(&self) -> MembersModel {
        MembersModel { name: self.name@, users: text::strs(self.users@) }
    }
}

impl View for TeamFile {
    type V = MembersModel;

    open spec fn view(&self) -> MembersModel {
        MembersModel { name: self.name@, users: text::strs(self.users@) }
    }
}

pub open spec fn team_views(v: Seq<Team>) -> Seq<TeamModel> {
    Seq::new(v.len(), |i: int| v[i]@)
}

pub open spec fn user_views(v: Seq<User>) -> Seq<UserModel> {
    Seq::new(v.len(), |i: int| v[i]@)
}

pub open spec fn team_spec_views(v: Seq<TeamSpec>) -> Seq<MembersModel> {
    Seq::new(v.len(), |i: int| v[i]@)
}

pub open spec fn team_file_views(v: Seq<TeamFile>) -> Seq<MembersModel> {
    Seq::new(v.len(), |i: int| v[i]@)
}

impl View for Target {
    type V = TargetModel;

    open spec fn view(&self) -> TargetModel {
        TargetModel {
            name: self.name@,
            path: self.path@,
            teams: team_views(self.teams@),
            users: user_views(self.users@),
            end_scan: text::opt(self.end_scan),
            purge_time: self.purge_time,
            overrides: OverridesModel {
                tree_map: self.tree_map,
                level: self.level,
                workers: self.workers,
                sync_host: text::opt(self.sync_host),
                sync_dest_dir: text::opt(self.sync_dest_dir),
                sync_user: text::opt(self.sync_user),
                export_dir: text::opt(self.export_dir),
                webhook_url: text::opt(self.webhook_url),
                sync_pass: self.sync_pass,
            },
        }
    }
}

impl View for TargetFile {
    type V = TargetFileModel;

    open spec fn view(&self) -> TargetFileModel {
        TargetFileModel {
            name: self.name@,
            path: self.path@,
            teams: team_file_views(self.teams@),
            end_scan: text::opt(self.end_scan),
            purge_time: self.purge_time,
            overrides: OverridesModel {
                tree_map: self.tree_map,
                level: self.level,
                workers: self.workers,
                sync_host: text::opt(self.sync_host),
                sync_dest_dir: text::opt(self.sync_dest_dir),
                sync_user: text::opt(self.sync_user),
                export_dir: text::opt(self.export_dir),
                webhook_url: text::opt(self.webhook_url),
                sync_pass: self.sync_pass,
            },
        }
    }
}

impl View for TargetSpec {
    type V = TargetSpecModel;

    open spec fn view(&self) -> TargetSpecModel {
        TargetSpecModel {
            name: self.name@,
            path: self.path@,
            teams: team_spec_views(self.teams@),
            end_scan: text::opt(self.end_scan),
            purge_time: self.purge_time,
        }
    }
}

pub open spec fn target_views(v: Seq<Target>) -> Seq<TargetModel> {
    Seq::new(v.len(), |i: int| v[i]@)
}

pub open spec fn target_spec_views(v: Seq<TargetSpec>) -> Seq<TargetSpecModel> {
    Seq::new(v.len(), |i: int| v[i]@)
}

/// No override.
pub open spec fn no_overrides() -> OverridesModel {
    OverridesModel {
        tree_map: None,
        level: None,
        workers: None,
        sync_host: None,
        sync_dest_dir: None,
        sync_user: None,
        export_dir: None,
        webhook_url: None,
        sync_pass: None,
    }
}

// ---------------------------------------------------------------------------
// Defaults
// ---------------------------------------------------------------------------

/// The command that submits a batch job.
pub fn default_lsf_cmd() -> (r: String)
    ensures
        r@ == "bs"@,
{
    "bs".to_string()
}

/// Where reports go.
pub fn default_output_dir() -> (r: String)
    ensures
        r@ == "reports"@,
{
    "reports".to_string()
}

/// How many workers scan.
pub fn default_workers() -> (r: String)
    ensures
        r@ == "auto"@,
{
    "auto".to_string()
}

/// How many walkers a network device gets at most: its reads wait on round
/// trips, so many are kept in flight.
pub fn default_nfs_parallel() -> (r: i64)
    ensures
        r == 64,
{
    64
}

/// How many walkers a spinning disk gets at most.
pub fn default_hdd_parallel() -> (r: i64)
    ensures
        r == 8,
{
    8
}

/// How many walkers a solid-state disk gets at most; 0 is no cap.
pub fn default_ssd_parallel() -> (r: i64)
    ensures
        r == 0,
{
    0
}

impl Default for LsfConfig {
    fn default() -> (r: Self)
        ensures
            !r.enabled,
            r.cmd@ == "bs"@,
            r.os@.len() == 0,
            r.mem_mb == 0,
            r.queue@.len() == 0,
            r.extra_args@.len() == 0,
    {
        LsfConfig {
            enabled: false,
            cmd: default_lsf_cmd(),
            os: String::new(),
            mem_mb: 0,
            queue: String::new(),
            extra_args: Vec::new(),
        }
    }
}

impl Default for Globals {
    fn default() -> (r: Self)
        ensures
            r.output_dir@ == "reports"@,
            r.workers@ == "auto"@,
            r.max_parallel_devices == 0,
            r.nfs_parallel == 64,
            r.hdd_parallel == 8,
            r.ssd_parallel == 0,
            !r.lsf.enabled,
            r.lsf.cmd@ == "bs"@,
            r.lsf.os@.len() == 0,
            r.lsf.mem_mb == 0,
            r.lsf.queue@.len() == 0,
            r.lsf.extra_args@.len() == 0,
    {
        Globals {
            output_dir: default_output_dir(),
            workers: default_workers(),
            max_parallel_devices: 0,
            nfs_parallel: default_nfs_parallel(),
            hdd_parallel: default_hdd_parallel(),
            ssd_parallel: default_ssd_parallel(),
            lsf: LsfConfig::default(),
        }
    }
}

impl Default for Config {
    fn default() -> (r: Self)
        ensures
            r.output_dir@ == "reports"@,
            r.workers@ == "auto"@,
            r.max_parallel_devices == 0,
            r.nfs_parallel == 64,
            r.hdd_parallel == 8,
            r.ssd_parallel == 0,
            !r.lsf.enabled,
            r.lsf.cmd@ == "bs"@,
            r.lsf.os@.len() == 0,
            r.lsf.mem_mb == 0,
            r.lsf.queue@.len() == 0,
            r.lsf.extra_args@.len() == 0,
            r.targets@.len() == 0,
    {
        Config::from_globals(Globals::default())
    }
}

impl Default for Target {
    fn default() -> (r: Self)
        ensures
            r@ == (TargetModel {
                name: Seq::empty(),
                path: Seq::empty(),
                teams: Seq::empty(),
                users: Seq::empty(),
                end_scan: None,
                purge_time: None,
                overrides: no_overrides(),
            }),
    {
        let r = bare_target(String::new(), String::new(), None, None);
        assert(r.name@ =~= Seq::<char>::empty());
        assert(r.path@ =~= Seq::<char>::empty());
        r
    }
}

impl Default for TeamSpec {
    fn default() -> (r: Self)
        ensures
            r.name@.len() == 0,
            r.users@.len() == 0,
    {
        TeamSpec { name: String::new(), users: Vec::new() }
    }
}

impl Default for TargetSpec {
    fn default() -> (r: Self)
        ensures
            r.name@.len() == 0,
            r.path@.len() == 0,
            r.teams@.len() == 0,
            r.end_scan is None,
            r.purge_time is None,
    {
        TargetSpec {
            name: String::new(),
            path: String::new(),
            teams: Vec::new(),
            end_scan: None,
            purge_time: None,
        }
    }
}

/// A target without teams, users and overrides.
fn bare_target(
    name: String,
    path: String,
    end_scan: Option<String>,
    purge_time: Option<i64>,
) -> (r: Target)
    ensures
        r@ == (TargetModel {
            name: name@,
            path: path@,
            teams: Seq::empty(),
            users: Seq::empty(),
            end_scan: text::opt(end_scan),
            purge_time,
            overrides: no_overrides(),
        }),
{
    let r = Target {
        name,
        path,
        teams: Vec::new(),
        users: Vec::new(),
        end_scan,
        purge_time,
        tree_map: None,
        level: None,
        workers: None,
        sync_host: None,
        sync_dest_dir: None,
        sync_user: None,
        export_dir: None,
        webhook_url: None,
        sync_pass: None,
    };
    assert(r@.teams =~= Seq::<TeamModel>::empty());
    assert(r@.users =~= Seq::<UserModel>::empty());
    r
}

impl Config {
    /// The configuration with these settings and no target.
    pub fn from_globals(g: Globals) -> (r: Self)
        ensures
            r.output_dir == g.output_dir,
            r.workers == g.workers,
            r.max_parallel_devices == g.max_parallel_devices,
            r.nfs_parallel == g.nfs_parallel,
            r.hdd_parallel == g.hdd_parallel,
            r.ssd_parallel == g.ssd_parallel,
            r.lsf == g.lsf,
            r.settings() == g@,
            r.targets@.len() == 0,
    {
        Config {
            output_dir: g.output_dir,
            workers: g.workers,
            max_parallel_devices: g.max_parallel_devices,
            nfs_parallel: g.nfs_parallel,
            hdd_parallel: g.hdd_parallel,
            ssd_parallel: g.ssd_parallel,
            lsf: g.lsf,
            targets: Vec::new(),
        }
    }
}

// ---------------------------------------------------------------------------
// Declared teams
// ---------------------------------------------------------------------------

/// The names of users.
pub open spec fn user_names(users: Seq<UserModel>) -> Seq<Seq<char>> {
    Seq::new(users.len(), |i: int| users[i].name)
}

/// The names of teams.
pub open spec fn team_names(teams: Seq<TeamModel>) -> Seq<Seq<char>> {
    Seq::new(teams.len(), |i: int| teams[i].name)
}

/// The users with those of `names` added, on the team `id`, that are new.
pub open spec fn with_members(
    users: Seq<UserModel>,
    names: Seq<Seq<char>>,
    id: i64,
) -> Seq<UserModel>
    decreases names.len(),
{
    if names.len() == 0 {
        users
    } else {
        let before = with_members(users, names.drop_last(), id);
        if user_names(before).contains(names.last()) {
            before
        } else {
            before.push(UserModel { name: names.last(), team_id: id })
        }
    }
}

/// The teams of a declaration, numbered from 1.
pub open spec fn numbered_teams(teams: Seq<MembersModel>) -> Seq<TeamModel> {
    Seq::new(teams.len(), |i: int| TeamModel { name: teams[i].name, team_id: (i + 1) as i64 })
}

/// The users of a declaration, each on the first team that lists it.
pub open spec fn numbered_users(teams: Seq<MembersModel>) -> Seq<UserModel>
    decreases teams.len(),
{
    if teams.len() == 0 {
        Seq::empty()
    } else {
        with_members(
            numbered_users(teams.drop_last()),
            teams.last().users,
            teams.len() as i64,
        )
    }
}

/// The names of the users on the team `id`.
pub open spec fn members(users: Seq<UserModel>, id: i64) -> Seq<Seq<char>> {
    users.filter(|u: UserModel| u.team_id == id).map_values(|u: UserModel| u.name)
}

fn has_user(users: &Vec<User>, name: &str) -> (r: bool)
    ensures
        r == user_names(user_views(users@)).contains(name@),
{
    let ghost names = user_names(user_views(users@));
    let mut i: usize = 0;
    while i < users.len()
        invariant
            i <= users.len(),
            names == user_names(user_views(users@)),
            forall|k: int| 0 <= k < i ==> #[trigger] names[k] != name@,
        decreases users.len() - i,
    {
        if text::str_eq(users[i].name.as_str(), name) {
            assert(names[i as int] == name@);
            return true;
        }
        assert(names[i as int] != name@);
        i = i + 1;
    }
    false
}

fn add_members(users: &mut Vec<User>, names: &Vec<String>, id: i64)
    ensures
        user_views(final(users)@) == with_members(
            user_views(old(users)@),
            text::strs(names@),
            id,
        ),
{
    let ghost all = text::strs(names@);
    let ghost start = user_views(users@);
    let mut i: usize = 0;
    while i < names.len()
        invariant
            i <= names.len(),
            all == text::strs(names@),
            user_views(users@) == with_members(start, all.take(i as int), id),
        decreases names.len() - i,
    {
        proof {
            assert(all.take(i + 1).drop_last() =~= all.take(i as int));
            assert(all.take(i + 1).last() == names@[i as int]@);
        }
        if !has_user(users, names[i].as_str()) {
            let ghost before = user_views(users@);
            users.push(User { name: names[i].clone(), team_id: id });
            assert(user_views(users@) =~= before.push(
                UserModel { name: names@[i as int]@, team_id: id },
            ));
        }
        i = i + 1;
    }
    proof {
        assert(all.take(i as int) =~= all);
    }
}

/// Team `i` of a declaration, added to what came before.
fn add_numbered(
    teams: &mut Vec<Team>,
    users: &mut Vec<User>,
    name: &String,
    names: &Vec<String>,
    Ghost(all): Ghost<Seq<MembersModel>>,
    i: usize,
)
    requires
        i < all.len() < i64::MAX,
        all[i as int] == (MembersModel { name: name@, users: text::strs(names@) }),
        team_views(old(teams)@) == numbered_teams(all.take(i as int)),
        user_views(old(users)@) == numbered_users(all.take(i as int)),
    ensures
        team_views(final(teams)@) == numbered_teams(all.take(i + 1)),
        user_views(final(users)@) == numbered_users(all.take(i + 1)),
{
    let id: i64 = i as i64 + 1;
    let ghost before = team_views(teams@);
    teams.push(Team { name: name.clone(), team_id: id });
    add_members(users, names, id);
    proof {
        let now = all.take(i + 1);
        assert(now.drop_last() =~= all.take(i as int));
        assert(team_views(teams@) =~= before.push(TeamModel { name: name@, team_id: id }));
        assert(numbered_teams(now) =~= numbered_teams(all.take(i as int)).push(
            TeamModel { name: name@, team_id: id },
        ));
    }
}

// ---------------------------------------------------------------------------
// A target's file
// ---------------------------------------------------------------------------

/// The target that a file declares.
pub open spec fn from_file(f: TargetFileModel) -> TargetModel {
    TargetModel {
        name: f.name,
        path: f.path,
        teams: numbered_teams(f.teams),
        users: numbered_users(f.teams),
        end_scan: f.end_scan,
        purge_time: f.purge_time,
        overrides: f.overrides,
    }
}

/// The file that declares a target.
pub open spec fn to_file(t: TargetModel) -> TargetFileModel {
    TargetFileModel {
        name: t.name,
        path: t.path,
        teams: t.teams.map_values(
            |m: TeamModel| MembersModel { name: m.name, users: members(t.users, m.team_id) },
        ),
        end_scan: t.end_scan,
        purge_time: t.purge_time,
        overrides: t.overrides,
    }
}

/// The target that a file declares: teams are numbered from 1 in the order of
/// the file, and each user is on the first team that lists it.
pub fn target_from_file(tf: TargetFile) -> (r: Target)
    requires
        tf.teams@.len() < i64::MAX,
    ensures
        r@ == from_file(tf@),
{
    let ghost all = team_file_views(tf.teams@);
    let mut teams: Vec<Team> = Vec::new();
    let mut users: Vec<User> = Vec::new();
    let mut i: usize = 0;
    proof {
        assert(team_views(teams@) =~= numbered_teams(all.take(0)));
        assert(user_views(users@) =~= numbered_users(all.take(0)));
    }
    while i < tf.teams.len()
        invariant
            i <= tf.teams@.len() < i64::MAX,
            all == team_file_views(tf.teams@),
            team_views(teams@) == numbered_teams(all.take(i as int)),
            user_views(users@) == numbered_users(all.take(i as int)),
        decreases tf.teams@.len() - i,
    {
        let team: &TeamFile = &tf.teams[i];
        add_numbered(&mut teams, &mut users, &team.name, &team.users, Ghost(all), i);
        i = i + 1;
    }
    proof {
        assert(all.take(i as int) =~= all);
    }
    Target {
        name: tf.name,
        path: tf.path,
        teams,
        users,
        end_scan: tf.end_scan,
        purge_time: tf.purge_time,
        tree_map: tf.tree_map,
        level: tf.level,
        workers: tf.workers,
        sync_host: tf.sync_host,
        sync_dest_dir: tf.sync_dest_dir,
        sync_user: tf.sync_user,
        export_dir: tf.export_dir,
        webhook_url: tf.webhook_url,
        sync_pass: tf.sync_pass,
    }
}

fn members_of(users: &Vec<User>, id: i64) -> (r: Vec<String>)
    ensures
        text::strs(r@) == members(user_views(users@), id),
{
    let ghost all = user_views(users@);
    let ghost f = |u: UserModel| u.team_id == id;
    let ghost g = |u: UserModel| u.name;
    let mut out: Vec<String> = Vec::new();
    let mut i: usize = 0;
    proof {
        reveal(Seq::filter);
        assert(all.take(0).filter(f).map_values(g) =~= Seq::<Seq<char>>::empty());
    }
    while i < users.len()
        invariant
            i <= users.len(),
            all == user_views(users@),
            f == (|u: UserModel| u.team_id == id),
            g == (|u: UserModel| u.name),
            text::strs(out@) == all.take(i as int).filter(f).map_values(g),
        decreases users.len() - i,
    {
        let ghost kept = all.take(i as int).filter(f);
        let ghost u = all[i as int];
        proof {
            reveal(Seq::filter);
            assert(all.take(i + 1).drop_last() =~= all.take(i as int));
            assert(all.take(i + 1).last() == u);
        }
        if users[i].team_id == id {
            let ghost before = text::strs(out@);
            out.push(users[i].name.clone());
            proof {
                assert(text::strs(out@) =~= before.push(u.name));
                assert(kept.push(u).map_values(g) =~= kept.map_values(g).push(u.name));
            }
        }
        i = i + 1;
    }
    proof {
        assert(all.take(i as int) =~= all);
    }
    out
}

/// The file that declares a target: teams in their order, each with its users in
/// theirs.
pub fn target_to_file(t: &Target) -> (r: TargetFile)
    ensures
        r@ == to_file(t@),
{
    let ghost all = t@.teams;
    let ghost g = |m: TeamModel| MembersModel { name: m.name, users: members(t@.users, m.team_id) };
    let mut teams: Vec<TeamFile> = Vec::new();
    let mut i: usize = 0;
    while i < t.teams.len()
        invariant
            i <= t.teams@.len(),
            teams@.len() == i,
            all == t@.teams,
            g == (|m: TeamModel| MembersModel {
                name: m.name,
                users: members(t@.users, m.team_id),
            }),
            forall|k: int| 0 <= k < i ==> (#[trigger] teams@[k])@ == g(all[k]),
        decreases t.teams@.len() - i,
    {
        let users = members_of(&t.users, t.teams[i].team_id);
        teams.push(TeamFile { name: t.teams[i].name.clone(), users });
        assert(teams@[i as int]@ == g(all[i as int]));
        i = i + 1;
    }
    proof {
        assert(team_file_views(teams@) =~= to_file(t@).teams);
    }
    TargetFile {
        name: t.name.clone(),
        path: t.path.clone(),
        teams,
        end_scan: text::copy_opt(&t.end_scan),
        purge_time: t.purge_time,
        tree_map: t.tree_map,
        level: t.level,
        workers: t.workers,
        sync_host: text::copy_opt(&t.sync_host),
        sync_dest_dir: text::copy_opt(&t.sync_dest_dir),
        sync_user: text::copy_opt(&t.sync_user),
        export_dir: text::copy_opt(&t.export_dir),
        webhook_url: text::copy_opt(&t.webhook_url),
        sync_pass: t.sync_pass,
    }
}

/// A character of a target's name in its file's name.
pub open spec fn stem_char(c: char) -> char {
    if c == '/' || c == '\\' || c == '.' || text::is_control_char(c) {
        '_'
    } else {
        c
    }
}

/// The file stem of a target: separators, dots and control characters become
/// `_`.
pub open spec fn stem(name: Seq<char>) -> Seq<char> {
    name.map_values(|c: char| stem_char(c))
}

/// The file stem of a target.
pub fn sanitize_stem(name: &str) -> (r: String)
    ensures
        r@ == stem(name@),
{
    let v = text::to_chars(name);
    let mut out: Vec<char> = Vec::new();
    let mut i: usize = 0;
    while i < v.len()
        invariant
            i <= v.len(),
            out@.len() == i,
            forall|k: int| 0 <= k < i ==> #[trigger] out@[k] == stem_char(v@[k]),
        decreases v.len() - i,
    {
        let c: char = v[i];
        if c == '/' || c == '\\' || c == '.' || text::is_control(c) {
            out.push('_');
        } else {
            out.push(c);
        }
        i = i + 1;
    }
    assert(out@ =~= stem(name@));
    text::from_chars(&out)
}

/// A stem names a file right inside the directory: it holds no separator, no dot
/// and no control character, and taking it again changes nothing.
pub proof fn law_stem_is_safe(name: Seq<char>)
    ensures
        stem(name).len() == name.len(),
        forall|i: int|
            0 <= i < stem(name).len() ==> {
                let c = #[trigger] stem(name)[i];
                c != '/' && c != '\\' && c != '.' && !text::is_control_char(c)
            },
        stem(stem(name)) == stem(name),
{
    assert(stem(stem(name)) =~= stem(name));
}

// ---------------------------------------------------------------------------
// Changes
// ---------------------------------------------------------------------------

/// The names of targets.
pub open spec fn target_names(ts: Seq<TargetModel>) -> Seq<Seq<char>> {
    Seq::new(ts.len(), |i: int| ts[i].name)
}

/// The largest id of the teams, or 0 where there is none.
pub open spec fn top_id(teams: Seq<TeamModel>) -> int
    decreases teams.len(),
{
    if teams.len() == 0 {
        0
    } else if teams.len() == 1 {
        teams[0].team_id as int
    } else {
        let before = top_id(teams.drop_last());
        if teams.last().team_id > before {
            teams.last().team_id as int
        } else {
            before
        }
    }
}

fn top_team_id(teams: &Vec<Team>) -> (r: i64)
    ensures
        r == top_id(team_views(teams@)),
{
    let ghost all = team_views(teams@);
    if teams.len() == 0 {
        return 0;
    }
    let mut top: i64 = teams[0].team_id;
    let mut i: usize = 1;
    while i < teams.len()
        invariant
            1 <= i <= teams.len(),
            all == team_views(teams@),
            top == top_id(all.take(i as int)),
        decreases teams.len() - i,
    {
        proof {
            assert(all.take(i + 1).drop_last() =~= all.take(i as int));
            assert(all.take(i + 1).last() == all[i as int]);
        }
        if teams[i].team_id > top {
            top = teams[i].team_id;
        }
        i = i + 1;
    }
    proof {
        assert(all.take(i as int) =~= all);
    }
    top
}

fn team_place(teams: &Vec<Team>, name: &str) -> (r: Option<usize>)
    ensures
        r is None <==> text::place(team_names(team_views(teams@)), name@) == teams.len(),
        r matches Some(i) ==> i < teams.len() && i == text::place(
            team_names(team_views(teams@)),
            name@,
        ),
        r is Some <==> team_names(team_views(teams@)).contains(name@),
{
    let ghost names = team_names(team_views(teams@));
    proof {
        text::lemma_place(names, name@);
    }
    let mut i: usize = 0;
    while i < teams.len()
        invariant
            i <= teams.len(),
            names == team_names(team_views(teams@)),
            forall|k: int| 0 <= k < i ==> #[trigger] names[k] != name@,
        decreases teams.len() - i,
    {
        if text::str_eq(teams[i].name.as_str(), name) {
            proof {
                assert(names[i as int] == name@);
                text::lemma_place_unique(names, name@, i as int);
            }
            return Some(i);
        }
        assert(names[i as int] != name@);
        i = i + 1;
    }
    proof {
        text::lemma_place_unique(names, name@, i as int);
    }
    None
}

/// What is said of a target that is not there.
pub open spec fn target_not_found(name: Seq<char>) -> Seq<char> {
    "Target '"@ + name + "' not found"@
}

/// What is said of a team that is not there.
pub open spec fn team_not_found(team: Seq<char>, target: Seq<char>) -> Seq<char> {
    "Team '"@ + team + "' not found in '"@ + target + "'"@
}

/// The users without those of a name.
pub open spec fn without_user(users: Seq<UserModel>, name: Seq<char>) -> Seq<UserModel> {
    users.filter(|u: UserModel| u.name != name)
}

/// The users without those of a team.
pub open spec fn without_members(users: Seq<UserModel>, id: i64) -> Seq<UserModel> {
    users.filter(|u: UserModel| u.team_id != id)
}

/// The teams without those of a name.
pub open spec fn without_team(teams: Seq<TeamModel>, name: Seq<char>) -> Seq<TeamModel> {
    teams.filter(|t: TeamModel| t.name != name)
}

/// A target without teams and users.
pub open spec fn new_target(
    name: Seq<char>,
    path: Seq<char>,
    end_scan: Option<Seq<char>>,
    purge_time: Option<i64>,
) -> TargetModel {
    TargetModel {
        name,
        path,
        teams: Seq::empty(),
        users: Seq::empty(),
        end_scan,
        purge_time,
        overrides: no_overrides(),
    }
}

/// A target with one more team, under an id above those of the others.
pub open spec fn with_new_team(t: TargetModel, team: Seq<char>) -> TargetModel {
    TargetModel {
        teams: t.teams.push(TeamModel { name: team, team_id: (top_id(t.teams) + 1) as i64 }),
        ..t
    }
}

/// A target with one more user, on the team at `k`.
pub open spec fn with_new_user(t: TargetModel, user: Seq<char>, k: int) -> TargetModel {
    TargetModel {
        users: t.users.push(UserModel { name: user, team_id: t.teams[k].team_id }),
        ..t
    }
}

/// A target without the users of a name.
pub open spec fn without_the_user(t: TargetModel, user: Seq<char>) -> TargetModel {
    TargetModel { users: without_user(t.users, user), ..t }
}

/// A target without the teams of a name, and without the users of the team at `k`.
pub open spec fn without_the_team(t: TargetModel, k: int, team: Seq<char>) -> TargetModel {
    TargetModel {
        teams: without_team(t.teams, team),
        users: without_members(t.users, t.teams[k].team_id),
        ..t
    }
}

/// Whether adding a team to a target does not need an id past the largest one: a
/// team that is there, or a target that is not, needs none.
pub open spec fn id_left(ts: Seq<TargetModel>, target: Seq<char>, team: Seq<char>) -> bool {
    let teams = ts[text::place(target_names(ts), target)].teams;
    target_names(ts).contains(target) && !team_names(teams).contains(team) ==> top_id(teams)
        < i64::MAX
}

fn copy_user(u: &User) -> (r: User)
    ensures
        r@ == u@,
{
    User { name: u.name.clone(), team_id: u.team_id }
}

fn copy_team(t: &Team) -> (r: Team)
    ensures
        r@ == t@,
{
    Team { name: t.name.clone(), team_id: t.team_id }
}

fn keep_other_names(users: &Vec<User>, name: &str) -> (r: Vec<User>)
    ensures
        user_views(r@) == without_user(user_views(users@), name@),
{
    let ghost all = user_views(users@);
    let ghost f = |u: UserModel| u.name != name@;
    let mut out: Vec<User> = Vec::new();
    let mut i: usize = 0;
    proof {
        reveal(Seq::filter);
        assert(user_views(out@) =~= all.take(0).filter(f));
    }
    while i < users.len()
        invariant
            i <= users.len(),
            all == user_views(users@),
            f == (|u: UserModel| u.name != name@),
            user_views(out@) == all.take(i as int).filter(f),
        decreases users.len() - i,
    {
        proof {
            reveal(Seq::filter);
            assert(all.take(i + 1).drop_last() =~= all.take(i as int));
            assert(all.take(i + 1).last() == all[i as int]);
        }
        if !text::str_eq(users[i].name.as_str(), name) {
            let ghost before = user_views(out@);
            out.push(copy_user(&users[i]));
            assert(user_views(out@) =~= before.push(all[i as int]));
        }
        i = i + 1;
    }
    proof {
        assert(all.take(i as int) =~= all);
    }
    out
}

fn keep_other_members(users: &Vec<User>, id: i64) -> (r: Vec<User>)
    ensures
        user_views(r@) == without_members(user_views(users@), id),
{
    let ghost all = user_views(users@);
    let ghost f = |u: UserModel| u.team_id != id;
    let mut out: Vec<User> = Vec::new();
    let mut i: usize = 0;
    proof {
        reveal(Seq::filter);
        assert(user_views(out@) =~= all.take(0).filter(f));
    }
    while i < users.len()
        invariant
            i <= users.len(),
            all == user_views(users@),
            f == (|u: UserModel| u.team_id != id),
            user_views(out@) == all.take(i as int).filter(f),
        decreases users.len() - i,
    {
        proof {
            reveal(Seq::filter);
            assert(all.take(i + 1).drop_last() =~= all.take(i as int));
            assert(all.take(i + 1).last() == all[i as int]);
        }
        if users[i].team_id != id {
            let ghost before = user_views(out@);
            out.push(copy_user(&users[i]));
            assert(user_views(out@) =~= before.push(all[i as int]));
        }
        i = i + 1;
    }
    proof {
        assert(all.take(i as int) =~= all);
    }
    out
}

fn keep_other_teams(teams: &Vec<Team>, name: &str) -> (r: Vec<Team>)
    ensures
        team_views(r@) == without_team(team_views(teams@), name@),
{
    let ghost all = team_views(teams@);
    let ghost f = |t: TeamModel| t.name != name@;
    let mut out: Vec<Team> = Vec::new();
    let mut i: usize = 0;
    proof {
        reveal(Seq::filter);
        assert(team_views(out@) =~= all.take(0).filter(f));
    }
    while i < teams.len()
        invariant
            i <= teams.len(),
            all == team_views(teams@),
            f == (|t: TeamModel| t.name != name@),
            team_views(out@) == all.take(i as int).filter(f),
        decreases teams.len() - i,
    {
        proof {
            reveal(Seq::filter);
            assert(all.take(i + 1).drop_last() =~= all.take(i as int));
            assert(all.take(i + 1).last() == all[i as int]);
        }
        if !text::str_eq(teams[i].name.as_str(), name) {
            let ghost before = team_views(out@);
            out.push(copy_team(&teams[i]));
            assert(team_views(out@) =~= before.push(all[i as int]));
        }
        i = i + 1;
    }
    proof {
        assert(all.take(i as int) =~= all);
    }
    out
}

impl Config {
    /// Everything but the targets.
    pub open spec fn settings(&self) -> SettingsModel {
        SettingsModel {
            output_dir: self.output_dir@,
            workers: self.workers@,
            max_parallel_devices: self.max_parallel_devices,
            nfs_parallel: self.nfs_parallel,
            hdd_parallel: self.hdd_parallel,
            ssd_parallel: self.ssd_parallel,
            lsf: self.lsf@,
        }
    }

    /// The targets.
    pub open spec fn model(&self) -> Seq<TargetModel> {
        target_views(self.targets@)
    }

    /// The place of the first target of a name, or their number.
    pub open spec fn place_of(&self, name: Seq<char>) -> int {
        text::place(target_names(self.model()), name)
    }

    /// Whether everything but the targets is alike.
    pub open spec fn same_settings(&self, other: &Config) -> bool {
        &&& self.output_dir == other.output_dir
        &&& self.workers == other.workers
        &&& self.max_parallel_devices == other.max_parallel_devices
        &&& self.nfs_parallel == other.nfs_parallel
        &&& self.hdd_parallel == other.hdd_parallel
        &&& self.ssd_parallel == other.ssd_parallel
        &&& self.lsf == other.lsf
    }

    fn find_place(&self, name: &str) -> (r: Option<usize>)
        ensures
            0 <= self.place_of(name@) <= self.targets@.len(),
            r is None <==> self.place_of(name@) == self.targets@.len(),
            r matches Some(i) ==> i < self.targets@.len() && i == self.place_of(name@)
                && self.targets@[i as int].name@ == name@,
            r is Some <==> target_names(self.model()).contains(name@),
    {
        let ghost names = target_names(self.model());
        proof {
            text::lemma_place(names, name@);
        }
        let mut i: usize = 0;
        while i < self.targets.len()
            invariant
                i <= self.targets@.len(),
                names == target_names(self.model()),
                forall|k: int| 0 <= k < i ==> #[trigger] names[k] != name@,
            decreases self.targets@.len() - i,
        {
            if text::str_eq(self.targets[i].name.as_str(), name) {
                proof {
                    assert(names[i as int] == name@);
                    text::lemma_place_unique(names, name@, i as int);
                }
                return Some(i);
            }
            assert(names[i as int] != name@);
            i = i + 1;
        }
        proof {
            text::lemma_place_unique(names, name@, i as int);
        }
        None
    }

    /// The first target of a name.
    pub fn find_target(&self, name: &str) -> (r: Option<&Target>)
        ensures
            r is Some <==> target_names(self.model()).contains(name@),
            r matches Some(t) ==> *t == self.targets@[self.place_of(name@)] && t.name@ == name@,
    {
        match self.find_place(name) {
            Some(i) => Some(&self.targets[i]),
            None => None,
        }
    }

    /// The first target of a name, to change it.
    pub fn find_target_mut(&mut self, name: &str) -> (r: Option<&mut Target>)
        ensures
            r is Some <==> target_names(old(self).model()).contains(name@),
            match r {
                Some(t) => {
                    let i = old(self).place_of(name@);
                    &&& 0 <= i < old(self).targets@.len()
                    &&& *t == old(self).targets@[i]
                    &&& t.name@ == name@
                    &&& final(self).same_settings(old(self))
                    &&& final(self).targets@ == old(self).targets@.update(i, *final(t))
                },
                None => *final(self) == *old(self),
            },
    {
        match self.find_place(name) {
            Some(i) => Some(&mut self.targets[i]),
            None => None,
        }
    }
}

proof fn lemma_changed(before: Seq<Target>, i: int, t: Target)
    requires
        0 <= i < before.len(),
    ensures
        target_views(before.update(i, t)) == target_views(before).update(i, t@),
{
    assert(target_views(before.update(i, t)) =~= target_views(before).update(i, t@));
}

impl Config {
    /// Adds a target without teams and users. It is an error if one of that name
    /// is there.
    pub fn add_target(
        &mut self,
        name: &str,
        path: &str,
        end_scan: Option<String>,
        purge_time: Option<i64>,
    ) -> (r: Result<(), String>)
        ensures
            r is Ok <==> !target_names(old(self).model()).contains(name@),
            match r {
                Ok(()) => {
                    &&& final(self).same_settings(old(self))
                    &&& final(self).model() == old(self).model().push(
                        new_target(name@, path@, text::opt(end_scan), purge_time),
                    )
                },
                Err(e) => {
                    &&& *final(self) == *old(self)
                    &&& e@ == "Target '"@ + name@ + "' already exists"@
                },
            },
    {
        if self.find_place(name).is_some() {
            return Err(text::cat3("Target '", name, "' already exists"));
        }
        let ghost before = self.model();
        let t = bare_target(name.to_string(), path.to_string(), end_scan, purge_time);
        self.targets.push(t);
        assert(self.model() =~= before.push(t@));
        Ok(())
    }

    /// Removes the first target of a name.
    pub fn remove_target(&mut self, name: &str) -> (r: Result<(), String>)
        ensures
            r is Ok <==> target_names(old(self).model()).contains(name@),
            match r {
                Ok(()) => {
                    &&& final(self).same_settings(old(self))
                    &&& final(self).model() == old(self).model().remove(old(self).place_of(name@))
                },
                Err(e) => {
                    &&& *final(self) == *old(self)
                    &&& e@ == target_not_found(name@)
                },
            },
    {
        match self.find_place(name) {
            Some(i) => {
                let ghost before = self.model();
                self.targets.remove(i);
                assert(self.model() =~= before.remove(i as int));
                Ok(())
            },
            None => Err(text::cat3("Target '", name, "' not found")),
        }
    }

    /// Whether adding a team to a target does not need an id past the largest one.
    pub fn has_id_left(&self, team_name: &str, target_name: &str) -> (r: bool)
        ensures
            r == id_left(self.model(), target_name@, team_name@),
    {
        match self.find_place(target_name) {
            Some(i) => {
                assert(self.model()[i as int].teams == team_views(self.targets@[i as int].teams@));
                team_place(&self.targets[i].teams, team_name).is_some() || top_team_id(
                    &self.targets[i].teams,
                ) < i64::MAX
            },
            None => true,
        }
    }

    /// Adds a team to a target, with an id above those of the target's teams.
    pub fn add_team(&mut self, team_name: &str, target_name: &str) -> (r: Result<(), String>)
        requires
            id_left(old(self).model(), target_name@, team_name@),
        ensures
            ({
                let ts = old(self).model();
                let i = old(self).place_of(target_name@);
                let found = target_names(ts).contains(target_name@);
                &&& r is Ok <==> found && !team_names(ts[i].teams).contains(team_name@)
                &&& match r {
                    Ok(()) => {
                        &&& final(self).same_settings(old(self))
                        &&& final(self).model() == ts.update(i, with_new_team(ts[i], team_name@))
                    },
                    Err(e) => {
                        &&& *final(self) == *old(self)
                        &&& e@ == (if found {
                            "Team '"@ + team_name@ + "' already exists in '"@ + target_name@ + "'"@
                        } else {
                            target_not_found(target_name@)
                        })
                    },
                }
            }),
    {
        let ghost ts = self.model();
        let i: usize = match self.find_place(target_name) {
            Some(i) => i,
            None => return Err(text::cat3("Target '", target_name, "' not found")),
        };
        assert(ts[i as int].teams == team_views(self.targets@[i as int].teams@));
        if team_place(&self.targets[i].teams, team_name).is_some() {
            return Err(text::cat5("Team '", team_name, "' already exists in '", target_name, "'"));
        }
        let ghost before = self.targets@;
        let ghost old_t = self.targets@[i as int];
        let t: &mut Target = &mut self.targets[i];
        let top: i64 = top_team_id(&t.teams);
        assert(top_id(ts[i as int].teams) < i64::MAX);
        t.teams.push(Team { name: team_name.to_string(), team_id: top + 1 });
        proof {
            let now = self.targets@[i as int];
            lemma_changed(before, i as int, now);
            assert(self.targets@ =~= before.update(i as int, now));
            assert(now@.teams =~= old_t@.teams.push(
                TeamModel { name: team_name@, team_id: (top + 1) as i64 },
            ));
        }
        Ok(())
    }

    /// Puts a user on a team of a target. A user who is there already, on any
    /// team, stays; the result says whether anything changed.
    pub fn add_user(&mut self, username: &str, team_name: &str, target_name: &str) -> (r: Result<
        bool,
        String,
    >)
        ensures
            ({
                let ts = old(self).model();
                let i = old(self).place_of(target_name@);
                let found = target_names(ts).contains(target_name@);
                let k = text::place(team_names(ts[i].teams), team_name@);
                &&& r is Ok <==> found && team_names(ts[i].teams).contains(team_name@)
                &&& match r {
                    Ok(changed) => {
                        &&& changed == !user_names(ts[i].users).contains(username@)
                        &&& !changed ==> *final(self) == *old(self)
                        &&& changed ==> final(self).same_settings(old(self)) && final(self).model()
                            == ts.update(i, with_new_user(ts[i], username@, k))
                    },
                    Err(e) => {
                        &&& *final(self) == *old(self)
                        &&& e@ == (if found {
                            team_not_found(team_name@, target_name@)
                        } else {
                            target_not_found(target_name@)
                        })
                    },
                }
            }),
    {
        let ghost ts = self.model();
        let i: usize = match self.find_place(target_name) {
            Some(i) => i,
            None => return Err(text::cat3("Target '", target_name, "' not found")),
        };
        assert(ts[i as int].teams == team_views(self.targets@[i as int].teams@));
        let team_id: i64 = match team_place(&self.targets[i].teams, team_name) {
            Some(k) => self.targets[i].teams[k].team_id,
            None => return Err(
                text::cat5("Team '", team_name, "' not found in '", target_name, "'"),
            ),
        };
        assert(ts[i as int].users == user_views(self.targets@[i as int].users@));
        if has_user(&self.targets[i].users, username) {
            return Ok(false);
        }
        let ghost before = self.targets@;
        let ghost old_t = self.targets@[i as int];
        let t: &mut Target = &mut self.targets[i];
        t.users.push(User { name: username.to_string(), team_id });
        proof {
            let now = self.targets@[i as int];
            lemma_changed(before, i as int, now);
            assert(self.targets@ =~= before.update(i as int, now));
            assert(now@.users =~= old_t@.users.push(UserModel { name: username@, team_id }));
        }
        Ok(true)
    }

    /// Drops every user of a name from a target.
    pub fn remove_user(&mut self, username: &str, target_name: &str) -> (r: Result<(), String>)
        ensures
            ({
                let ts = old(self).model();
                let i = old(self).place_of(target_name@);
                &&& r is Ok <==> target_names(ts).contains(target_name@)
                &&& match r {
                    Ok(()) => {
                        &&& final(self).same_settings(old(self))
                        &&& final(self).model() == ts.update(
                            i,
                            without_the_user(ts[i], username@),
                        )
                    },
                    Err(e) => {
                        &&& *final(self) == *old(self)
                        &&& e@ == target_not_found(target_name@)
                    },
                }
            }),
    {
        let i: usize = match self.find_place(target_name) {
            Some(i) => i,
            None => return Err(text::cat3("Target '", target_name, "' not found")),
        };
        let ghost before = self.targets@;
        let t: &mut Target = &mut self.targets[i];
        let users = keep_other_names(&t.users, username);
        t.users = users;
        proof {
            let now = self.targets@[i as int];
            lemma_changed(before, i as int, now);
            assert(self.targets@ =~= before.update(i as int, now));
        }
        Ok(())
    }

    /// Drops a team from a target, and every user on it.
    pub fn remove_team(&mut self, team_name: &str, target_name: &str) -> (r: Result<(), String>)
        ensures
            ({
                let ts = old(self).model();
                let i = old(self).place_of(target_name@);
                let found = target_names(ts).contains(target_name@);
                let k = text::place(team_names(ts[i].teams), team_name@);
                &&& r is Ok <==> found && team_names(ts[i].teams).contains(team_name@)
                &&& match r {
                    Ok(()) => {
                        &&& final(self).same_settings(old(self))
                        &&& final(self).model() == ts.update(
                            i,
                            without_the_team(ts[i], k, team_name@),
                        )
                    },
                    Err(e) => {
                        &&& *final(self) == *old(self)
                        &&& e@ == (if found {
                            team_not_found(team_name@, target_name@)
                        } else {
                            target_not_found(target_name@)
                        })
                    },
                }
            }),
    {
        let ghost ts = self.model();
        let i: usize = match self.find_place(target_name) {
            Some(i) => i,
            None => return Err(text::cat3("Target '", target_name, "' not found")),
        };
        assert(ts[i as int].teams == team_views(self.targets@[i as int].teams@));
        let team_id: i64 = match team_place(&self.targets[i].teams, team_name) {
            Some(k) => self.targets[i].teams[k].team_id,
            None => return Err(
                text::cat5("Team '", team_name, "' not found in '", target_name, "'"),
            ),
        };
        let ghost before = self.targets@;
        let t: &mut Target = &mut self.targets[i];
        let teams = keep_other_teams(&t.teams, team_name);
        let users = keep_other_members(&t.users, team_id);
        t.teams = teams;
        t.users = users;
        proof {
            let now = self.targets@[i as int];
            lemma_changed(before, i as int, now);
            assert(self.targets@ =~= before.update(i as int, now));
        }
        Ok(())
    }
}

// ---------------------------------------------------------------------------
// Declared targets
// ---------------------------------------------------------------------------

/// Teams and users with a declaration added on top: what is there stays, a new
/// team gets an id above the others, and a new user goes on the first team that
/// lists it.
pub open spec fn merged(
    teams: Seq<TeamModel>,
    users: Seq<UserModel>,
    declared: Seq<MembersModel>,
) -> (Seq<TeamModel>, Seq<UserModel>)
    decreases declared.len(),
{
    if declared.len() == 0 {
        (teams, users)
    } else {
        let (t, u) = merged(teams, users, declared.drop_last());
        let d = declared.last();
        let k = text::place(team_names(t), d.name);
        if k < t.len() {
            (t, with_members(u, d.users, t[k].team_id))
        } else {
            let id = (top_id(t) + 1) as i64;
            (t.push(TeamModel { name: d.name, team_id: id }), with_members(u, d.users, id))
        }
    }
}

/// A target with a declaration applied to it.
pub open spec fn redeclared(t: TargetModel, s: TargetSpecModel, merge: bool) -> TargetModel {
    TargetModel {
        path: s.path,
        end_scan: s.end_scan,
        purge_time: s.purge_time,
        teams: if merge {
            merged(t.teams, t.users, s.teams).0
        } else {
            numbered_teams(s.teams)
        },
        users: if merge {
            merged(t.teams, t.users, s.teams).1
        } else {
            numbered_users(s.teams)
        },
        ..t
    }
}

/// The target that a declaration makes.
pub open spec fn declared_target(s: TargetSpecModel) -> TargetModel {
    TargetModel {
        name: s.name,
        path: s.path,
        teams: numbered_teams(s.teams),
        users: numbered_users(s.teams),
        end_scan: s.end_scan,
        purge_time: s.purge_time,
        overrides: no_overrides(),
    }
}

/// The targets with a declaration applied: to the first target of its name or,
/// where none has it, as a new one at the end.
pub open spec fn upserted(
    ts: Seq<TargetModel>,
    s: TargetSpecModel,
    merge: bool,
) -> Seq<TargetModel> {
    let i = text::place(target_names(ts), s.name);
    if i < ts.len() {
        ts.update(i, redeclared(ts[i], s, merge))
    } else {
        ts.push(declared_target(s))
    }
}

/// The names with those of declared teams added that are new.
pub open spec fn with_declared(
    names: Seq<Seq<char>>,
    declared: Seq<MembersModel>,
) -> Seq<Seq<char>>
    decreases declared.len(),
{
    if declared.len() == 0 {
        names
    } else {
        let before = with_declared(names, declared.drop_last());
        if before.contains(declared.last().name) {
            before
        } else {
            before.push(declared.last().name)
        }
    }
}

/// How many teams a declaration adds.
pub open spec fn added_teams(teams: Seq<TeamModel>, declared: Seq<MembersModel>) -> int {
    with_declared(team_names(teams), declared).len() - teams.len()
}

/// There are ids left for the teams that a declaration adds.
pub open spec fn ids_left(ts: Seq<TargetModel>, s: TargetSpecModel, merge: bool) -> bool {
    let i = text::place(target_names(ts), s.name);
    &&& s.teams.len() < i64::MAX
    &&& merge && i < ts.len() ==> top_id(ts[i].teams) + added_teams(ts[i].teams, s.teams)
        <= i64::MAX
}

proof fn lemma_with_declared_grows(
    names: Seq<Seq<char>>,
    declared: Seq<MembersModel>,
    k: int,
)
    requires
        0 <= k <= declared.len(),
    ensures
        names.len() <= with_declared(names, declared.take(k)).len() <= with_declared(
            names,
            declared,
        ).len(),
    decreases declared.len(),
{
    if k == declared.len() {
        assert(declared.take(k) =~= declared);
        if k > 0 {
            lemma_with_declared_grows(names, declared.drop_last(), k - 1);
            assert(declared.drop_last().take(k - 1) =~= declared.drop_last());
        }
    } else {
        lemma_with_declared_grows(names, declared.drop_last(), k);
        assert(declared.drop_last().take(k) =~= declared.take(k));
    }
}

proof fn lemma_top_push(teams: Seq<TeamModel>, t: TeamModel)
    requires
        t.team_id == top_id(teams) + 1,
    ensures
        top_id(teams.push(t)) == t.team_id,
{
    assert(teams.push(t).drop_last() =~= teams);
}

proof fn lemma_merged_top(
    teams: Seq<TeamModel>,
    users: Seq<UserModel>,
    declared: Seq<MembersModel>,
)
    requires
        top_id(teams) + added_teams(teams, declared) <= i64::MAX,
    ensures
        top_id(teams) <= top_id(merged(teams, users, declared).0) <= top_id(teams) + added_teams(
            teams,
            declared,
        ),
        team_names(merged(teams, users, declared).0) == with_declared(team_names(teams), declared),
    decreases declared.len(),
{
    let names = team_names(teams);
    if declared.len() > 0 {
        let rest = declared.drop_last();
        lemma_with_declared_grows(names, declared, declared.len() - 1);
        assert(declared.take(declared.len() - 1) =~= rest);
        lemma_merged_top(teams, users, rest);
        let t = merged(teams, users, rest).0;
        let d = declared.last();
        let more = TeamModel { name: d.name, team_id: (top_id(t) + 1) as i64 };
        text::lemma_place(team_names(t), d.name);
        lemma_top_id_range(t);
        if !team_names(t).contains(d.name) {
            assert(with_declared(names, declared).len() == with_declared(names, rest).len() + 1);
            lemma_top_push(t, more);
            assert(team_names(t.push(more)) =~= team_names(t).push(d.name));
        }
    }
}

proof fn lemma_top_id_range(teams: Seq<TeamModel>)
    ensures
        i64::MIN <= top_id(teams) <= i64::MAX,
    decreases teams.len(),
{
    if teams.len() > 1 {
        lemma_top_id_range(teams.drop_last());
    }
}

fn merge_declared(t: &mut Target, declared: &Vec<TeamSpec>)
    requires
        top_id(old(t)@.teams) + added_teams(old(t)@.teams, team_spec_views(declared@)) <= i64::MAX,
    ensures
        final(t)@ == (TargetModel {
            teams: merged(old(t)@.teams, old(t)@.users, team_spec_views(declared@)).0,
            users: merged(old(t)@.teams, old(t)@.users, team_spec_views(declared@)).1,
            ..old(t)@
        }),
{
    let ghost start = t@;
    let ghost all = team_spec_views(declared@);
    let mut i: usize = 0;
    while i < declared.len()
        invariant
            i <= declared.len(),
            all == team_spec_views(declared@),
            top_id(start.teams) + added_teams(start.teams, all) <= i64::MAX,
            t@ == (TargetModel {
                teams: merged(start.teams, start.users, all.take(i as int)).0,
                users: merged(start.teams, start.users, all.take(i as int)).1,
                ..start
            }),
        decreases declared.len() - i,
    {
        let ts: &TeamSpec = &declared[i];
        proof {
            assert(all.take(i + 1).drop_last() =~= all.take(i as int));
            assert(all.take(i + 1).last() == ts@);
            lemma_with_declared_grows(team_names(start.teams), all, i as int);
            lemma_with_declared_grows(team_names(start.teams), all, i + 1);
            lemma_merged_top(start.teams, start.users, all.take(i as int));
            text::lemma_place(team_names(t@.teams), ts.name@);
        }
        let ghost teams0 = t@.teams;
        let team_id: i64 = match team_place(&t.teams, ts.name.as_str()) {
            Some(k) => t.teams[k].team_id,
            None => {
                let id: i64 = top_team_id(&t.teams) + 1;
                t.teams.push(Team { name: ts.name.clone(), team_id: id });
                assert(team_views(t.teams@) =~= teams0.push(
                    TeamModel { name: ts.name@, team_id: id },
                ));
                id
            },
        };
        add_members(&mut t.users, &ts.users, team_id);
        i = i + 1;
    }
    proof {
        assert(all.take(i as int) =~= all);
    }
}

/// How many teams a declaration adds.
fn count_added(teams: &Vec<Team>, declared: &Vec<TeamSpec>) -> (r: usize)
    ensures
        r == added_teams(team_views(teams@), team_spec_views(declared@)),
{
    let ghost start = team_names(team_views(teams@));
    let ghost all = team_spec_views(declared@);
    let mut names: Vec<String> = Vec::new();
    let mut i: usize = 0;
    while i < teams.len()
        invariant
            i <= teams@.len(),
            start == team_names(team_views(teams@)),
            text::strs(names@) == start.take(i as int),
        decreases teams@.len() - i,
    {
        let ghost before = text::strs(names@);
        text::push_text(&mut names, teams[i].name.as_str());
        assert(start.take(i + 1) =~= before.push(start[i as int]));
        i = i + 1;
    }
    assert(start.take(i as int) =~= start);
    let mut added: usize = 0;
    let mut k: usize = 0;
    assert(all.take(0) =~= Seq::<MembersModel>::empty());
    while k < declared.len()
        invariant
            k <= declared@.len(),
            added <= k,
            all == team_spec_views(declared@),
            text::strs(names@) == with_declared(start, all.take(k as int)),
            text::strs(names@).len() == start.len() + added,
        decreases declared@.len() - k,
    {
        proof {
            assert(all.take(k + 1).drop_last() =~= all.take(k as int));
            assert(all.take(k + 1).last() == declared@[k as int]@);
        }
        if !text::has_string(&names, declared[k].name.as_str()) {
            text::push_text(&mut names, declared[k].name.as_str());
            added = added + 1;
        }
        k = k + 1;
    }
    assert(all.take(k as int) =~= all);
    added
}

impl Config {
    /// Whether there are ids left for the teams that a declaration adds.
    pub fn has_ids_left(&self, spec: &TargetSpec, merge: bool) -> (r: bool)
        ensures
            r == ids_left(self.model(), spec@, merge),
    {
        if spec.teams.len() as u64 >= i64::MAX as u64 {
            return false;
        }
        match self.find_place(spec.name.as_str()) {
            Some(i) => {
                let t: &Target = &self.targets[i];
                assert(self.model()[i as int] == t@);
                let top: i64 = top_team_id(&t.teams);
                let added: usize = count_added(&t.teams, &spec.teams);
                !merge || top as i128 + added as i128 <= i64::MAX as i128
            },
            None => true,
        }
    }

    /// Creates or updates one target from a whole declaration. Path, end and
    /// purge time become what is declared. Without `merge` the teams and users
    /// become exactly those declared; with it they are added on top.
    pub fn upsert_target_full(&mut self, spec: &TargetSpec, merge: bool)
        requires
            ids_left(old(self).model(), spec@, merge),
        ensures
            final(self).same_settings(old(self)),
            final(self).model() == upserted(old(self).model(), spec@, merge),
    {
        let ghost ts = self.model();
        let ghost all = team_spec_views(spec.teams@);
        let mut teams: Vec<Team> = Vec::new();
        let mut users: Vec<User> = Vec::new();
        let mut n: usize = 0;
        proof {
            assert(team_views(teams@) =~= numbered_teams(all.take(0)));
            assert(user_views(users@) =~= numbered_users(all.take(0)));
        }
        while n < spec.teams.len()
            invariant
                n <= spec.teams@.len() < i64::MAX,
                all == team_spec_views(spec.teams@),
                team_views(teams@) == numbered_teams(all.take(n as int)),
                user_views(users@) == numbered_users(all.take(n as int)),
            decreases spec.teams@.len() - n,
        {
            let team: &TeamSpec = &spec.teams[n];
            add_numbered(&mut teams, &mut users, &team.name, &team.users, Ghost(all), n);
            n = n + 1;
        }
        proof {
            assert(all.take(n as int) =~= all);
        }
        match self.find_place(spec.name.as_str()) {
            Some(i) => {
                let ghost before = self.targets@;
                let t: &mut Target = &mut self.targets[i];
                t.path = spec.path.clone();
                t.end_scan = text::copy_opt(&spec.end_scan);
                t.purge_time = spec.purge_time;
                if merge {
                    merge_declared(t, &spec.teams);
                } else {
                    t.teams = teams;
                    t.users = users;
                }
                proof {
                    let now = self.targets@[i as int];
                    lemma_changed(before, i as int, now);
                    assert(self.targets@ =~= before.update(i as int, now));
                }
            },
            None => {
                let mut t = bare_target(
                    spec.name.clone(),
                    spec.path.clone(),
                    text::copy_opt(&spec.end_scan),
                    spec.purge_time,
                );
                t.teams = teams;
                t.users = users;
                self.targets.push(t);
                assert(self.model() =~= ts.push(t@));
            },
        }
    }
}

// ---------------------------------------------------------------------------
// Laws of a target's file
// ---------------------------------------------------------------------------

/// The users of all declared teams in a row.
pub open spec fn all_users(teams: Seq<MembersModel>) -> Seq<Seq<char>>
    decreases teams.len(),
{
    if teams.len() == 0 {
        Seq::empty()
    } else {
        all_users(teams.drop_last()) + teams.last().users
    }
}

/// The ids of teams.
pub open spec fn team_ids(teams: Seq<TeamModel>) -> Seq<i64> {
    Seq::new(teams.len(), |i: int| teams[i].team_id)
}

/// No user occurs twice, no two teams share an id, and every user is on a team.
pub open spec fn coherent(t: TargetModel) -> bool {
    &&& user_names(t.users).no_duplicates()
    &&& team_ids(t.teams).no_duplicates()
    &&& forall|i: int|
        0 <= i < t.users.len() ==> team_ids(t.teams).contains((#[trigger] t.users[i]).team_id)
}

/// Users of one team.
spec fn on_team(names: Seq<Seq<char>>, id: i64) -> Seq<UserModel> {
    Seq::new(names.len(), |i: int| UserModel { name: names[i], team_id: id })
}

proof fn lemma_members_append(a: Seq<UserModel>, b: Seq<UserModel>, id: i64)
    ensures
        members(a + b, id) == members(a, id) + members(b, id),
    decreases b.len(),
{
    let f = |u: UserModel| u.team_id == id;
    let g = |u: UserModel| u.name;
    reveal(Seq::filter);
    if b.len() == 0 {
        assert(a + b =~= a);
        assert(members(b, id) =~= Seq::empty());
        assert(members(a, id) + members(b, id) =~= members(a, id));
    } else {
        lemma_members_append(a, b.drop_last(), id);
        assert((a + b).drop_last() =~= a + b.drop_last());
        assert((a + b).last() == b.last());
        let x = (a + b.drop_last()).filter(f);
        let y = b.drop_last().filter(f);
        assert(x.push(b.last()).map_values(g) =~= x.map_values(g).push(b.last().name));
        assert(y.push(b.last()).map_values(g) =~= y.map_values(g).push(b.last().name));
        assert(members(a + b, id) =~= members(a, id) + members(b, id));
    }
}

proof fn lemma_members_of_team(names: Seq<Seq<char>>, own: i64, id: i64)
    ensures
        members(on_team(names, own), id) == (if own == id {
            names
        } else {
            Seq::empty()
        }),
    decreases names.len(),
{
    let f = |u: UserModel| u.team_id == id;
    let g = |u: UserModel| u.name;
    let us = on_team(names, own);
    reveal(Seq::filter);
    if names.len() == 0 {
        assert(members(us, id) =~= Seq::empty());
        assert(names =~= Seq::empty());
    } else {
        lemma_members_of_team(names.drop_last(), own, id);
        assert(us.drop_last() =~= on_team(names.drop_last(), own));
        let x = us.drop_last().filter(f);
        assert(x.push(us.last()).map_values(g) =~= x.map_values(g).push(us.last().name));
        assert(names =~= names.drop_last().push(names.last()));
    }
}

/// Members that are all new are all added.
proof fn lemma_fresh_members(users: Seq<UserModel>, names: Seq<Seq<char>>, id: i64)
    requires
        names.no_duplicates(),
        forall|k: int| 0 <= k < names.len() ==> !user_names(users).contains(#[trigger] names[k]),
    ensures
        with_members(users, names, id) == users + on_team(names, id),
    decreases names.len(),
{
    if names.len() == 0 {
        assert(users + on_team(names, id) =~= users);
    } else {
        let rest = names.drop_last();
        assert forall|k: int| 0 <= k < rest.len() implies !user_names(users).contains(
            #[trigger] rest[k],
        ) by {
            assert(rest[k] == names[k]);
        }
        lemma_fresh_members(users, rest, id);
        let before = users + on_team(rest, id);
        let x = names.last();
        if user_names(before).contains(x) {
            let k = choose|k: int| 0 <= k < user_names(before).len() && user_names(before)[k] == x;
            if k < users.len() {
                assert(user_names(users)[k] == x);
                assert(user_names(users).contains(names[names.len() - 1]));
            } else {
                assert(names[k - users.len()] == names[names.len() - 1]);
            }
            assert(false);
        }
        assert(before.push(UserModel { name: x, team_id: id }) =~= users + on_team(names, id));
    }
}

/// What is numbered of a declaration without repeated users.
proof fn lemma_numbered(teams: Seq<MembersModel>)
    requires
        all_users(teams).no_duplicates(),
        teams.len() < i64::MAX,
    ensures
        user_names(numbered_users(teams)) == all_users(teams),
        forall|i: int|
            0 <= i < teams.len() ==> #[trigger] members(numbered_users(teams), (i + 1) as i64)
                == teams[i].users,
        forall|id: i64|
            id > teams.len() ==> #[trigger] members(numbered_users(teams), id) == Seq::<
                Seq<char>,
            >::empty(),
    decreases teams.len(),
{
    if teams.len() == 0 {
        reveal(Seq::filter);
        assert(user_names(numbered_users(teams)) =~= all_users(teams));
        assert forall|id: i64| id > 0 implies #[trigger] members(numbered_users(teams), id)
            == Seq::<Seq<char>>::empty() by {
            assert(members(numbered_users(teams), id) =~= Seq::empty());
        }
    } else {
        let rest = teams.drop_last();
        let prev = numbered_users(rest);
        let names = teams.last().users;
        let own = teams.len() as i64;
        let all = all_users(teams);
        assert(all == all_users(rest) + names);
        let m = all_users(rest).len() as int;
        assert(all_users(rest).no_duplicates()) by {
            assert forall|i: int, j: int| 0 <= i < m && 0 <= j < m && i != j implies all_users(
                rest,
            )[i] != all_users(rest)[j] by {
                assert(all[i] == all_users(rest)[i]);
                assert(all[j] == all_users(rest)[j]);
            }
        }
        lemma_numbered(rest);
        assert(names.no_duplicates()) by {
            assert forall|i: int, j: int|
                0 <= i < names.len() && 0 <= j < names.len() && i != j implies names[i]
                != names[j] by {
                assert(all[m + i] == names[i]);
                assert(all[m + j] == names[j]);
            }
        }
        assert forall|k: int| 0 <= k < names.len() implies !user_names(prev).contains(
            #[trigger] names[k],
        ) by {
            if user_names(prev).contains(names[k]) {
                let i = choose|i: int|
                    0 <= i < user_names(prev).len() && user_names(prev)[i] == names[k];
                assert(all[i] == names[k]);
                assert(all[m + k] == names[k]);
            }
        }
        lemma_fresh_members(prev, names, own);
        let us = numbered_users(teams);
        assert(us == prev + on_team(names, own));
        assert(user_names(us) =~= all);
        assert forall|i: int| 0 <= i < teams.len() implies #[trigger] members(us, (i + 1) as i64)
            == teams[i].users by {
            lemma_members_append(prev, on_team(names, own), (i + 1) as i64);
            lemma_members_of_team(names, own, (i + 1) as i64);
            if i < rest.len() {
                assert(members(prev, (i + 1) as i64) == rest[i].users);
                assert(members(us, (i + 1) as i64) =~= teams[i].users);
            } else {
                assert(members(prev, (i + 1) as i64) == Seq::<Seq<char>>::empty());
                assert(members(us, (i + 1) as i64) =~= teams[i].users);
            }
        }
        assert forall|id: i64| id > teams.len() implies #[trigger] members(us, id) == Seq::<
            Seq<char>,
        >::empty() by {
            lemma_members_append(prev, on_team(names, own), id);
            lemma_members_of_team(names, own, id);
            assert(members(us, id) =~= Seq::empty());
        }
    }
}

/// A file that lists no user twice is given back unchanged by the target that it
/// declares.
pub proof fn law_file_round_trip(f: TargetFileModel)
    requires
        all_users(f.teams).no_duplicates(),
        f.teams.len() < i64::MAX,
    ensures
        to_file(from_file(f)) == f,
{
    lemma_numbered(f.teams);
    let back = to_file(from_file(f));
    assert forall|i: int| 0 <= i < f.teams.len() implies #[trigger] back.teams[i]
        == f.teams[i] by {
        assert(members(numbered_users(f.teams), (i + 1) as i64) == f.teams[i].users);
    }
    assert(back.teams =~= f.teams);
}

proof fn lemma_with_members(users: Seq<UserModel>, names: Seq<Seq<char>>, id: i64)
    requires
        user_names(users).no_duplicates(),
    ensures
        user_names(with_members(users, names, id)).no_duplicates(),
        users.is_prefix_of(with_members(users, names, id)),
        forall|k: int|
            users.len() <= k < with_members(users, names, id).len() ==> (
            #[trigger] with_members(users, names, id)[k]).team_id == id,
    decreases names.len(),
{
    if names.len() > 0 {
        lemma_with_members(users, names.drop_last(), id);
        let before = with_members(users, names.drop_last(), id);
        let now = with_members(users, names, id);
        let x = names.last();
        if !user_names(before).contains(x) {
            assert forall|i: int, j: int|
                0 <= i < now.len() && 0 <= j < now.len() && i != j implies user_names(now)[i]
                != user_names(now)[j] by {
                if i < before.len() {
                    assert(user_names(before)[i] == user_names(now)[i]);
                }
                if j < before.len() {
                    assert(user_names(before)[j] == user_names(now)[j]);
                }
            }
        }
    }
}

/// What a file declares is coherent, whatever it lists.
pub proof fn law_loaded_is_coherent(f: TargetFileModel)
    requires
        f.teams.len() < i64::MAX,
    ensures
        coherent(from_file(f)),
{
    lemma_loaded(f.teams);
    let t = from_file(f);
    assert forall|i: int| 0 <= i < t.users.len() implies team_ids(t.teams).contains(
        (#[trigger] t.users[i]).team_id,
    ) by {
        let id = t.users[i].team_id;
        assert(team_ids(t.teams)[id - 1] == id);
    }
}

proof fn lemma_loaded(teams: Seq<MembersModel>)
    requires
        teams.len() < i64::MAX,
    ensures
        user_names(numbered_users(teams)).no_duplicates(),
        forall|i: int|
            0 <= i < numbered_users(teams).len() ==> 1 <= (
            #[trigger] numbered_users(teams)[i]).team_id <= teams.len(),
    decreases teams.len(),
{
    if teams.len() > 0 {
        lemma_loaded(teams.drop_last());
        let prev = numbered_users(teams.drop_last());
        let us = numbered_users(teams);
        lemma_with_members(prev, teams.last().users, teams.len() as i64);
        assert forall|i: int| 0 <= i < us.len() implies 1 <= (#[trigger] us[i]).team_id
            <= teams.len() by {
            if i < prev.len() {
                assert(us[i] == prev[i]);
            }
        }
    }
}

/// The places in `users` of the members of a team.
proof fn lemma_members_places(users: Seq<UserModel>, id: i64)
    requires
        user_names(users).no_duplicates(),
    ensures
        members(users, id).no_duplicates(),
        forall|x: Seq<char>| #[trigger]
            members(users, id).contains(x) ==> exists|i: int|
                0 <= i < users.len() && (#[trigger] users[i]).name == x && users[i].team_id == id,
    decreases users.len(),
{
    let f = |u: UserModel| u.team_id == id;
    let g = |u: UserModel| u.name;
    reveal(Seq::filter);
    if users.len() == 0 {
        assert(members(users, id) =~= Seq::empty());
    } else {
        let rest = users.drop_last();
        let last = users.last();
        assert(user_names(rest).no_duplicates()) by {
            assert forall|i: int, j: int|
                0 <= i < rest.len() && 0 <= j < rest.len() && i != j implies user_names(rest)[i]
                != user_names(rest)[j] by {
                assert(user_names(users)[i] == user_names(rest)[i]);
                assert(user_names(users)[j] == user_names(rest)[j]);
            }
        }
        lemma_members_places(rest, id);
        let before = members(rest, id);
        let now = members(users, id);
        let x = rest.filter(f);
        assert(x.push(last).map_values(g) =~= x.map_values(g).push(last.name));
        assert forall|n: Seq<char>| #[trigger] now.contains(n) implies exists|i: int|
            0 <= i < users.len() && (#[trigger] users[i]).name == n && users[i].team_id == id by {
            let k = choose|k: int| 0 <= k < now.len() && now[k] == n;
            if last.team_id == id && k == now.len() - 1 {
                assert(users[users.len() - 1].name == n);
            } else {
                assert(before[k] == n);
                assert(before.contains(n));
                let i = choose|i: int|
                    0 <= i < rest.len() && (#[trigger] rest[i]).name == n && rest[i].team_id == id;
                assert(users[i] == rest[i]);
            }
        }
        if last.team_id == id {
            assert(!before.contains(last.name)) by {
                if before.contains(last.name) {
                    let i = choose|i: int|
                        0 <= i < rest.len() && (#[trigger] rest[i]).name == last.name
                            && rest[i].team_id == id;
                    assert(user_names(users)[i] == user_names(users)[users.len() - 1]);
                }
            }
            assert(now == before.push(last.name));
            assert forall|i: int, j: int|
                0 <= i < now.len() && 0 <= j < now.len() && i != j implies now[i] != now[j] by {
                if i < before.len() {
                    assert(before.contains(before[i]));
                }
                if j < before.len() {
                    assert(before.contains(before[j]));
                }
            }
        }
    }
}

proof fn lemma_saved_distinct(t: TargetModel, n: int)
    requires
        coherent(t),
        0 <= n <= t.teams.len(),
    ensures
        all_users(to_file(t).teams.take(n)).no_duplicates(),
        forall|x: Seq<char>| #[trigger]
            all_users(to_file(t).teams.take(n)).contains(x) ==> exists|i: int, k: int|
                0 <= i < t.users.len() && 0 <= k < n && (#[trigger] t.users[i]).name == x
                    && t.users[i].team_id == (#[trigger] t.teams[k]).team_id,
    decreases n,
{
    let fs = to_file(t).teams;
    if n > 0 {
        lemma_saved_distinct(t, n - 1);
        assert(fs.take(n).drop_last() =~= fs.take(n - 1));
        let before = all_users(fs.take(n - 1));
        let id = t.teams[n - 1].team_id;
        let own = members(t.users, id);
        assert(fs.take(n).last().users == own);
        lemma_members_places(t.users, id);
        let now = all_users(fs.take(n));
        assert(now == before + own);
        assert forall|x: Seq<char>| #[trigger] now.contains(x) implies exists|i: int, k: int|
            0 <= i < t.users.len() && 0 <= k < n && (#[trigger] t.users[i]).name == x
                && t.users[i].team_id == (#[trigger] t.teams[k]).team_id by {
            let p = choose|p: int| 0 <= p < now.len() && now[p] == x;
            if p < before.len() {
                assert(before[p] == x);
                assert(before.contains(x));
                let (i, k) = choose|i: int, k: int|
                    0 <= i < t.users.len() && 0 <= k < n - 1 && (#[trigger] t.users[i]).name == x
                        && t.users[i].team_id == (#[trigger] t.teams[k]).team_id;
                assert(t.users[i].name == x && t.users[i].team_id == t.teams[k].team_id);
            } else {
                assert(own[p - before.len()] == x);
                assert(own.contains(x));
                let i = choose|i: int|
                    0 <= i < t.users.len() && (#[trigger] t.users[i]).name == x
                        && t.users[i].team_id == id;
                assert(t.users[i].team_id == t.teams[n - 1].team_id);
            }
        }
        assert forall|a: int, b: int|
            0 <= a < now.len() && 0 <= b < now.len() && a < b implies now[a] != now[b] by {
            if a < before.len() && b >= before.len() {
                let x = now[a];
                if now[b] == x {
                    assert(before[a] == x);
                    assert(before.contains(x));
                    let (i, k) = choose|i: int, k: int|
                        0 <= i < t.users.len() && 0 <= k < n - 1 && (#[trigger] t.users[i]).name
                            == x && t.users[i].team_id == (#[trigger] t.teams[k]).team_id;
                    assert(own[b - before.len()] == x);
                    assert(own.contains(x));
                    let j = choose|j: int|
                        0 <= j < t.users.len() && (#[trigger] t.users[j]).name == x
                            && t.users[j].team_id == id;
                    assert(user_names(t.users)[i] == user_names(t.users)[j]);
                    assert(i == j);
                    assert(team_ids(t.teams)[k] == team_ids(t.teams)[n - 1]);
                }
            } else if b < before.len() {
                assert(now[a] == before[a] && now[b] == before[b]);
            } else {
                assert(now[a] == own[a - before.len()] && now[b] == own[b - before.len()]);
            }
        }
    } else {
        assert(fs.take(0).len() == 0);
    }
}

/// A coherent target that is saved and loaded again has the same teams in the
/// same order, each with the same users in the same order, and everything else
/// unchanged.
pub proof fn law_saved_target_loads_back(t: TargetModel)
    requires
        coherent(t),
        t.teams.len() < i64::MAX,
    ensures
        ({
            let back = from_file(to_file(t));
            &&& to_file(back) == to_file(t)
            &&& coherent(back)
            &&& back.name == t.name
            &&& back.path == t.path
            &&& back.end_scan == t.end_scan
            &&& back.purge_time == t.purge_time
            &&& back.overrides == t.overrides
            &&& team_names(back.teams) == team_names(t.teams)
            &&& forall|i: int|
                0 <= i < t.teams.len() ==> #[trigger] members(back.users, back.teams[i].team_id)
                    == members(t.users, t.teams[i].team_id)
        }),
{
    let f = to_file(t);
    lemma_saved_distinct(t, t.teams.len() as int);
    assert(f.teams.take(t.teams.len() as int) =~= f.teams);
    law_file_round_trip(f);
    law_loaded_is_coherent(f);
    let back = from_file(f);
    assert(team_names(back.teams) =~= team_names(t.teams));
    assert forall|i: int| 0 <= i < t.teams.len() implies #[trigger] members(
        back.users,
        back.teams[i].team_id,
    ) == members(t.users, t.teams[i].team_id) by {
        assert(to_file(back).teams[i] == f.teams[i]);
    }
}

/// The teams are numbered from 1 in their order, no user occurs twice, and the
/// users stand by their teams.
pub open spec fn tidy(t: TargetModel) -> bool {
    &&& t.teams.len() < i64::MAX
    &&& forall|i: int| 0 <= i < t.teams.len() ==> (#[trigger] t.teams[i]).team_id == i + 1
    &&& user_names(t.users).no_duplicates()
    &&& forall|i: int|
        0 <= i < t.users.len() ==> 1 <= (#[trigger] t.users[i]).team_id <= t.teams.len()
    &&& by_team(t.users)
}

/// The users of each team stand before those of the next.
pub open spec fn by_team(users: Seq<UserModel>) -> bool {
    forall|i: int, j: int|
        0 <= i <= j < users.len() ==> (#[trigger] users[i]).team_id <= (
        #[trigger] users[j]).team_id
}

/// How many users stand before those of the team `id`.
spec fn users_before(users: Seq<UserModel>, id: i64) -> int
    decreases users.len(),
{
    if users.len() == 0 {
        0
    } else if users.last().team_id < id {
        users.len() as int
    } else {
        users_before(users.drop_last(), id)
    }
}

proof fn lemma_users_before(users: Seq<UserModel>, id: i64)
    requires
        by_team(users),
    ensures
        0 <= users_before(users, id) <= users.len(),
        forall|i: int|
            0 <= i < users_before(users, id) ==> (#[trigger] users[i]).team_id < id,
        forall|i: int|
            users_before(users, id) <= i < users.len() ==> (#[trigger] users[i]).team_id >= id,
    decreases users.len(),
{
    if users.len() > 0 {
        let rest = users.drop_last();
        assert(users.last() == users[users.len() - 1]);
        if users.last().team_id >= id {
            assert forall|i: int, j: int| 0 <= i <= j < rest.len() implies (
            #[trigger] rest[i]).team_id <= (#[trigger] rest[j]).team_id by {
                assert(rest[i] == users[i] && rest[j] == users[j]);
            }
            lemma_users_before(rest, id);
            assert forall|i: int| 0 <= i < users_before(users, id) implies (
            #[trigger] users[i]).team_id < id by {
                assert(users[i] == rest[i]);
            }
            assert forall|i: int| users_before(users, id) <= i < users.len() implies (
            #[trigger] users[i]).team_id >= id by {
                if i < rest.len() {
                    assert(users[i] == rest[i]);
                }
            }
        }
    }
}

/// Users that stand by their teams are numbered from the members of each.
proof fn lemma_numbered_again(users: Seq<UserModel>, declared: Seq<MembersModel>)
    requires
        declared.len() < i64::MAX,
        by_team(users),
        user_names(users).no_duplicates(),
        forall|i: int|
            0 <= i < users.len() ==> 1 <= (#[trigger] users[i]).team_id <= declared.len(),
        forall|i: int|
            0 <= i < declared.len() ==> (#[trigger] declared[i]).users == members(
                users,
                (i + 1) as i64,
            ),
    ensures
        numbered_users(declared) == users,
    decreases declared.len(),
{
    if declared.len() == 0 {
        if users.len() > 0 {
            assert(users[0].team_id <= declared.len());
        }
        assert(users =~= Seq::empty());
    } else {
        let own = declared.len() as i64;
        let p = users_before(users, own);
        lemma_users_before(users, own);
        let a = users.take(p);
        let b = users.skip(p);
        let names = user_names(b);
        let rest = declared.drop_last();
        assert(users =~= a + b);
        assert(b =~= on_team(names, own)) by {
            assert forall|i: int| 0 <= i < b.len() implies #[trigger] b[i] == on_team(
                names,
                own,
            )[i] by {
                assert(b[i] == users[p + i]);
            }
        }
        assert forall|i: int| 0 <= i < a.len() implies 1 <= (#[trigger] a[i]).team_id
            <= rest.len() by {
            assert(a[i] == users[i]);
        }
        assert(by_team(a)) by {
            assert forall|i: int, j: int| 0 <= i <= j < a.len() implies (
            #[trigger] a[i]).team_id <= (#[trigger] a[j]).team_id by {
                assert(a[i] == users[i] && a[j] == users[j]);
            }
        }
        let all = user_names(users);
        assert(user_names(a).no_duplicates()) by {
            assert forall|i: int, j: int| 0 <= i < a.len() && 0 <= j < a.len() && i != j implies
                user_names(a)[i] != user_names(a)[j] by {
                assert(user_names(a)[i] == all[i] && user_names(a)[j] == all[j]);
            }
        }
        assert forall|i: int| 0 <= i < rest.len() implies (#[trigger] rest[i]).users == members(
            a,
            (i + 1) as i64,
        ) by {
            let id = (i + 1) as i64;
            assert(rest[i] == declared[i]);
            lemma_members_append(a, b, id);
            lemma_members_of_team(names, own, id);
            assert(members(a, id) + Seq::<Seq<char>>::empty() =~= members(a, id));
        }
        lemma_numbered_again(a, rest);
        assert(declared[own - 1].users == names) by {
            lemma_members_append(a, b, own);
            lemma_members_of_team(names, own, own);
            lemma_no_members(a, own);
            assert(Seq::<Seq<char>>::empty() + names =~= names);
        }
        assert(names.no_duplicates()) by {
            assert forall|i: int, j: int|
                0 <= i < names.len() && 0 <= j < names.len() && i != j implies names[i]
                != names[j] by {
                assert(names[i] == all[p + i] && names[j] == all[p + j]);
            }
        }
        assert forall|k: int| 0 <= k < names.len() implies !user_names(a).contains(
            #[trigger] names[k],
        ) by {
            if user_names(a).contains(names[k]) {
                let j = choose|j: int| 0 <= j < a.len() && user_names(a)[j] == names[k];
                assert(all[j] == all[p + k]);
            }
        }
        lemma_fresh_members(a, names, own);
    }
}

proof fn lemma_no_members(users: Seq<UserModel>, id: i64)
    requires
        forall|i: int| 0 <= i < users.len() ==> (#[trigger] users[i]).team_id != id,
    ensures
        members(users, id) == Seq::<Seq<char>>::empty(),
    decreases users.len(),
{
    reveal(Seq::filter);
    if users.len() > 0 {
        let rest = users.drop_last();
        assert forall|i: int| 0 <= i < rest.len() implies (#[trigger] rest[i]).team_id != id by {
            assert(rest[i] == users[i]);
        }
        lemma_no_members(rest, id);
        assert(users[users.len() - 1].team_id != id);
    }
    assert(members(users, id) =~= Seq::empty());
}

/// A tidy target that is saved and loaded again is the same target.
pub proof fn law_tidy_target_loads_back(t: TargetModel)
    requires
        tidy(t),
    ensures
        from_file(to_file(t)) == t,
{
    let f = to_file(t);
    assert forall|i: int| 0 <= i < f.teams.len() implies (#[trigger] f.teams[i]).users
        == members(t.users, (i + 1) as i64) by {
        assert(t.teams[i].team_id == i + 1);
    }
    lemma_numbered_again(t.users, f.teams);
    assert forall|i: int| 0 <= i < t.teams.len() implies #[trigger] numbered_teams(f.teams)[i]
        == t.teams[i] by {
        assert(f.teams[i].name == t.teams[i].name);
    }
    assert(numbered_teams(f.teams) =~= t.teams);
}

/// What a file declares is tidy, whatever it lists.
pub proof fn law_loaded_is_tidy(f: TargetFileModel)
    requires
        f.teams.len() < i64::MAX,
    ensures
        tidy(from_file(f)),
{
    lemma_loaded(f.teams);
    lemma_loaded_by_team(f.teams);
}

/// What a file declares is the same target again after it was saved and loaded.
pub proof fn law_loading_is_stable(f: TargetFileModel)
    requires
        f.teams.len() < i64::MAX,
    ensures
        from_file(to_file(from_file(f))) == from_file(f),
{
    law_loaded_is_tidy(f);
    law_tidy_target_loads_back(from_file(f));
}

proof fn lemma_loaded_by_team(teams: Seq<MembersModel>)
    requires
        teams.len() < i64::MAX,
    ensures
        by_team(numbered_users(teams)),
    decreases teams.len(),
{
    if teams.len() > 0 {
        let rest = teams.drop_last();
        let prev = numbered_users(rest);
        let us = numbered_users(teams);
        lemma_loaded_by_team(rest);
        lemma_loaded(rest);
        lemma_with_members(prev, teams.last().users, teams.len() as i64);
        assert forall|i: int, j: int| 0 <= i <= j < us.len() implies (#[trigger] us[i]).team_id
            <= (#[trigger] us[j]).team_id by {
            if i < prev.len() {
                assert(us[i] == prev[i]);
            }
            if j < prev.len() {
                assert(us[j] == prev[j]);
            }
        }
    }
}

// ---------------------------------------------------------------------------
// Files
// ---------------------------------------------------------------------------

fn copy_lsf(l: &LsfConfig) -> (r: LsfConfig)
    ensures
        r@ == l@,
{
    LsfConfig {
        enabled: l.enabled,
        cmd: l.cmd.clone(),
        os: l.os.clone(),
        mem_mb: l.mem_mb,
        queue: l.queue.clone(),
        extra_args: text::copy_strings(&l.extra_args),
    }
}

/// What saving settings and targets writes, and which of the files with the stems
/// `on_disk` it removes.
pub open spec fn saves(
    plan: SavePlan,
    settings: SettingsModel,
    ts: Seq<TargetModel>,
    on_disk: Seq<Seq<char>>,
) -> bool {
    &&& plan.globals@ == settings
    &&& stored_views(plan.files@) == stored_files(ts)
    &&& text::strs(plan.orphans@) == on_disk.filter(|s: Seq<char>| orphan(ts, s))
}

/// The targets with that of a file added, unless one has its name already.
pub open spec fn accepted(ts: Seq<TargetModel>, f: TargetFileModel) -> Seq<TargetModel> {
    if target_names(ts).contains(f.name) {
        ts
    } else {
        ts.push(from_file(f))
    }
}

/// The targets that files declare which are read in this order.
pub open spec fn loaded(files: Seq<TargetFileModel>) -> Seq<TargetModel>
    decreases files.len(),
{
    if files.len() == 0 {
        Seq::empty()
    } else {
        accepted(loaded(files.drop_last()), files.last())
    }
}

pub open spec fn target_file_views(v: Seq<TargetFile>) -> Seq<TargetFileModel> {
    Seq::new(v.len(), |i: int| v[i]@)
}

/// The files of targets, each with its stem.
pub open spec fn stored_files(ts: Seq<TargetModel>) -> Seq<(Seq<char>, TargetFileModel)> {
    Seq::new(ts.len(), |i: int| (stem(ts[i].name), to_file(ts[i])))
}

pub open spec fn stored_views(v: Seq<(String, TargetFile)>) -> Seq<
    (Seq<char>, TargetFileModel),
> {
    Seq::new(v.len(), |i: int| (v[i].0@, v[i].1@))
}

/// No target has its file under this stem.
pub open spec fn orphan(ts: Seq<TargetModel>, file_stem: Seq<char>) -> bool {
    forall|i: int| 0 <= i < ts.len() ==> stem((#[trigger] ts[i]).name) != file_stem
}

impl Config {
    /// The settings file, beside the program in `base`.
    pub fn path(base: &str) -> (r: String)
        ensures
            r@ == paths::joined(base@, "duscan.toml"@),
    {
        paths::join_path(base, "duscan.toml")
    }

    /// The directory of the targets' files, beside the program in `base`.
    pub fn targets_dir(base: &str) -> (r: String)
        ensures
            r@ == paths::joined(base@, "targets"@),
    {
        paths::join_path(base, "targets")
    }

    /// Where reports go: an absolute directory stands, a relative one is under
    /// `base`.
    pub fn resolved_output_dir(&self, base: &str) -> (r: String)
        ensures
            r@ == paths::joined(base@, self.output_dir@),
    {
        paths::join_path(base, self.output_dir.as_str())
    }

    /// The global settings, as the settings file holds them.
    pub fn globals(&self) -> (r: Globals)
        ensures
            r@ == self.settings(),
    {
        Globals {
            output_dir: self.output_dir.clone(),
            workers: self.workers.clone(),
            max_parallel_devices: self.max_parallel_devices,
            nfs_parallel: self.nfs_parallel,
            hdd_parallel: self.hdd_parallel,
            ssd_parallel: self.ssd_parallel,
            lsf: copy_lsf(&self.lsf),
        }
    }

    /// Adds the target of a file that was read. Where a target has that name
    /// already the first one is kept, and the result is false.
    pub fn accept_file(&mut self, tf: TargetFile) -> (r: bool)
        requires
            tf.teams@.len() < i64::MAX,
        ensures
            r == !target_names(old(self).model()).contains(tf.name@),
            final(self).same_settings(old(self)),
            final(self).model() == accepted(old(self).model(), tf@),
            !r ==> *final(self) == *old(self),
    {
        if self.find_place(tf.name.as_str()).is_some() {
            return false;
        }
        let ghost before = self.model();
        let t = target_from_file(tf);
        self.targets.push(t);
        assert(self.model() =~= before.push(t@));
        true
    }

    /// The configuration with these settings and the targets of the files, which were
    /// read in this order. The second result says of each file whether its target was
    /// taken: the first of a name is.
    pub fn load(g: Globals, files: Vec<TargetFile>) -> (r: (Config, Vec<bool>))
        requires
            forall|i: int| 0 <= i < files@.len() ==> (#[trigger] files@[i]).teams@.len() < i64::MAX,
        ensures
            r.0.settings() == g@,
            r.0.model() == loaded(target_file_views(files@)),
            r.1@.len() == files@.len(),
            forall|i: int|
                0 <= i < files@.len() ==> #[trigger] r.1@[i] == !target_names(
                    loaded(target_file_views(files@).take(i)),
                ).contains(files@[i].name@),
    {
        let ghost all = target_file_views(files@);
        let ghost given = files@;
        let mut cfg = Config::from_globals(g);
        let mut taken: Vec<bool> = Vec::new();
        let mut rest = files;
        proof {
            assert(all.take(0) =~= Seq::<TargetFileModel>::empty());
            assert(cfg.model() =~= Seq::<TargetModel>::empty());
            assert(given.skip(0) =~= given);
        }
        while rest.len() > 0
            invariant
                all == target_file_views(given),
                forall|i: int| 0 <= i < given.len() ==> (#[trigger] given[i]).teams@.len() < i64::MAX,
                taken@.len() + rest@.len() == given.len(),
                rest@ == given.skip(taken@.len() as int),
                cfg.settings() == g@,
                cfg.model() == loaded(all.take(taken@.len() as int)),
                forall|i: int|
                    0 <= i < taken@.len() ==> #[trigger] taken@[i] == !target_names(
                        loaded(all.take(i)),
                    ).contains(given[i].name@),
            decreases rest@.len(),
        {
            let ghost n = taken@.len() as int;
            let f = rest.remove(0);
            proof {
                assert(f == given[n]);
                assert(all.take(n + 1).drop_last() =~= all.take(n));
                assert(all.take(n + 1).last() == f@);
                assert(rest@ =~= given.skip(n + 1));
            }
            let new = cfg.accept_file(f);
            taken.push(new);
        }
        proof {
            assert(all.take(taken@.len() as int) =~= all);
        }
        (cfg, taken)
    }

    /// What saving writes, and which of the files with these stems it removes.
    pub fn save(&self, on_disk: &Vec<String>) -> (r: SavePlan)
        ensures
            saves(r, self.settings(), self.model(), text::strs(on_disk@)),
    {
        let mut files: Vec<(String, TargetFile)> = Vec::new();
        let mut i: usize = 0;
        while i < self.targets.len()
            invariant
                i <= self.targets@.len(),
                files@.len() == i,
                forall|k: int|
                    0 <= k < i ==> (#[trigger] files@[k]).0@ == stem(self.model()[k].name)
                        && files@[k].1@ == to_file(self.model()[k]),
            decreases self.targets@.len() - i,
        {
            let t: &Target = &self.targets[i];
            assert(self.model()[i as int] == t@);
            files.push((sanitize_stem(t.name.as_str()), target_to_file(t)));
            i = i + 1;
        }
        assert(stored_views(files@) =~= stored_files(self.model()));
        let ghost f = |s: Seq<char>| orphan(self.model(), s);
        let ghost all = text::strs(on_disk@);
        let mut orphans: Vec<String> = Vec::new();
        let mut j: usize = 0;
        proof {
            reveal(Seq::filter);
            assert(text::strs(orphans@) =~= all.take(0).filter(f));
        }
        while j < on_disk.len()
            invariant
                j <= on_disk@.len(),
                all == text::strs(on_disk@),
                f == (|s: Seq<char>| orphan(self.model(), s)),
                text::strs(orphans@) == all.take(j as int).filter(f),
            decreases on_disk@.len() - j,
        {
            proof {
                reveal(Seq::filter);
                assert(all.take(j + 1).drop_last() =~= all.take(j as int));
                assert(all.take(j + 1).last() == on_disk@[j as int]@);
            }
            if self.is_orphan(on_disk[j].as_str()) {
                text::push_text(&mut orphans, on_disk[j].as_str());
            }
            j = j + 1;
        }
        assert(all.take(j as int) =~= all);
        SavePlan { globals: self.globals(), files, orphans }
    }

    /// Whether the file with this stem belongs to none of the targets, so that
    /// saving drops it.
    pub fn is_orphan(&self, file_stem: &str) -> (r: bool)
        ensures
            r == orphan(self.model(), file_stem@),
    {
        let mut i: usize = 0;
        while i < self.targets.len()
            invariant
                i <= self.targets@.len(),
                forall|k: int|
                    0 <= k < i ==> stem((#[trigger] self.model()[k]).name) != file_stem@,
            decreases self.targets@.len() - i,
        {
            let s = sanitize_stem(self.targets[i].name.as_str());
            if text::str_eq(s.as_str(), file_stem) {
                assert(stem(self.model()[i as int].name) == file_stem@);
                return false;
            }
            i = i + 1;
        }
        true
    }
}

/// A relative output directory is under the program's own directory, so it never
/// depends on where the program was started.
pub proof fn law_output_dir_is_anchored(base: Seq<char>, dir: Seq<char>)
    requires
        base.len() > 0 && base[0] == '/',
    ensures
        paths::joined(base, dir).len() > 0 && paths::joined(base, dir)[0] == '/',
        dir.len() > 0 && dir[0] == '/' ==> paths::joined(base, dir) == dir,
        !(dir.len() > 0 && dir[0] == '/') ==> base.is_prefix_of(paths::joined(base, dir)),
{
}

// ---------------------------------------------------------------------------
// A file of declared targets
// ---------------------------------------------------------------------------

/// What applying a file of targets changes.
pub struct ApplyDiff {
    pub added: Vec<String>,
    pub updated: Vec<String>,
    pub removed: Vec<String>,
}

/// The names of declared targets.
pub open spec fn spec_names(specs: Seq<TargetSpecModel>) -> Seq<Seq<char>> {
    Seq::new(specs.len(), |i: int| specs[i].name)
}

/// The targets whose names are declared.
pub open spec fn retained(ts: Seq<TargetModel>, names: Seq<Seq<char>>) -> Seq<TargetModel> {
    ts.filter(|t: TargetModel| names.contains(t.name))
}

/// The targets with the declarations applied one after the other.
pub open spec fn upserted_all(
    ts: Seq<TargetModel>,
    specs: Seq<TargetSpecModel>,
    merge: bool,
) -> Seq<TargetModel>
    decreases specs.len(),
{
    if specs.len() == 0 {
        ts
    } else {
        upserted(upserted_all(ts, specs.drop_last(), merge), specs.last(), merge)
    }
}

/// The targets that applying a file keeps.
pub open spec fn kept_targets(
    ts: Seq<TargetModel>,
    specs: Seq<TargetSpecModel>,
    merge: bool,
) -> Seq<TargetModel> {
    if merge {
        ts
    } else {
        retained(ts, spec_names(specs))
    }
}

/// The targets after a file was applied: with `merge` it only adds and updates,
/// without it the targets that it does not declare go first.
pub open spec fn applied(
    ts: Seq<TargetModel>,
    specs: Seq<TargetSpecModel>,
    merge: bool,
) -> Seq<TargetModel> {
    upserted_all(kept_targets(ts, specs, merge), specs, merge)
}

/// There are ids left for every declaration when its turn comes.
pub open spec fn all_ids_left(
    ts: Seq<TargetModel>,
    specs: Seq<TargetSpecModel>,
    merge: bool,
) -> bool {
    forall|k: int|
        0 <= k < specs.len() ==> ids_left(
            #[trigger] upserted_all(kept_targets(ts, specs, merge), specs.take(k), merge),
            specs[k],
            merge,
        )
}

fn copy_target(t: &Target) -> (r: Target)
    ensures
        r@ == t@,
{
    let mut teams: Vec<Team> = Vec::new();
    let mut i: usize = 0;
    while i < t.teams.len()
        invariant
            i <= t.teams@.len(),
            teams@.len() == i,
            forall|k: int| 0 <= k < i ==> (#[trigger] teams@[k])@ == t.teams@[k]@,
        decreases t.teams@.len() - i,
    {
        teams.push(copy_team(&t.teams[i]));
        i = i + 1;
    }
    let mut users: Vec<User> = Vec::new();
    let mut k: usize = 0;
    while k < t.users.len()
        invariant
            k <= t.users@.len(),
            users@.len() == k,
            forall|j: int| 0 <= j < k ==> (#[trigger] users@[j])@ == t.users@[j]@,
        decreases t.users@.len() - k,
    {
        users.push(copy_user(&t.users[k]));
        k = k + 1;
    }
    assert(team_views(teams@) =~= t@.teams);
    assert(user_views(users@) =~= t@.users);
    Target {
        name: t.name.clone(),
        path: t.path.clone(),
        teams,
        users,
        end_scan: text::copy_opt(&t.end_scan),
        purge_time: t.purge_time,
        tree_map: t.tree_map,
        level: t.level,
        workers: t.workers,
        sync_host: text::copy_opt(&t.sync_host),
        sync_dest_dir: text::copy_opt(&t.sync_dest_dir),
        sync_user: text::copy_opt(&t.sync_user),
        export_dir: text::copy_opt(&t.export_dir),
        webhook_url: text::copy_opt(&t.webhook_url),
        sync_pass: t.sync_pass,
    }
}

fn names_of_specs(specs: &Vec<TargetSpec>) -> (r: Vec<String>)
    ensures
        text::strs(r@) == spec_names(target_spec_views(specs@)),
{
    let mut out: Vec<String> = Vec::new();
    let mut i: usize = 0;
    while i < specs.len()
        invariant
            i <= specs.len(),
            out@.len() == i,
            forall|k: int| 0 <= k < i ==> (#[trigger] out@[k])@ == specs@[k].name@,
        decreases specs.len() - i,
    {
        out.push(specs[i].name.clone());
        i = i + 1;
    }
    assert(text::strs(out@) =~= spec_names(target_spec_views(specs@)));
    out
}

/// The strings of `v`, each once, that are in `other`, or those that are not.
fn once_by(v: &Vec<String>, other: &Vec<String>, wanted: bool) -> (r: Vec<String>)
    ensures
        text::strs(r@) == interner::firsts(text::strs(v@)).filter(
            |n: Seq<char>| text::strs(other@).contains(n) == wanted,
        ),
{
    let ghost f = |n: Seq<char>| text::strs(other@).contains(n) == wanted;
    let ghost all = text::strs(v@);
    let mut seen = Interner::new();
    let mut out: Vec<String> = Vec::new();
    let mut i: usize = 0;
    proof {
        reveal(Seq::filter);
        assert(all.take(0) =~= Seq::<Seq<char>>::empty());
        assert(text::strs(out@) =~= interner::firsts(all.take(0)).filter(f));
        assert(seen@ =~= interner::firsts(all.take(0)));
    }
    while i < v.len()
        invariant
            i <= v.len(),
            all == text::strs(v@),
            f == (|n: Seq<char>| text::strs(other@).contains(n) == wanted),
            seen.wf(),
            seen@ == interner::firsts(all.take(i as int)),
            text::strs(out@) == seen@.filter(f),
        decreases v.len() - i,
    {
        let ghost before = seen@;
        proof {
            assert(all.take(i + 1).drop_last() =~= all.take(i as int));
            assert(all.take(i + 1).last() == v@[i as int]@);
        }
        let n = seen.len();
        let k = seen.intern(v[i].as_str());
        if seen.len() > n {
            proof {
                reveal(Seq::filter);
                assert(seen@.drop_last() =~= before);
            }
            if text::has_string(other, v[i].as_str()) == wanted {
                let ghost kept = text::strs(out@);
                out.push(v[i].clone());
                assert(text::strs(out@) =~= kept.push(v@[i as int]@));
            }
        }
        i = i + 1;
    }
    proof {
        assert(all.take(i as int) =~= all);
    }
    out
}

impl Config {
    fn target_name_list(&self) -> (r: Vec<String>)
        ensures
            text::strs(r@) == target_names(self.model()),
    {
        let mut out: Vec<String> = Vec::new();
        let mut i: usize = 0;
        while i < self.targets.len()
            invariant
                i <= self.targets@.len(),
                out@.len() == i,
                forall|k: int| 0 <= k < i ==> (#[trigger] out@[k])@ == self.targets@[k].name@,
            decreases self.targets@.len() - i,
        {
            out.push(self.targets[i].name.clone());
            i = i + 1;
        }
        assert(text::strs(out@) =~= target_names(self.model()));
        out
    }

    /// What applying a file changes: the declared names that are new, those that
    /// are there, and, unless it is merged, the targets that it does not declare.
    pub fn apply_diff(&self, specs: &Vec<TargetSpec>, merge: bool) -> (r: ApplyDiff)
        ensures
            ({
                let before = target_names(self.model());
                let declared = spec_names(target_spec_views(specs@));
                &&& text::strs(r.added@) == interner::firsts(declared).filter(
                    |n: Seq<char>| before.contains(n) == false,
                )
                &&& text::strs(r.updated@) == interner::firsts(declared).filter(
                    |n: Seq<char>| before.contains(n) == true,
                )
                &&& text::strs(r.removed@) == if merge {
                    Seq::<Seq<char>>::empty()
                } else {
                    interner::firsts(before).filter(
                        |n: Seq<char>| declared.contains(n) == false,
                    )
                }
            }),
    {
        let before = self.target_name_list();
        let declared = names_of_specs(specs);
        let added = once_by(&declared, &before, false);
        let updated = once_by(&declared, &before, true);
        let removed: Vec<String> = if merge {
            Vec::new()
        } else {
            once_by(&before, &declared, false)
        };
        proof {
            if merge {
                assert(text::strs(removed@) =~= Seq::<Seq<char>>::empty());
            }
        }
        ApplyDiff { added, updated, removed }
    }

    fn retain_targets(&mut self, names: &Vec<String>)
        ensures
            final(self).same_settings(old(self)),
            final(self).model() == retained(old(self).model(), text::strs(names@)),
    {
        let ghost all = self.model();
        let ghost f = |t: TargetModel| text::strs(names@).contains(t.name);
        let mut out: Vec<Target> = Vec::new();
        let mut i: usize = 0;
        proof {
            reveal(Seq::filter);
            assert(target_views(out@) =~= all.take(0).filter(f));
        }
        while i < self.targets.len()
            invariant
                i <= self.targets@.len(),
                *self == *old(self),
                all == self.model(),
                f == (|t: TargetModel| text::strs(names@).contains(t.name)),
                target_views(out@) == all.take(i as int).filter(f),
            decreases self.targets@.len() - i,
        {
            proof {
                reveal(Seq::filter);
                assert(all.take(i + 1).drop_last() =~= all.take(i as int));
                assert(all.take(i + 1).last() == all[i as int]);
            }
            if text::has_string(names, self.targets[i].name.as_str()) {
                let ghost kept = target_views(out@);
                out.push(copy_target(&self.targets[i]));
                assert(target_views(out@) =~= kept.push(all[i as int]));
            }
            i = i + 1;
        }
        proof {
            assert(all.take(i as int) =~= all);
        }
        self.targets = out;
    }

    /// Applies a file of targets. It is an error if the file declares none.
    pub fn apply_targets(&mut self, specs: &Vec<TargetSpec>, merge: bool) -> (r: Result<
        (),
        String,
    >)
        requires
            all_ids_left(old(self).model(), target_spec_views(specs@), merge),
        ensures
            r is Ok <==> specs.len() > 0,
            r is Ok ==> final(self).same_settings(old(self)) && final(self).model() == applied(
                old(self).model(),
                target_spec_views(specs@),
                merge,
            ),
            r matches Err(e) ==> *final(self) == *old(self) && e@ == "file declares no targets"@,
    {
        if specs.len() == 0 {
            return Err("file declares no targets".to_string());
        }
        let ghost all = target_spec_views(specs@);
        if !merge {
            let names = names_of_specs(specs);
            self.retain_targets(&names);
        }
        let ghost start = self.model();
        assert(start == kept_targets(old(self).model(), all, merge));
        assert(all_ids_left(old(self).model(), all, merge));
        let mut i: usize = 0;
        while i < specs.len()
            invariant
                i <= specs.len(),
                all == target_spec_views(specs@),
                self.same_settings(old(self)),
                self.model() == upserted_all(start, all.take(i as int), merge),
                forall|k: int|
                    0 <= k < all.len() ==> ids_left(
                        #[trigger] upserted_all(start, all.take(k), merge),
                        all[k],
                        merge,
                    ),
            decreases specs.len() - i,
        {
            proof {
                assert(ids_left(
                    upserted_all(start, all.take(i as int), merge),
                    all[i as int],
                    merge,
                ));
                assert(all.take(i + 1).drop_last() =~= all.take(i as int));
                assert(all.take(i + 1).last() == all[i as int]);
            }
            self.upsert_target_full(&specs[i], merge);
            i = i + 1;
        }
        proof {
            assert(all.take(i as int) =~= all);
        }
        Ok(())
    }
}

impl Config {
    /// Adds a whole target that was read elsewhere. Where a target has that name
    /// already the first one is kept, and the result is false.
    pub fn accept_target(&mut self, t: Target) -> (r: bool)
        ensures
            r == !target_names(old(self).model()).contains(t.name@),
            r ==> final(self).same_settings(old(self)) && final(self).targets@ == old(
                self,
            ).targets@.push(t),
            !r ==> *final(self) == *old(self),
    {
        if self.find_place(t.name.as_str()).is_some() {
            return false;
        }
        self.targets.push(t);
        true
    }

    /// Keeps only the targets that are asked for, or all where none is. The
    /// result is what was asked for and is not there.
    pub fn select_targets(&mut self, wanted: &Vec<String>) -> (r: Vec<String>)
        ensures
            final(self).same_settings(old(self)),
            final(self).model() == (if wanted@.len() == 0 {
                old(self).model()
            } else {
                retained(old(self).model(), text::strs(wanted@))
            }),
            text::strs(r@) == text::strs(wanted@).filter(
                |n: Seq<char>| !target_names(old(self).model()).contains(n),
            ),
    {
        let names = self.target_name_list();
        let ghost all = text::strs(wanted@);
        let ghost f = |n: Seq<char>| !target_names(old(self).model()).contains(n);
        let mut missing: Vec<String> = Vec::new();
        let mut i: usize = 0;
        proof {
            reveal(Seq::filter);
            assert(text::strs(missing@) =~= all.take(0).filter(f));
        }
        while i < wanted.len()
            invariant
                i <= wanted.len(),
                *self == *old(self),
                all == text::strs(wanted@),
                text::strs(names@) == target_names(self.model()),
                f == (|n: Seq<char>| !target_names(old(self).model()).contains(n)),
                text::strs(missing@) == all.take(i as int).filter(f),
            decreases wanted.len() - i,
        {
            proof {
                reveal(Seq::filter);
                assert(all.take(i + 1).drop_last() =~= all.take(i as int));
                assert(all.take(i + 1).last() == all[i as int]);
            }
            if !text::has_string(&names, wanted[i].as_str()) {
                text::push_text(&mut missing, wanted[i].as_str());
            }
            i = i + 1;
        }
        proof {
            assert(all.take(i as int) =~= all);
        }
        if wanted.len() > 0 {
            self.retain_targets(wanted);
        }
        missing
    }
}

// ---------------------------------------------------------------------------
// Laws of changes
// ---------------------------------------------------------------------------

proof fn lemma_upserted_names(ts: Seq<TargetModel>, s: TargetSpecModel, merge: bool)
    ensures
        target_names(upserted(ts, s, merge)) == (if target_names(ts).contains(s.name) {
            target_names(ts)
        } else {
            target_names(ts).push(s.name)
        }),
{
    text::lemma_place(target_names(ts), s.name);
    assert(target_names(upserted(ts, s, merge)) =~= (if target_names(ts).contains(s.name) {
        target_names(ts)
    } else {
        target_names(ts).push(s.name)
    }));
}

/// Declaring a target never makes two of one name.
pub proof fn law_upsert_keeps_names_distinct(
    ts: Seq<TargetModel>,
    s: TargetSpecModel,
    merge: bool,
)
    requires
        target_names(ts).no_duplicates(),
    ensures
        target_names(upserted(ts, s, merge)).no_duplicates(),
        target_names(upserted(ts, s, merge)).contains(s.name),
{
    lemma_upserted_names(ts, s, merge);
    let names = target_names(ts);
    if !names.contains(s.name) {
        assert(names.push(s.name)[names.len() as int] == s.name);
        assert forall|i: int, j: int|
            0 <= i < names.len() + 1 && 0 <= j < names.len() + 1 && i != j implies names.push(
            s.name,
        )[i] != names.push(s.name)[j] by {
            if i < names.len() {
                assert(names.contains(names[i]));
            }
            if j < names.len() {
                assert(names.contains(names[j]));
            }
        }
    }
}

/// Every team and every user of a declaration is there.
spec fn all_there(
    teams: Seq<TeamModel>,
    users: Seq<UserModel>,
    declared: Seq<MembersModel>,
) -> bool {
    forall|i: int|
        0 <= i < declared.len() ==> team_names(teams).contains((#[trigger] declared[i]).name)
            && users_there(users, declared[i].users)
}

spec fn users_there(users: Seq<UserModel>, names: Seq<Seq<char>>) -> bool {
    forall|k: int| 0 <= k < names.len() ==> user_names(users).contains(#[trigger] names[k])
}

/// Members that are all there already add nothing.
proof fn lemma_members_there(users: Seq<UserModel>, names: Seq<Seq<char>>, id: i64)
    requires
        users_there(users, names),
    ensures
        with_members(users, names, id) == users,
    decreases names.len(),
{
    if names.len() > 0 {
        let rest = names.drop_last();
        assert forall|k: int| 0 <= k < rest.len() implies user_names(users).contains(
            #[trigger] rest[k],
        ) by {
            assert(rest[k] == names[k]);
        }
        lemma_members_there(users, rest, id);
        assert(user_names(users).contains(names[names.len() - 1]));
    }
}

/// Members are there once they were added, and so is who was there before.
proof fn lemma_members_stay(users: Seq<UserModel>, names: Seq<Seq<char>>, id: i64)
    ensures
        users.is_prefix_of(with_members(users, names, id)),
        users_there(with_members(users, names, id), names),
    decreases names.len(),
{
    let now = with_members(users, names, id);
    if names.len() > 0 {
        let rest = names.drop_last();
        let before = with_members(users, rest, id);
        lemma_members_stay(users, rest, id);
        assert forall|k: int| 0 <= k < names.len() implies user_names(now).contains(
            #[trigger] names[k],
        ) by {
            if k < rest.len() {
                assert(rest[k] == names[k]);
                let j = choose|j: int| 0 <= j < before.len() && user_names(before)[j] == rest[k];
                assert(user_names(now)[j] == names[k]);
            } else if !user_names(before).contains(names.last()) {
                assert(user_names(now)[before.len() as int] == names[k]);
            }
        }
    }
}

proof fn lemma_longer_there(
    teams: Seq<TeamModel>,
    users: Seq<UserModel>,
    teams2: Seq<TeamModel>,
    users2: Seq<UserModel>,
    declared: Seq<MembersModel>,
)
    requires
        all_there(teams, users, declared),
        teams.is_prefix_of(teams2),
        users.is_prefix_of(users2),
    ensures
        all_there(teams2, users2, declared),
{
    assert forall|i: int| 0 <= i < declared.len() implies team_names(teams2).contains(
        (#[trigger] declared[i]).name,
    ) && users_there(users2, declared[i].users) by {
        let d = declared[i];
        let j = choose|j: int| 0 <= j < teams.len() && team_names(teams)[j] == d.name;
        assert(teams2[j] == teams[j]);
        assert(team_names(teams2)[j] == d.name);
        assert forall|k: int| 0 <= k < d.users.len() implies user_names(users2).contains(
            #[trigger] d.users[k],
        ) by {
            let m = choose|m: int| 0 <= m < users.len() && user_names(users)[m] == d.users[k];
            assert(users2[m] == users[m]);
            assert(user_names(users2)[m] == d.users[k]);
        }
    }
}

/// A declaration that is all there adds nothing.
proof fn lemma_merged_there(
    teams: Seq<TeamModel>,
    users: Seq<UserModel>,
    declared: Seq<MembersModel>,
)
    requires
        all_there(teams, users, declared),
    ensures
        merged(teams, users, declared) == (teams, users),
    decreases declared.len(),
{
    if declared.len() > 0 {
        let rest = declared.drop_last();
        let d = declared[declared.len() - 1];
        assert forall|i: int| 0 <= i < rest.len() implies team_names(teams).contains(
            (#[trigger] rest[i]).name,
        ) && users_there(users, rest[i].users) by {
            assert(rest[i] == declared[i]);
        }
        lemma_merged_there(teams, users, rest);
        assert(team_names(teams).contains(d.name) && users_there(users, d.users));
        let k = text::place(team_names(teams), d.name);
        text::lemma_place(team_names(teams), d.name);
        lemma_members_there(users, d.users, teams[k].team_id);
    }
}

/// A declaration is all there once it was merged.
proof fn lemma_merged_stays(
    teams: Seq<TeamModel>,
    users: Seq<UserModel>,
    declared: Seq<MembersModel>,
)
    ensures
        all_there(
            merged(teams, users, declared).0,
            merged(teams, users, declared).1,
            declared,
        ),
    decreases declared.len(),
{
    if declared.len() > 0 {
        let rest = declared.drop_last();
        let d = declared.last();
        let (t, u) = merged(teams, users, rest);
        let (t2, u2) = merged(teams, users, declared);
        lemma_merged_stays(teams, users, rest);
        let k = text::place(team_names(t), d.name);
        text::lemma_place(team_names(t), d.name);
        let id = if k < t.len() {
            t[k].team_id
        } else {
            (top_id(t) + 1) as i64
        };
        lemma_members_stay(u, d.users, id);
        lemma_longer_there(t, u, t2, u2, rest);
        assert(team_names(t2)[k] == d.name);
        lemma_one_more_there(t2, u2, declared);
    }
}

/// A declaration is all there once it was numbered.
proof fn lemma_numbered_there(declared: Seq<MembersModel>)
    ensures
        all_there(numbered_teams(declared), numbered_users(declared), declared),
    decreases declared.len(),
{
    if declared.len() > 0 {
        let rest = declared.drop_last();
        let teams = numbered_teams(declared);
        let users = numbered_users(declared);
        lemma_numbered_there(rest);
        lemma_members_stay(
            numbered_users(rest),
            declared.last().users,
            declared.len() as i64,
        );
        assert(numbered_teams(rest) =~= teams.drop_last());
        lemma_longer_there(numbered_teams(rest), numbered_users(rest), teams, users, rest);
        assert(team_names(teams)[declared.len() - 1] == declared.last().name);
        lemma_one_more_there(teams, users, declared);
    }
}

proof fn lemma_one_more_there(
    teams: Seq<TeamModel>,
    users: Seq<UserModel>,
    declared: Seq<MembersModel>,
)
    requires
        declared.len() > 0,
        all_there(teams, users, declared.drop_last()),
        team_names(teams).contains(declared.last().name),
        users_there(users, declared.last().users),
    ensures
        all_there(teams, users, declared),
{
    let rest = declared.drop_last();
    assert forall|i: int| 0 <= i < declared.len() implies team_names(teams).contains(
        (#[trigger] declared[i]).name,
    ) && users_there(users, declared[i].users) by {
        if i < rest.len() {
            assert(rest[i] == declared[i]);
        }
    }
}

/// A declaration that is all there adds no team.
proof fn lemma_names_there(
    teams: Seq<TeamModel>,
    users: Seq<UserModel>,
    declared: Seq<MembersModel>,
)
    requires
        all_there(teams, users, declared),
    ensures
        with_declared(team_names(teams), declared) == team_names(teams),
    decreases declared.len(),
{
    if declared.len() > 0 {
        let rest = declared.drop_last();
        assert forall|i: int| 0 <= i < rest.len() implies team_names(teams).contains(
            (#[trigger] rest[i]).name,
        ) && users_there(users, rest[i].users) by {
            assert(rest[i] == declared[i]);
        }
        lemma_names_there(teams, users, rest);
        assert(team_names(teams).contains(declared[declared.len() - 1].name));
    }
}

/// Declaring the same target again changes nothing, in replacement and in
/// merging, and neither does merging what was just declared in replacement. It
/// needs no id either.
pub proof fn law_declaring_twice(ts: Seq<TargetModel>, s: TargetSpecModel, merge: bool)
    ensures
        upserted(upserted(ts, s, merge), s, merge) == upserted(ts, s, merge),
        upserted(upserted(ts, s, merge), s, true) == upserted(ts, s, merge),
        s.teams.len() < i64::MAX ==> ids_left(upserted(ts, s, merge), s, true),
{
    let once = upserted(ts, s, merge);
    let i = text::place(target_names(ts), s.name);
    text::lemma_place(target_names(ts), s.name);
    lemma_upserted_names(ts, s, merge);
    let names = target_names(once);
    assert forall|k: int| 0 <= k < i implies #[trigger] names[k] != s.name by {
        assert(names[k] == target_names(ts)[k]);
    }
    text::lemma_place_unique(names, s.name, i);
    lemma_numbered_there(s.teams);
    if i < ts.len() && merge {
        lemma_merged_stays(ts[i].teams, ts[i].users, s.teams);
    }
    lemma_merged_there(once[i].teams, once[i].users, s.teams);
    lemma_names_there(once[i].teams, once[i].users, s.teams);
    lemma_top_id_range(once[i].teams);
    assert(redeclared(once[i], s, true) =~= once[i]);
    if !merge {
        assert(redeclared(once[i], s, false) =~= once[i]);
    }
    assert(upserted(once, s, true) =~= once);
    assert(upserted(once, s, merge) =~= once);
}

/// The team with this id is the first of the declared ones that lists the user.
pub open spec fn first_team_of(declared: Seq<MembersModel>, user: Seq<char>, id: int) -> bool {
    &&& 1 <= id <= declared.len()
    &&& declared[id - 1].users.contains(user)
    &&& forall|j: int| 0 <= j < id - 1 ==> !(#[trigger] declared[j]).users.contains(user)
}

proof fn lemma_members_in_order(
    users: Seq<UserModel>,
    all: Seq<Seq<char>>,
    names: Seq<Seq<char>>,
    id: i64,
)
    requires
        user_names(users) == interner::firsts(all),
    ensures
        user_names(with_members(users, names, id)) == interner::firsts(all + names),
        users.is_prefix_of(with_members(users, names, id)),
        forall|k: int|
            users.len() <= k < with_members(users, names, id).len() ==> (
            #[trigger] with_members(users, names, id)[k]).team_id == id && names.contains(
                with_members(users, names, id)[k].name,
            ),
    decreases names.len(),
{
    let now = with_members(users, names, id);
    if names.len() == 0 {
        assert(all + names =~= all);
    } else {
        let rest = names.drop_last();
        let x = names.last();
        let before = with_members(users, rest, id);
        lemma_members_in_order(users, all, rest, id);
        assert((all + names).drop_last() =~= all + rest);
        assert((all + names).last() == x);
        if !user_names(before).contains(x) {
            assert(user_names(now) =~= user_names(before).push(x));
        }
        assert forall|k: int| users.len() <= k < now.len() implies (#[trigger] now[k]).team_id
            == id && names.contains(now[k].name) by {
            if k < before.len() {
                assert(now[k] == before[k]);
                let j = choose|j: int| 0 <= j < rest.len() && rest[j] == before[k].name;
                assert(names[j] == now[k].name);
            } else {
                assert(names[names.len() - 1] == now[k].name);
            }
        }
    }
}

/// The users of a declaration stand in the order in which it first lists them, each
/// once and on the first team that lists it.
pub proof fn law_users_of_a_declaration(declared: Seq<MembersModel>)
    requires
        declared.len() < i64::MAX,
    ensures
        user_names(numbered_users(declared)) == interner::firsts(all_users(declared)),
        forall|k: int|
            0 <= k < numbered_users(declared).len() ==> first_team_of(
                declared,
                (#[trigger] numbered_users(declared)[k]).name,
                numbered_users(declared)[k].team_id as int,
            ),
    decreases declared.len(),
{
    let users = numbered_users(declared);
    if declared.len() == 0 {
        assert(user_names(users) =~= Seq::empty());
    } else {
        let rest = declared.drop_last();
        let before = numbered_users(rest);
        let id = declared.len() as i64;
        law_users_of_a_declaration(rest);
        lemma_members_in_order(before, all_users(rest), declared.last().users, id);
        interner::lemma_firsts(all_users(declared));
        assert forall|k: int| 0 <= k < users.len() implies first_team_of(
            declared,
            (#[trigger] users[k]).name,
            users[k].team_id as int,
        ) by {
            if k < before.len() {
                assert(users[k] == before[k]);
                assert(first_team_of(rest, before[k].name, before[k].team_id as int));
                assert forall|j: int| 0 <= j < users[k].team_id - 1 implies !(
                #[trigger] declared[j]).users.contains(users[k].name) by {
                    assert(declared[j] == rest[j]);
                }
            } else {
                let x = users[k].name;
                assert forall|j: int| 0 <= j < id - 1 implies !(
                #[trigger] declared[j]).users.contains(x) by {
                    assert(declared[j] == rest[j]);
                    if rest[j].users.contains(x) {
                        lemma_listed(rest, j, x);
                        interner::lemma_firsts(all_users(rest));
                        assert(interner::firsts(all_users(rest)).contains(x));
                        let had = user_names(before);
                        let m = choose|m: int| 0 <= m < had.len() && had[m] == x;
                        assert(users[m] == before[m]);
                        assert(user_names(users)[m] == x);
                        assert(user_names(users)[k] == x);
                    }
                }
            }
        }
    }
}

/// Who a declared team lists is among all the users.
proof fn lemma_listed(declared: Seq<MembersModel>, j: int, user: Seq<char>)
    requires
        0 <= j < declared.len(),
        declared[j].users.contains(user),
    ensures
        all_users(declared).contains(user),
    decreases declared.len(),
{
    let rest = declared.drop_last();
    let head = all_users(rest);
    if j < rest.len() {
        lemma_listed(rest, j, user);
        let m = choose|m: int| 0 <= m < head.len() && head[m] == user;
        assert(all_users(declared)[m] == user);
    } else {
        let us = declared.last().users;
        let m = choose|m: int| 0 <= m < us.len() && us[m] == user;
        assert(all_users(declared)[head.len() + m] == user);
    }
}

/// A file gives the teams and users, with the ids, that declaring the same teams
/// gives; the rest of the target is what the file holds.
pub proof fn law_file_is_a_declaration(f: TargetFileModel, s: TargetSpecModel)
    requires
        s.name == f.name,
        s.teams == f.teams,
    ensures
        upserted(Seq::empty(), s, false).len() == 1,
        upserted(Seq::empty(), s, false)[0].teams == from_file(f).teams,
        upserted(Seq::empty(), s, false)[0].users == from_file(f).users,
        from_file(f).name == f.name,
        from_file(f).path == f.path,
        from_file(f).end_scan == f.end_scan,
        from_file(f).purge_time == f.purge_time,
        from_file(f).overrides == f.overrides,
{
}

proof fn lemma_all_names(ts: Seq<TargetModel>, specs: Seq<TargetSpecModel>, merge: bool)
    ensures
        forall|n: Seq<char>| #[trigger]
            target_names(upserted_all(ts, specs, merge)).contains(n) <==> (target_names(
                ts,
            ).contains(n) || spec_names(specs).contains(n)),
    decreases specs.len(),
{
    let after = target_names(upserted_all(ts, specs, merge));
    if specs.len() > 0 {
        let rest = specs.drop_last();
        let s = specs.last();
        lemma_all_names(ts, rest, merge);
        let mid = upserted_all(ts, rest, merge);
        lemma_upserted_names(mid, s, merge);
        let names = target_names(mid);
        assert forall|n: Seq<char>| #[trigger] after.contains(n) <==> (target_names(ts).contains(n)
            || spec_names(specs).contains(n)) by {
            assert(spec_names(specs).contains(n) <==> (spec_names(rest).contains(n) || n
                == s.name)) by {
                if spec_names(rest).contains(n) {
                    let k = choose|k: int|
                        0 <= k < spec_names(rest).len() && spec_names(rest)[k] == n;
                    assert(spec_names(specs)[k] == n);
                }
                if n == s.name {
                    assert(spec_names(specs)[specs.len() - 1] == n);
                }
                if spec_names(specs).contains(n) {
                    let k = choose|k: int|
                        0 <= k < spec_names(specs).len() && spec_names(specs)[k] == n;
                    if k < rest.len() {
                        assert(spec_names(rest)[k] == n);
                    }
                }
            }
            assert(after.contains(n) <==> (names.contains(n) || n == s.name)) by {
                if !names.contains(s.name) {
                    if names.contains(n) {
                        let k = choose|k: int| 0 <= k < names.len() && names[k] == n;
                        assert(after[k] == n);
                    }
                    assert(after[names.len() as int] == s.name);
                    if after.contains(n) {
                        let k = choose|k: int| 0 <= k < after.len() && after[k] == n;
                        if k < names.len() {
                            assert(names[k] == n);
                        }
                    }
                }
            }
            assert(names.contains(n) <==> (target_names(ts).contains(n) || spec_names(
                rest,
            ).contains(n)));
        }
    } else {
        assert(forall|n: Seq<char>| !spec_names(specs).contains(n));
    }
}

/// After a file was applied in replacement, the targets are those that it
/// declares; after a merge they are those and all that were there.
pub proof fn law_applied_names(ts: Seq<TargetModel>, specs: Seq<TargetSpecModel>, merge: bool)
    ensures
        forall|n: Seq<char>| #[trigger]
            target_names(applied(ts, specs, merge)).contains(n) <==> (spec_names(specs).contains(n)
                || (merge && target_names(ts).contains(n))),
{
    let start = kept_targets(ts, specs, merge);
    lemma_all_names(start, specs, merge);
    if !merge {
        let f = |t: TargetModel| spec_names(specs).contains(t.name);
        assert forall|n: Seq<char>| target_names(start).contains(n) implies spec_names(
            specs,
        ).contains(n) by {
            let k = choose|k: int| 0 <= k < target_names(start).len() && target_names(start)[k] == n;
            ts.lemma_filter_pred(f, k);
        }
    }
}

proof fn lemma_top_is_top(teams: Seq<TeamModel>, i: int)
    requires
        0 <= i < teams.len(),
    ensures
        teams[i].team_id <= top_id(teams),
    decreases teams.len(),
{
    if teams.len() > 1 && i < teams.len() - 1 {
        lemma_top_is_top(teams.drop_last(), i);
    }
}

proof fn lemma_new_id(teams: Seq<TeamModel>, t: TeamModel)
    requires
        team_ids(teams).no_duplicates(),
        t.team_id == top_id(teams) + 1,
    ensures
        team_ids(teams.push(t)).no_duplicates(),
        forall|id: i64|
            team_ids(teams).contains(id) ==> #[trigger] team_ids(teams.push(t)).contains(id),
        team_ids(teams.push(t)).contains(t.team_id),
{
    let now = team_ids(teams.push(t));
    assert forall|i: int, j: int|
        0 <= i < now.len() && 0 <= j < now.len() && i != j implies now[i] != now[j] by {
        if i < teams.len() {
            lemma_top_is_top(teams, i);
            assert(team_ids(teams)[i] == now[i]);
        }
        if j < teams.len() {
            lemma_top_is_top(teams, j);
            assert(team_ids(teams)[j] == now[j]);
        }
    }
    assert forall|id: i64| team_ids(teams).contains(id) implies #[trigger] now.contains(id) by {
        let k = choose|k: int| 0 <= k < team_ids(teams).len() && team_ids(teams)[k] == id;
        assert(now[k] == id);
    }
    assert(now[teams.len() as int] == t.team_id);
}

/// A new team, a new user on one of the teams, and the removal of a user keep a
/// target coherent.
pub proof fn law_additions_keep_coherence(
    t: TargetModel,
    team: Seq<char>,
    user: Seq<char>,
    k: int,
)
    requires
        coherent(t),
        top_id(t.teams) < i64::MAX,
    ensures
        coherent(
            TargetModel {
                teams: t.teams.push(
                    TeamModel { name: team, team_id: (top_id(t.teams) + 1) as i64 },
                ),
                ..t
            },
        ),
        0 <= k < t.teams.len() && !user_names(t.users).contains(user) ==> coherent(
            TargetModel {
                users: t.users.push(UserModel { name: user, team_id: t.teams[k].team_id }),
                ..t
            },
        ),
        coherent(TargetModel { users: without_user(t.users, user), ..t }),
        !user_names(without_user(t.users, user)).contains(user),
{
    lemma_top_id_range(t.teams);
    lemma_new_id(t.teams, TeamModel { name: team, team_id: (top_id(t.teams) + 1) as i64 });
    if 0 <= k < t.teams.len() && !user_names(t.users).contains(user) {
        let us = t.users.push(UserModel { name: user, team_id: t.teams[k].team_id });
        assert(team_ids(t.teams)[k] == t.teams[k].team_id);
        assert forall|i: int, j: int|
            0 <= i < us.len() && 0 <= j < us.len() && i != j implies user_names(us)[i]
            != user_names(us)[j] by {
            if i < t.users.len() {
                assert(user_names(t.users)[i] == user_names(us)[i]);
            }
            if j < t.users.len() {
                assert(user_names(t.users)[j] == user_names(us)[j]);
            }
        }
        let now = TargetModel { users: us, ..t };
        assert forall|i: int| 0 <= i < us.len() implies team_ids(t.teams).contains(
            (#[trigger] us[i]).team_id,
        ) by {
            if i < t.users.len() {
                assert(us[i] == t.users[i]);
            }
        }
        assert(coherent(now));
    }
    let f = |u: UserModel| u.name != user;
    lemma_filtered_users(t, f);
    let kept = without_user(t.users, user);
    if user_names(kept).contains(user) {
        let i = choose|i: int| 0 <= i < user_names(kept).len() && user_names(kept)[i] == user;
        t.users.lemma_filter_pred(f, i);
    }
}

/// A selection of a coherent target's users is coherent.
proof fn lemma_filtered_users(t: TargetModel, f: spec_fn(UserModel) -> bool)
    requires
        coherent(t),
    ensures
        coherent(TargetModel { users: t.users.filter(f), ..t }),
{
    lemma_filtered_names(t.users, f);
    let us = t.users.filter(f);
    assert forall|i: int| 0 <= i < us.len() implies team_ids(t.teams).contains(
        (#[trigger] us[i]).team_id,
    ) by {
        assert(us.contains(us[i]));
        t.users.lemma_filter_contains_rev(f, us[i]);
        let k = choose|k: int| 0 <= k < t.users.len() && t.users[k] == us[i];
        assert(team_ids(t.teams).contains(t.users[k].team_id));
    }
}

proof fn lemma_filtered_names(users: Seq<UserModel>, f: spec_fn(UserModel) -> bool)
    requires
        user_names(users).no_duplicates(),
    ensures
        user_names(users.filter(f)).no_duplicates(),
        forall|n: Seq<char>| #[trigger]
            user_names(users.filter(f)).contains(n) ==> user_names(users).contains(n),
    decreases users.len(),
{
    reveal(Seq::filter);
    if users.len() > 0 {
        let rest = users.drop_last();
        assert(user_names(rest).no_duplicates()) by {
            assert forall|i: int, j: int|
                0 <= i < rest.len() && 0 <= j < rest.len() && i != j implies user_names(rest)[i]
                != user_names(rest)[j] by {
                assert(user_names(users)[i] == user_names(rest)[i]);
                assert(user_names(users)[j] == user_names(rest)[j]);
            }
        }
        lemma_filtered_names(rest, f);
        let before = user_names(rest.filter(f));
        let now = user_names(users.filter(f));
        let x = users.last().name;
        assert forall|n: Seq<char>| user_names(rest).contains(n) implies user_names(
            users,
        ).contains(n) by {
            let k = choose|k: int| 0 <= k < user_names(rest).len() && user_names(rest)[k] == n;
            assert(user_names(users)[k] == n);
        }
        assert(user_names(users)[users.len() - 1] == x);
        if f(users.last()) {
            assert(now =~= before.push(x));
            assert(!before.contains(x)) by {
                if before.contains(x) {
                    assert(user_names(rest).contains(x));
                    let k = choose|k: int|
                        0 <= k < user_names(rest).len() && user_names(rest)[k] == x;
                    assert(user_names(users)[k] == user_names(users)[users.len() - 1]);
                }
            }
            assert forall|n: Seq<char>| #[trigger] now.contains(n) implies user_names(
                users,
            ).contains(n) by {
                let k = choose|k: int| 0 <= k < now.len() && now[k] == n;
                if k < before.len() {
                    assert(before[k] == n);
                    assert(before.contains(n));
                }
            }
            assert forall|i: int, j: int|
                0 <= i < now.len() && 0 <= j < now.len() && i != j implies now[i] != now[j] by {
                if i < before.len() {
                    assert(before.contains(before[i]));
                }
                if j < before.len() {
                    assert(before.contains(before[j]));
                }
            }
        } else {
            assert(now =~= before);
        }
    }
}

/// Merging a declaration drops nothing: the teams and users that were there come
/// first, unchanged, and a coherent target stays coherent.
pub proof fn law_merge_keeps_what_is_there(t: TargetModel, declared: Seq<MembersModel>)
    requires
        coherent(t),
        top_id(t.teams) + added_teams(t.teams, declared) <= i64::MAX,
    ensures
        t.teams.is_prefix_of(merged(t.teams, t.users, declared).0),
        t.users.is_prefix_of(merged(t.teams, t.users, declared).1),
        coherent(
            TargetModel {
                teams: merged(t.teams, t.users, declared).0,
                users: merged(t.teams, t.users, declared).1,
                ..t
            },
        ),
    decreases declared.len(),
{
    if declared.len() > 0 {
        let rest = declared.drop_last();
        let d = declared.last();
        lemma_with_declared_grows(team_names(t.teams), declared, declared.len() - 1);
        assert(declared.take(declared.len() - 1) =~= rest);
        law_merge_keeps_what_is_there(t, rest);
        lemma_merged_top(t.teams, t.users, rest);
        let (ts, us) = merged(t.teams, t.users, rest);
        let (ts2, us2) = merged(t.teams, t.users, declared);
        let k = text::place(team_names(ts), d.name);
        text::lemma_place(team_names(ts), d.name);
        let id = if k < ts.len() {
            ts[k].team_id
        } else {
            (top_id(ts) + 1) as i64
        };
        lemma_top_id_range(ts);
        if k >= ts.len() {
            lemma_new_id(ts, TeamModel { name: d.name, team_id: id });
        } else {
            assert(team_ids(ts)[k] == id);
        }
        assert(team_ids(ts2).contains(id));
        lemma_with_members(us, d.users, id);
        assert forall|i: int| 0 <= i < us2.len() implies team_ids(ts2).contains(
            (#[trigger] us2[i]).team_id,
        ) by {
            if i < us.len() {
                assert(us2[i] == us[i]);
                assert(team_ids(ts).contains(us[i].team_id));
            }
        }
    }
}

/// Dropping a team whose name no other team has drops its users with it and
/// leaves the target coherent.
pub proof fn law_removed_team_leaves_no_users(t: TargetModel, team: Seq<char>)
    requires
        coherent(t),
        team_names(t.teams).no_duplicates(),
        team_names(t.teams).contains(team),
    ensures
        ({
            let k = text::place(team_names(t.teams), team);
            let left = TargetModel {
                teams: without_team(t.teams, team),
                users: without_members(t.users, t.teams[k].team_id),
                ..t
            };
            &&& !team_names(left.teams).contains(team)
            &&& coherent(left)
        }),
{
    let k = text::place(team_names(t.teams), team);
    text::lemma_place(team_names(t.teams), team);
    let id = t.teams[k].team_id;
    let f = |m: TeamModel| m.name != team;
    let g = |u: UserModel| u.team_id != id;
    let teams = without_team(t.teams, team);
    let users = without_members(t.users, id);
    lemma_filtered_users(t, g);
    lemma_filtered_ids(t.teams, f);
    if team_names(teams).contains(team) {
        let i = choose|i: int| 0 <= i < team_names(teams).len() && team_names(teams)[i] == team;
        t.teams.lemma_filter_pred(f, i);
    }
    assert forall|i: int| 0 <= i < users.len() implies team_ids(teams).contains(
        (#[trigger] users[i]).team_id,
    ) by {
        t.users.lemma_filter_pred(g, i);
        assert(users.contains(users[i]));
        t.users.lemma_filter_contains_rev(g, users[i]);
        let own = users[i].team_id;
        assert(team_ids(t.teams).contains(own)) by {
            let j = choose|j: int| 0 <= j < t.users.len() && t.users[j] == users[i];
            assert(team_ids(t.teams).contains(t.users[j].team_id));
        }
        let m = choose|m: int| 0 <= m < team_ids(t.teams).len() && team_ids(t.teams)[m] == own;
        assert(m != k);
        assert(team_names(t.teams)[m] != team_names(t.teams)[k]);
        assert(f(t.teams[m]));
        t.teams.lemma_filter_contains(f, m);
        let p = choose|p: int| 0 <= p < teams.len() && teams[p] == t.teams[m];
        assert(team_ids(teams)[p] == own);
    }
}

proof fn lemma_filtered_ids(teams: Seq<TeamModel>, f: spec_fn(TeamModel) -> bool)
    requires
        team_ids(teams).no_duplicates(),
    ensures
        team_ids(teams.filter(f)).no_duplicates(),
        forall|n: i64| #[trigger]
            team_ids(teams.filter(f)).contains(n) ==> team_ids(teams).contains(n),
    decreases teams.len(),
{
    reveal(Seq::filter);
    if teams.len() > 0 {
        let rest = teams.drop_last();
        assert(team_ids(rest).no_duplicates()) by {
            assert forall|i: int, j: int|
                0 <= i < rest.len() && 0 <= j < rest.len() && i != j implies team_ids(rest)[i]
                != team_ids(rest)[j] by {
                assert(team_ids(teams)[i] == team_ids(rest)[i]);
                assert(team_ids(teams)[j] == team_ids(rest)[j]);
            }
        }
        lemma_filtered_ids(rest, f);
        let before = team_ids(rest.filter(f));
        let now = team_ids(teams.filter(f));
        let x = teams.last().team_id;
        assert forall|n: i64| team_ids(rest).contains(n) implies team_ids(teams).contains(n) by {
            let k = choose|k: int| 0 <= k < team_ids(rest).len() && team_ids(rest)[k] == n;
            assert(team_ids(teams)[k] == n);
        }
        assert(team_ids(teams)[teams.len() - 1] == x);
        if f(teams.last()) {
            assert(now =~= before.push(x));
            assert(!before.contains(x)) by {
                if before.contains(x) {
                    assert(team_ids(rest).contains(x));
                    let k = choose|k: int| 0 <= k < team_ids(rest).len() && team_ids(rest)[k] == x;
                    assert(team_ids(teams)[k] == team_ids(teams)[teams.len() - 1]);
                }
            }
            assert forall|n: i64| #[trigger] now.contains(n) implies team_ids(teams).contains(
                n,
            ) by {
                let k = choose|k: int| 0 <= k < now.len() && now[k] == n;
                if k < before.len() {
                    assert(before[k] == n);
                    assert(before.contains(n));
                }
            }
            assert forall|i: int, j: int|
                0 <= i < now.len() && 0 <= j < now.len() && i != j implies now[i] != now[j] by {
                if i < before.len() {
                    assert(before.contains(before[i]));
                }
                if j < before.len() {
                    assert(before.contains(before[j]));
                }
            }
        } else {
            assert(now =~= before);
        }
    }
}

// ---------------------------------------------------------------------------
// Laws on changes
// ---------------------------------------------------------------------------

proof fn lemma_kept<A>(s: Seq<A>, f: spec_fn(A) -> bool, x: A)
    ensures
        s.filter(f).contains(x) <==> s.contains(x) && f(x),
    decreases s.len(),
{
    reveal(Seq::filter);
    if s.len() > 0 {
        let head = s.drop_last();
        lemma_kept(head, f, x);
        let before = head.filter(f);
        let now = s.filter(f);
        if before.contains(x) {
            let i = choose|i: int| 0 <= i < before.len() && before[i] == x;
            assert(now[i] == x);
            let j = choose|j: int| 0 <= j < head.len() && head[j] == x;
            assert(s[j] == x);
        }
        if now.contains(x) {
            let i = choose|i: int| 0 <= i < now.len() && now[i] == x;
            if i < before.len() {
                assert(before[i] == x);
            } else {
                assert(s[s.len() - 1] == x);
            }
        }
        if s.contains(x) && f(x) {
            let j = choose|j: int| 0 <= j < s.len() && s[j] == x;
            if j < head.len() {
                assert(head[j] == x);
            } else {
                assert(now[now.len() - 1] == x);
            }
        }
    }
}

/// A new target has its name, its path and its limits, and nothing else.
pub proof fn law_new_targets_are_bare(
    name: Seq<char>,
    path: Seq<char>,
    end_scan: Option<Seq<char>>,
    purge_time: Option<i64>,
)
    ensures
        ({
            let t = new_target(name, path, end_scan, purge_time);
            &&& t.name == name
            &&& t.path == path
            &&& t.end_scan == end_scan
            &&& t.purge_time == purge_time
            &&& t.teams.len() == 0
            &&& t.users.len() == 0
            &&& t.overrides == no_overrides()
        }),
{
}

/// A new team comes behind the others, under an id above all of theirs, and without
/// users; nothing else of the target changes.
pub proof fn law_new_teams(t: TargetModel, team: Seq<char>, i: int)
    requires
        top_id(t.teams) < i64::MAX,
    ensures
        ({
            let now = with_new_team(t, team);
            &&& now.teams.drop_last() == t.teams
            &&& now.teams.last().name == team
            &&& 0 <= i < t.teams.len() ==> t.teams[i].team_id < now.teams.last().team_id
            &&& t.teams.len() == 0 ==> now.teams.last().team_id == 1
            &&& now.users == t.users
            &&& now.name == t.name && now.path == t.path && now.end_scan == t.end_scan
                && now.purge_time == t.purge_time && now.overrides == t.overrides
        }),
{
    lemma_top_id_range(t.teams);
    if 0 <= i < t.teams.len() {
        lemma_top_is_top(t.teams, i);
    }
    assert(with_new_team(t, team).teams.drop_last() =~= t.teams);
}

/// A new user comes behind the others, on the team that it was put on; nothing else of
/// the target changes.
pub proof fn law_new_users(t: TargetModel, user: Seq<char>, k: int)
    requires
        0 <= k < t.teams.len(),
    ensures
        ({
            let now = with_new_user(t, user, k);
            &&& now.users.drop_last() == t.users
            &&& now.users.last().name == user
            &&& now.users.last().team_id == t.teams[k].team_id
            &&& now.teams == t.teams
            &&& now.name == t.name && now.path == t.path && now.end_scan == t.end_scan
                && now.purge_time == t.purge_time && now.overrides == t.overrides
        }),
{
    assert(with_new_user(t, user, k).users.drop_last() =~= t.users);
}

/// Removing a user drops the entries of that name and no others; removing a team drops
/// the teams of that name and the users with its id and no others. Nothing else of the
/// target changes.
pub proof fn law_removals(
    t: TargetModel,
    user: Seq<char>,
    k: int,
    team: Seq<char>,
    u: UserModel,
    m: TeamModel,
)
    ensures
        ({
            let now = without_the_user(t, user);
            &&& now.users.contains(u) <==> t.users.contains(u) && u.name != user
            &&& now.teams == t.teams
            &&& now.name == t.name && now.path == t.path && now.end_scan == t.end_scan
                && now.purge_time == t.purge_time && now.overrides == t.overrides
        }),
        ({
            let now = without_the_team(t, k, team);
            &&& now.users.contains(u) <==> t.users.contains(u) && u.team_id != t.teams[k].team_id
            &&& now.teams.contains(m) <==> t.teams.contains(m) && m.name != team
            &&& now.name == t.name && now.path == t.path && now.end_scan == t.end_scan
                && now.purge_time == t.purge_time && now.overrides == t.overrides
        }),
{
    lemma_kept(t.users, |x: UserModel| x.name != user, u);
    lemma_kept(t.users, |x: UserModel| x.team_id != t.teams[k].team_id, u);
    lemma_kept(t.teams, |x: TeamModel| x.name != team, m);
}

/// A declaration reaches the first target of its name, and no other: that target gets the
/// declared path and limits and keeps its name and its own settings. Where no target has
/// the name a new one comes behind the others, without settings of its own.
pub proof fn law_declarations_reach_one_target(
    ts: Seq<TargetModel>,
    s: TargetSpecModel,
    merge: bool,
    i: int,
    k: int,
)
    requires
        0 <= k < ts.len(),
    ensures
        0 <= i < ts.len() && ts[i].name == s.name && (forall|j: int|
            0 <= j < i ==> (#[trigger] ts[j]).name != s.name) ==> {
            let now = upserted(ts, s, merge);
            &&& now.len() == ts.len()
            &&& k != i ==> now[k] == ts[k]
            &&& now[i].name == s.name
            &&& now[i].path == s.path
            &&& now[i].end_scan == s.end_scan
            &&& now[i].purge_time == s.purge_time
            &&& now[i].overrides == ts[i].overrides
        },
        (forall|j: int| 0 <= j < ts.len() ==> (#[trigger] ts[j]).name != s.name) ==> {
            let now = upserted(ts, s, merge);
            &&& now.len() == ts.len() + 1
            &&& now[k] == ts[k]
            &&& now.last().name == s.name
            &&& now.last().path == s.path
            &&& now.last().end_scan == s.end_scan
            &&& now.last().purge_time == s.purge_time
            &&& now.last().overrides == no_overrides()
        },
{
    let names = target_names(ts);
    text::lemma_place(names, s.name);
    if 0 <= i < ts.len() && ts[i].name == s.name && (forall|j: int|
        0 <= j < i ==> (#[trigger] ts[j]).name != s.name) {
        assert forall|j: int| 0 <= j < i implies #[trigger] names[j] != s.name by {
            assert(ts[j].name != s.name);
        }
        text::lemma_place_unique(names, s.name, i);
    }
    if forall|j: int| 0 <= j < ts.len() ==> (#[trigger] ts[j]).name != s.name {
        let p = text::place(names, s.name);
        if p < ts.len() {
            assert(names[p] == s.name);
            assert(ts[p].name == s.name);
        }
    }
}

/// Selecting targets keeps those whose names are asked for, and no others.
pub proof fn law_selected_targets(ts: Seq<TargetModel>, names: Seq<Seq<char>>, t: TargetModel)
    ensures
        retained(ts, names).contains(t) <==> ts.contains(t) && names.contains(t.name),
{
    lemma_kept(ts, |x: TargetModel| names.contains(x.name), t);
}

/// Of several files that declare a target of one name the first that is read counts: it
/// is loaded, and the later ones are not.
pub proof fn law_first_file_of_a_name_counts(files: Seq<TargetFileModel>, k: int)
    requires
        0 <= k < files.len(),
        forall|j: int| 0 <= j < k ==> (#[trigger] files[j]).name != files[k].name,
    ensures
        loaded(files).contains(from_file(files[k])),
        forall|n: Seq<char>| #[trigger]
            target_names(loaded(files)).contains(n) <==> exists|j: int|
                0 <= j < files.len() && (#[trigger] files[j]).name == n,
    decreases files.len(),
{
    lemma_loaded_names(files);
    if k < files.len() - 1 {
        let head = files.drop_last();
        assert(head[k] == files[k]);
        assert forall|j: int| 0 <= j < k implies (#[trigger] head[j]).name != head[k].name by {
            assert(head[j] == files[j]);
        }
        law_first_file_of_a_name_counts(head, k);
        let before = loaded(head);
        let i = choose|i: int| 0 <= i < before.len() && before[i] == from_file(files[k]);
        assert(loaded(files)[i] == from_file(files[k]));
    } else {
        let head = files.drop_last();
        let before = loaded(head);
        lemma_loaded_names(head);
        if target_names(before).contains(files[k].name) {
            let j = choose|j: int| 0 <= j < head.len() && (#[trigger] head[j]).name == files[k].name;
            assert(files[j].name == files[k].name);
        }
        assert(loaded(files)[before.len() as int] == from_file(files[k]));
    }
}

proof fn lemma_loaded_names(files: Seq<TargetFileModel>)
    ensures
        forall|n: Seq<char>| #[trigger]
            target_names(loaded(files)).contains(n) <==> exists|j: int|
                0 <= j < files.len() && (#[trigger] files[j]).name == n,
    decreases files.len(),
{
    if files.len() > 0 {
        let head = files.drop_last();
        let e = files.last();
        lemma_loaded_names(head);
        let before = target_names(loaded(head));
        let now = target_names(loaded(files));
        assert(files[files.len() - 1] == e);
        assert(from_file(e).name == e.name);
        if before.contains(e.name) {
            assert(now =~= before);
        } else {
            assert(now =~= before.push(e.name));
        }
        assert forall|n: Seq<char>| #[trigger] now.contains(n) <==> exists|j: int|
            0 <= j < files.len() && (#[trigger] files[j]).name == n by {
            assert(now.contains(n) <==> before.contains(n) || n == e.name) by {
                if before.contains(n) {
                    let i = choose|i: int| 0 <= i < before.len() && before[i] == n;
                    assert(now[i] == n);
                }
                if n == e.name && !before.contains(n) {
                    assert(now[before.len() as int] == n);
                }
                if now.contains(n) {
                    let i = choose|i: int| 0 <= i < now.len() && now[i] == n;
                    if i < before.len() {
                        assert(before[i] == n);
                    }
                }
            }
            if before.contains(n) {
                let j = choose|j: int| 0 <= j < head.len() && (#[trigger] head[j]).name == n;
                assert(files[j].name == n);
            }
            if exists|j: int| 0 <= j < files.len() && (#[trigger] files[j]).name == n {
                let j = choose|j: int| 0 <= j < files.len() && (#[trigger] files[j]).name == n;
                if j < head.len() {
                    assert(head[j].name == n);
                }
            }
        }
    }
}

} // verus!
