//! What the commands decide: teams from the command line, batch submission,
//! synchronisation, status lines, and the lists that reports show.

use crate::config::LsfConfig;
use crate::config::MembersModel;
use crate::config::TeamSpec;
use crate::config;
use crate::interner;
use crate::paths;
use crate::text;
use vstd::prelude::*;
use vstd::slice::slice_subrange;

verus! {

// ---------------------------------------------------------------------------
// Teams on the command line
// ---------------------------------------------------------------------------

/// A user list file that a team names: its text, or why it cannot be read.
pub struct UserList {
    pub path: String,
    pub text: Result<String, String>,
}

/// A character that separates users in a list, as a comma.
pub open spec fn as_comma(c: char) -> char {
    if text::is_space_char(c) {
        ','
    } else {
        c
    }
}

/// The pieces between separators, trimmed, without those that are empty.
pub open spec fn trimmed_pieces(s: Seq<char>) -> Seq<Seq<char>> {
    text::split(s, ',').filter_map(
        |p: Seq<char>|
            if text::trim(p).len() == 0 {
                None
            } else {
                Some(text::trim(p))
            },
    )
}

/// The users on one line of a list: a `#` starts a comment.
pub open spec fn line_users(line: Seq<char>) -> Seq<Seq<char>> {
    trimmed_pieces(text::split(line, '#')[0].map_values(|c: char| as_comma(c)))
}

/// The users on all lines.
pub open spec fn lines_users(ls: Seq<Seq<char>>) -> Seq<Seq<char>>
    decreases ls.len(),
{
    if ls.len() == 0 {
        Seq::empty()
    } else {
        lines_users(ls.drop_last()) + line_users(ls.last())
    }
}

/// The users of a list, each once, in the order in which they appear.
pub open spec fn user_list(content: Seq<char>) -> Seq<Seq<char>> {
    interner::firsts(lines_users(text::lines(content)))
}

fn pieces_of(s: &[char]) -> (r: Vec<String>)
    ensures
        text::strs(r@) == trimmed_pieces(s@),
{
    let parts = text::split_chars(s, ',');
    let ghost all = text::split(s@, ',');
    let ghost f = |p: Seq<char>|
        if text::trim(p).len() == 0 {
            None
        } else {
            Some(text::trim(p))
        };
    let mut out: Vec<String> = Vec::new();
    let mut i: usize = 0;
    proof {
        assert(text::rows(parts@).len() == parts@.len());
        reveal(Seq::filter_map);
        assert(text::strs(out@) =~= all.take(0).filter_map(f));
    }
    while i < parts.len()
        invariant
            i <= parts@.len(),
            all == text::rows(parts@),
            f == (|p: Seq<char>|
                if text::trim(p).len() == 0 {
                    None
                } else {
                    Some(text::trim(p))
                }),
            text::strs(out@) == all.take(i as int).filter_map(f),
        decreases parts@.len() - i,
    {
        proof {
            all.lemma_filter_map_take_succ(f, i as int);
            assert(all[i as int] == parts@[i as int]@);
        }
        let t = text::trim_chars(&parts[i]);
        if t.len() > 0 {
            let s = text::from_chars(t);
            let ghost before = text::strs(out@);
            out.push(s);
            assert(text::strs(out@) =~= before.push(s@));
            assert(before + seq![s@] =~= before.push(s@));
        } else {
            assert(text::strs(out@) + Seq::<Seq<char>>::empty() =~= text::strs(out@));
        }
        i = i + 1;
    }
    proof {
        assert(all.take(i as int) =~= all);
    }
    out
}

fn users_on_line(line: &[char]) -> (r: Vec<String>)
    ensures
        text::strs(r@) == line_users(line@),
{
    let parts = text::split_chars(line, '#');
    proof {
        text::lemma_split_nonempty(line@, '#');
        assert(text::rows(parts@).len() == parts@.len());
        assert(text::rows(parts@)[0] == parts@[0]@);
    }
    let head: &Vec<char> = &parts[0];
    let mut v: Vec<char> = Vec::new();
    let mut i: usize = 0;
    while i < head.len()
        invariant
            i <= head.len(),
            v@.len() == i,
            forall|k: int| 0 <= k < i ==> #[trigger] v@[k] == as_comma(head@[k]),
        decreases head.len() - i,
    {
        let c: char = head[i];
        v.push(
            if text::is_space(c) {
                ','
            } else {
                c
            },
        );
        i = i + 1;
    }
    assert(v@ =~= head@.map_values(|c: char| as_comma(c)));
    pieces_of(&v)
}

proof fn lemma_firsts_push(s: Seq<Seq<char>>, x: Seq<char>)
    ensures
        interner::firsts(s.push(x)) == (if interner::firsts(s).contains(x) {
            interner::firsts(s)
        } else {
            interner::firsts(s).push(x)
        }),
{
    assert(s.push(x).drop_last() =~= s);
    interner::lemma_firsts(s);
}

/// Adds the names of `more` that are new.
fn add_new(users: &mut Vec<String>, more: &Vec<String>, Ghost(had): Ghost<Seq<Seq<char>>>)
    requires
        text::strs(old(users)@) == interner::firsts(had),
    ensures
        text::strs(final(users)@) == interner::firsts(had + text::strs(more@)),
{
    let mut i: usize = 0;
    let ghost all = text::strs(more@);
    assert(had + all.take(0) =~= had);
    while i < more.len()
        invariant
            i <= more.len(),
            all == text::strs(more@),
            text::strs(users@) == interner::firsts(had + all.take(i as int)),
        decreases more.len() - i,
    {
        text::push_new(users, more[i].as_str());
        proof {
            lemma_firsts_push(had + all.take(i as int), all[i as int]);
            assert((had + all.take(i as int)).push(all[i as int]) =~= had + all.take(i + 1));
        }
        i = i + 1;
    }
    assert(all.take(i as int) =~= all);
}

/// The users of a list: they are separated by line ends, commas and white space,
/// and a `#` starts a comment.
pub fn read_user_list(content: &str) -> (r: Vec<String>)
    ensures
        text::strs(r@) == user_list(content@),
{
    let cs = text::to_chars(content);
    let ls = text::line_chars(&cs);
    let ghost all = text::lines(content@);
    let mut out: Vec<String> = Vec::new();
    let mut i: usize = 0;
    proof {
        assert(text::rows(ls@).len() == ls@.len());
        assert(all.take(0) =~= Seq::<Seq<char>>::empty());
        assert(text::strs(out@) =~= interner::firsts(lines_users(all.take(0))));
    }
    while i < ls.len()
        invariant
            i <= ls@.len(),
            all == text::rows(ls@),
            text::strs(out@) == interner::firsts(lines_users(all.take(i as int))),
        decreases ls@.len() - i,
    {
        proof {
            assert(all.take(i + 1).drop_last() =~= all.take(i as int));
            assert(all.take(i + 1).last() == ls@[i as int]@);
        }
        let more = users_on_line(&ls[i]);
        add_new(&mut out, &more, Ghost(lines_users(all.take(i as int))));
        i = i + 1;
    }
    assert(all.take(i as int) =~= all);
    out
}

/// The text of a user list file, or why it cannot be read: the first entry for
/// the path counts.
pub open spec fn list_at(files: Seq<UserList>, path: Seq<char>) -> Option<Result<
    Seq<char>,
    Seq<char>,
>>
    decreases files.len(),
{
    if files.len() == 0 {
        None
    } else if files[0].path@ == path {
        match files[0].text {
            Ok(t) => Some(Ok(t@)),
            Err(e) => Some(Err(e@)),
        }
    } else {
        list_at(files.drop_first(), path)
    }
}

/// The name and the users of one `NAME=USERS`.
pub open spec fn team_parts(item: Seq<char>) -> (Seq<char>, Seq<char>) {
    let i = text::find(item, '=');
    if i < item.len() {
        (text::trim(item.take(i)), item.skip(i + 1))
    } else {
        (text::trim(item), Seq::empty())
    }
}

/// The users that the pieces of a team stand for: a piece is a user, or `@` and
/// the path of a list. A list that is not among the files is an error, as one that
/// cannot be read is.
pub open spec fn expanded(pieces: Seq<Seq<char>>, files: Seq<UserList>) -> Result<
    Seq<Seq<char>>,
    Seq<char>,
>
    decreases pieces.len(),
{
    if pieces.len() == 0 {
        Ok(Seq::empty())
    } else {
        match expanded(pieces.drop_last(), files) {
            Err(e) => Err(e),
            Ok(users) => {
                let p = pieces.last();
                if p.len() > 0 && p[0] == '@' {
                    match list_at(files, p.skip(1)) {
                        Some(Ok(content)) => Ok(users + user_list(content)),
                        Some(Err(e)) => Err("read user list '"@ + p.skip(1) + "': "@ + e),
                        None => Err("read user list '"@ + p.skip(1) + "': not read"@),
                    }
                } else {
                    Ok(users.push(p))
                }
            },
        }
    }
}

/// The names of declared teams.
pub open spec fn declared_names(teams: Seq<MembersModel>) -> Seq<Seq<char>> {
    Seq::new(teams.len(), |i: int| teams[i].name)
}

/// The teams that `NAME=USERS` items declare, or what is wrong with the first
/// item that is wrong.
pub open spec fn parsed_teams(raw: Seq<Seq<char>>, files: Seq<UserList>) -> Result<
    Seq<MembersModel>,
    Seq<char>,
>
    decreases raw.len(),
{
    if raw.len() == 0 {
        Ok(Seq::empty())
    } else {
        match parsed_teams(raw.drop_last(), files) {
            Err(e) => Err(e),
            Ok(teams) => {
                let (name, users) = team_parts(raw.last());
                if name.len() == 0 {
                    Err("invalid --team '"@ + raw.last() + "': empty team name"@)
                } else if declared_names(teams).contains(name) {
                    Err("duplicate --team '"@ + name + "'"@)
                } else {
                    match expanded(trimmed_pieces(users), files) {
                        Err(e) => Err(e),
                        Ok(us) => Ok(teams.push(MembersModel { name, users: interner::firsts(us) })),
                    }
                }
            },
        }
    }
}

fn find_list<'a>(files: &'a Vec<UserList>, path: &str) -> (r: Option<&'a UserList>)
    ensures
        match r {
            Some(l) => list_at(files@, path@) == Some(
                match l.text {
                    Ok(t) => Ok::<Seq<char>, Seq<char>>(t@),
                    Err(e) => Err::<Seq<char>, Seq<char>>(e@),
                },
            ),
            None => list_at(files@, path@) is None,
        },
{
    let mut i: usize = 0;
    assert(files@.skip(0) =~= files@);
    while i < files.len()
        invariant
            i <= files.len(),
            list_at(files@.skip(i as int), path@) == list_at(files@, path@),
        decreases files.len() - i,
    {
        proof {
            assert(files@.skip(i as int)[0] == files@[i as int]);
            assert(files@.skip(i as int).drop_first() =~= files@.skip(i + 1));
        }
        if text::str_eq(files[i].path.as_str(), path) {
            return Some(&files[i]);
        }
        i = i + 1;
    }
    assert(files@.skip(i as int).len() == 0);
    None
}

fn expand(pieces: &Vec<String>, files: &Vec<UserList>) -> (r: Result<Vec<String>, String>)
    ensures
        match r {
            Ok(us) => expanded(text::strs(pieces@), files@) is Ok && text::strs(us@) == interner::firsts(
                expanded(text::strs(pieces@), files@)->Ok_0,
            ),
            Err(e) => expanded(text::strs(pieces@), files@) == Err::<Seq<Seq<char>>, Seq<char>>(e@),
        },
{
    let ghost all = text::strs(pieces@);
    let mut out: Vec<String> = Vec::new();
    let mut i: usize = 0;
    proof {
        assert(all.take(0) =~= Seq::<Seq<char>>::empty());
        assert(text::strs(out@) =~= interner::firsts(Seq::<Seq<char>>::empty()));
    }
    while i < pieces.len()
        invariant
            i <= pieces.len(),
            all == text::strs(pieces@),
            expanded(all.take(i as int), files@) is Ok,
            text::strs(out@) == interner::firsts(expanded(all.take(i as int), files@)->Ok_0),
        decreases pieces.len() - i,
    {
        let ghost had = expanded(all.take(i as int), files@)->Ok_0;
        proof {
            assert(all.take(i + 1).drop_last() =~= all.take(i as int));
            assert(all.take(i + 1).last() == all[i as int]);
        }
        let p = text::to_chars(pieces[i].as_str());
        if p.len() > 0 && p[0] == '@' {
            let rest = slice_subrange(&p, 1, p.len());
            assert(rest@ =~= p@.skip(1));
            let path = text::from_chars(rest);
            match find_list(files, path.as_str()) {
                Some(l) => match &l.text {
                    Ok(t) => {
                        let more = read_user_list(t.as_str());
                        add_new(&mut out, &more, Ghost(had));
                    },
                    Err(e) => {
                        let msg = text::cat4("read user list '", path.as_str(), "': ", e.as_str());
                        proof {
                            lemma_stuck(all, files@, i + 1);
                        }
                        return Err(msg);
                    },
                },
                None => {
                    let msg = text::cat3("read user list '", path.as_str(), "': not read");
                    proof {
                        lemma_stuck(all, files@, i + 1);
                    }
                    return Err(msg);
                },
            }
        } else {
            text::push_new(&mut out, pieces[i].as_str());
            proof {
                lemma_firsts_push(had, all[i as int]);
            }
        }
        i = i + 1;
    }
    assert(all.take(i as int) =~= all);
    Ok(out)
}

/// An error among the first pieces is the error of all.
proof fn lemma_stuck(pieces: Seq<Seq<char>>, files: Seq<UserList>, n: int)
    requires
        0 <= n <= pieces.len(),
        expanded(pieces.take(n), files) is Err,
    ensures
        expanded(pieces, files) == expanded(pieces.take(n), files),
    decreases pieces.len(),
{
    if n == pieces.len() {
        assert(pieces.take(n) =~= pieces);
    } else {
        assert(pieces.drop_last().take(n) =~= pieces.take(n));
        lemma_stuck(pieces.drop_last(), files, n);
    }
}

proof fn lemma_teams_stuck(raw: Seq<Seq<char>>, files: Seq<UserList>, n: int)
    requires
        0 <= n <= raw.len(),
        parsed_teams(raw.take(n), files) is Err,
    ensures
        parsed_teams(raw, files) == parsed_teams(raw.take(n), files),
    decreases raw.len(),
{
    if n == raw.len() {
        assert(raw.take(n) =~= raw);
    } else {
        assert(raw.drop_last().take(n) =~= raw.take(n));
        lemma_teams_stuck(raw.drop_last(), files, n);
    }
}

fn split_team(item: &str) -> (r: (String, Vec<char>))
    ensures
        team_parts(item@) == (r.0@, r.1@),
{
    let cs = text::to_chars(item);
    proof {
        text::lemma_find(cs@, '=');
    }
    let i = text::find_char(&cs, '=');
    if i < cs.len() {
        let head = slice_subrange(&cs, 0, i);
        let tail = slice_subrange(&cs, i + 1, cs.len());
        assert(head@ =~= cs@.take(i as int));
        assert(tail@ =~= cs@.skip(i + 1));
        let name = text::trim_chars(head);
        (text::from_chars(name), vstd::slice::slice_to_vec(tail))
    } else {
        let name = text::trim_chars(&cs);
        let none: Vec<char> = Vec::new();
        assert(none@ =~= Seq::<char>::empty());
        (text::from_chars(name), none)
    }
}

/// The paths of the user lists that the teams of a command name, in order.
pub open spec fn list_paths(raw: Seq<Seq<char>>) -> Seq<Seq<char>>
    decreases raw.len(),
{
    if raw.len() == 0 {
        Seq::empty()
    } else {
        list_paths(raw.drop_last()) + trimmed_pieces(team_parts(raw.last()).1).filter_map(
            |p: Seq<char>|
                if p.len() > 0 && p[0] == '@' {
                    Some(p.skip(1))
                } else {
                    None
                },
        )
    }
}

fn paths_among(pieces: &Vec<String>) -> (r: Vec<String>)
    ensures
        text::strs(r@) == text::strs(pieces@).filter_map(
            |p: Seq<char>|
                if p.len() > 0 && p[0] == '@' {
                    Some(p.skip(1))
                } else {
                    None
                },
        ),
{
    let ghost all = text::strs(pieces@);
    let ghost f = |p: Seq<char>|
        if p.len() > 0 && p[0] == '@' {
            Some(p.skip(1))
        } else {
            None
        };
    let mut out: Vec<String> = Vec::new();
    let mut i: usize = 0;
    proof {
        reveal(Seq::filter_map);
        assert(text::strs(out@) =~= all.take(0).filter_map(f));
    }
    while i < pieces.len()
        invariant
            i <= pieces.len(),
            all == text::strs(pieces@),
            f == (|p: Seq<char>|
                if p.len() > 0 && p[0] == '@' {
                    Some(p.skip(1))
                } else {
                    None
                }),
            text::strs(out@) == all.take(i as int).filter_map(f),
        decreases pieces.len() - i,
    {
        proof {
            all.lemma_filter_map_take_succ(f, i as int);
        }
        let p = text::to_chars(pieces[i].as_str());
        if p.len() > 0 && p[0] == '@' {
            let rest = slice_subrange(&p, 1, p.len());
            assert(rest@ =~= p@.skip(1));
            let s = text::from_chars(rest);
            let ghost before = text::strs(out@);
            out.push(s);
            assert(text::strs(out@) =~= before.push(s@));
            assert(before + seq![s@] =~= before.push(s@));
        } else {
            assert(text::strs(out@) + Seq::<Seq<char>>::empty() =~= text::strs(out@));
        }
        i = i + 1;
    }
    assert(all.take(i as int) =~= all);
    out
}

/// The paths of the user lists that the teams of a command name.
pub fn user_list_paths(raw: &Vec<String>) -> (r: Vec<String>)
    ensures
        text::strs(r@) == list_paths(text::strs(raw@)),
{
    let ghost all = text::strs(raw@);
    let mut out: Vec<String> = Vec::new();
    let mut i: usize = 0;
    assert(text::strs(out@) =~= list_paths(all.take(0)));
    while i < raw.len()
        invariant
            i <= raw.len(),
            all == text::strs(raw@),
            text::strs(out@) == list_paths(all.take(i as int)),
        decreases raw.len() - i,
    {
        proof {
            assert(all.take(i + 1).drop_last() =~= all.take(i as int));
            assert(all.take(i + 1).last() == all[i as int]);
        }
        let (_, users) = split_team(raw[i].as_str());
        let pieces = pieces_of(&users);
        let more = paths_among(&pieces);
        text::append_strings(&mut out, &more);
        i = i + 1;
    }
    assert(all.take(i as int) =~= all);
    out
}

fn has_team(teams: &Vec<TeamSpec>, name: &str) -> (r: bool)
    ensures
        r == declared_names(config::team_spec_views(teams@)).contains(name@),
{
    let ghost names = declared_names(config::team_spec_views(teams@));
    let mut i: usize = 0;
    while i < teams.len()
        invariant
            i <= teams.len(),
            names == declared_names(config::team_spec_views(teams@)),
            forall|k: int| 0 <= k < i ==> #[trigger] names[k] != name@,
        decreases teams.len() - i,
    {
        if text::str_eq(teams[i].name.as_str(), name) {
            assert(names[i as int] == name@);
            return true;
        }
        assert(names[i as int] != name@);
        i = i + 1;
    }
    false
}

/// The teams of a command, each given as `NAME=USERS`. A user is a name or `@`
/// and the path of a list, whose text is among `files`. A team without a name,
/// a repeated name and a list that cannot be read are errors.
pub fn parse_team_specs(raw: &Vec<String>, files: &Vec<UserList>) -> (r: Result<
    Vec<TeamSpec>,
    String,
>)
    ensures
        match r {
            Ok(teams) => parsed_teams(text::strs(raw@), files@) == Ok::<Seq<MembersModel>, Seq<char>>(
                config::team_spec_views(teams@),
            ),
            Err(e) => parsed_teams(text::strs(raw@), files@) == Err::<Seq<MembersModel>, Seq<char>>(e@),
        },
{
    let ghost all = text::strs(raw@);
    let mut teams: Vec<TeamSpec> = Vec::new();
    let mut i: usize = 0;
    assert(config::team_spec_views(teams@) =~= Seq::<MembersModel>::empty());
    while i < raw.len()
        invariant
            i <= raw.len(),
            all == text::strs(raw@),
            parsed_teams(all.take(i as int), files@) == Ok::<Seq<MembersModel>, Seq<char>>(
                config::team_spec_views(teams@),
            ),
        decreases raw.len() - i,
    {
        proof {
            assert(all.take(i + 1).drop_last() =~= all.take(i as int));
            assert(all.take(i + 1).last() == all[i as int]);
        }
        let (name, users) = split_team(raw[i].as_str());
        if name.as_str().is_empty() {
            let e = text::cat3("invalid --team '", raw[i].as_str(), "': empty team name");
            proof {
                lemma_teams_stuck(all, files@, i + 1);
            }
            return Err(e);
        }
        if has_team(&teams, name.as_str()) {
            let e = text::cat3("duplicate --team '", name.as_str(), "'");
            proof {
                lemma_teams_stuck(all, files@, i + 1);
            }
            return Err(e);
        }
        let pieces = pieces_of(&users);
        match expand(&pieces, files) {
            Ok(us) => {
                let ghost before = config::team_spec_views(teams@);
                let t = TeamSpec { name, users: us };
                teams.push(t);
                assert(config::team_spec_views(teams@) =~= before.push(t@));
            },
            Err(e) => {
                proof {
                    lemma_teams_stuck(all, files@, i + 1);
                }
                return Err(e);
            },
        }
        i = i + 1;
    }
    assert(all.take(i as int) =~= all);
    Ok(teams)
}

/// The teams of a command have distinct names, none of them empty, and no team
/// lists a user twice.
pub proof fn law_parsed_teams_are_distinct(raw: Seq<Seq<char>>, files: Seq<UserList>)
    ensures
        parsed_teams(raw, files) matches Ok(teams) ==> {
            &&& declared_names(teams).no_duplicates()
            &&& teams.len() == raw.len()
            &&& forall|i: int|
                0 <= i < teams.len() ==> (#[trigger] teams[i]).name.len() > 0
                    && teams[i].users.no_duplicates()
        },
    decreases raw.len(),
{
    if raw.len() > 0 {
        law_parsed_teams_are_distinct(raw.drop_last(), files);
        if parsed_teams(raw, files) is Ok {
            let before = parsed_teams(raw.drop_last(), files)->Ok_0;
            let teams = parsed_teams(raw, files)->Ok_0;
            let (name, users) = team_parts(raw.last());
            interner::lemma_firsts(expanded(trimmed_pieces(users), files)->Ok_0);
            let names = declared_names(teams);
            assert forall|i: int, j: int|
                0 <= i < names.len() && 0 <= j < names.len() && i != j implies names[i]
                != names[j] by {
                if i < before.len() {
                    assert(declared_names(before)[i] == names[i]);
                }
                if j < before.len() {
                    assert(declared_names(before)[j] == names[j]);
                }
            }
        }
    }
}

// ---------------------------------------------------------------------------
// Batch jobs
// ---------------------------------------------------------------------------

/// The arguments of an option that may be absent.
pub open spec fn option_args(flag: Seq<char>, value: Option<Seq<char>>) -> Seq<Seq<char>> {
    match value {
        Some(v) => seq![flag, v],
        None => Seq::empty(),
    }
}

/// The arguments of a switch.
pub open spec fn switch_args(flag: Seq<char>, on: bool) -> Seq<Seq<char>> {
    if on {
        seq![flag]
    } else {
        Seq::empty()
    }
}

/// An option for each of several values.
pub open spec fn repeated_args(flag: Seq<char>, values: Seq<Seq<char>>) -> Seq<Seq<char>>
    decreases values.len(),
{
    if values.len() == 0 {
        Seq::empty()
    } else {
        repeated_args(flag, values.drop_last()) + seq![flag, values.last()]
    }
}

/// A count as text, where there is one.
pub open spec fn count_text(n: Option<usize>) -> Option<Seq<char>> {
    match n {
        Some(k) => Some(text::dec(k as nat)),
        None => None,
    }
}

/// The arguments that run the same scan again.
pub open spec fn run_args(
    output_dir: Option<Seq<char>>,
    tree_map: bool,
    workers: Option<usize>,
    level: usize,
    target: Seq<Seq<char>>,
    debug: bool,
) -> Seq<Seq<char>> {
    seq!["run"@] + option_args("--output-dir"@, output_dir) + switch_args("--tree-map"@, tree_map)
        + option_args("--workers"@, count_text(workers)) + seq!["--level"@, text::dec(level as nat)]
        + repeated_args("--target"@, target) + switch_args("--debug"@, debug)
}

/// Adds a switch that is on.
fn push_switch(v: &mut Vec<String>, flag: &str, on: bool)
    ensures
        text::strs(final(v)@) == text::strs(old(v)@) + switch_args(flag@, on),
{
    if on {
        text::push_text(v, flag);
    }
    assert(text::strs(v@) =~= text::strs(old(v)@) + switch_args(flag@, on));
}

/// Adds an option and its value.
fn push_pair(v: &mut Vec<String>, flag: &str, value: &str)
    ensures
        text::strs(final(v)@) == text::strs(old(v)@) + seq![flag@, value@],
{
    text::push_text(v, flag);
    text::push_text(v, value);
    assert(text::strs(v@) =~= text::strs(old(v)@) + seq![flag@, value@]);
}

/// The arguments that run the same scan again in a batch job. The level is
/// always given, so that the job does not depend on its default.
pub fn reconstruct_run_args(
    output_dir: &Option<String>,
    tree_map: bool,
    workers: Option<usize>,
    level: usize,
    target: &Vec<String>,
    debug: bool,
) -> (r: Vec<String>)
    ensures
        text::strs(r@) == run_args(text::opt(*output_dir), tree_map, workers, level, text::strs(target@), debug),
{
    let mut v: Vec<String> = Vec::new();
    text::push_text(&mut v, "run");
    assert(text::strs(v@) =~= seq!["run"@]);
    match output_dir {
        Some(d) => push_pair(&mut v, "--output-dir", d.as_str()),
        None => {
            assert(text::strs(v@) + Seq::<Seq<char>>::empty() =~= text::strs(v@));
        },
    }
    push_switch(&mut v, "--tree-map", tree_map);
    match workers {
        Some(w) => {
            let n = text::dec_string(w as u64);
            push_pair(&mut v, "--workers", n.as_str());
        },
        None => {
            assert(text::strs(v@) + Seq::<Seq<char>>::empty() =~= text::strs(v@));
        },
    }
    let n = text::dec_string(level as u64);
    push_pair(&mut v, "--level", n.as_str());
    let ghost head = text::strs(v@);
    let ghost all = text::strs(target@);
    let mut i: usize = 0;
    assert(head + repeated_args("--target"@, all.take(0)) =~= head);
    while i < target.len()
        invariant
            i <= target.len(),
            all == text::strs(target@),
            text::strs(v@) == head + repeated_args("--target"@, all.take(i as int)),
        decreases target.len() - i,
    {
        proof {
            assert(all.take(i + 1).drop_last() =~= all.take(i as int));
            assert(all.take(i + 1).last() == all[i as int]);
        }
        let ghost before = text::strs(v@);
        push_pair(&mut v, "--target", target[i].as_str());
        assert(text::strs(v@) =~= head + repeated_args("--target"@, all.take(i + 1)));
        i = i + 1;
    }
    assert(all.take(i as int) =~= all);
    push_switch(&mut v, "--debug", debug);
    v
}

/// Where a scan runs.
#[derive(PartialEq, Eq, Structural, Copy, Clone, Debug)]
pub enum LsfChoice {
    /// Here.
    Local,
    /// Here, because the command that submits jobs is missing.
    WrapperMissing,
    /// In a batch job.
    Submit,
}

/// Where a scan runs: in a batch job if that is enabled, not declined, this is
/// no job itself and the submitting command is there.
pub fn lsf_choice(lsf: &LsfConfig, no_lsf: bool, inside_job: bool, wrapper_found: bool) -> (r:
    LsfChoice)
    ensures
        r == LsfChoice::Submit <==> lsf.enabled && !no_lsf && !inside_job && wrapper_found,
        r == LsfChoice::WrapperMissing <==> lsf.enabled && !no_lsf && !inside_job
            && !wrapper_found,
{
    if !lsf.enabled || no_lsf || inside_job {
        LsfChoice::Local
    } else if !wrapper_found {
        LsfChoice::WrapperMissing
    } else {
        LsfChoice::Submit
    }
}

/// The arguments of the submitting command; what is empty or 0 is left out.
pub open spec fn submit_args(
    os: Seq<char>,
    mem_mb: i64,
    queue: Seq<char>,
    extra: Seq<Seq<char>>,
    exe: Seq<char>,
    run: Seq<Seq<char>>,
) -> Seq<Seq<char>> {
    (if os.len() > 0 {
        seq!["-os"@, os]
    } else {
        Seq::empty()
    }) + (if mem_mb > 0 {
        seq!["-M"@, text::dec_int(mem_mb as int)]
    } else {
        Seq::empty()
    }) + (if queue.len() > 0 {
        seq!["-q"@, queue]
    } else {
        Seq::empty()
    }) + extra + seq![exe] + run
}

/// The arguments of the submitting command: its options, this program, and the
/// arguments that run the scan.
pub fn lsf_args(lsf: &LsfConfig, exe: &str, run: &Vec<String>) -> (r: Vec<String>)
    ensures
        text::strs(r@) == submit_args(
            lsf.os@,
            lsf.mem_mb,
            lsf.queue@,
            text::strs(lsf.extra_args@),
            exe@,
            text::strs(run@),
        ),
{
    let mut v: Vec<String> = Vec::new();
    let ghost none = Seq::<Seq<char>>::empty();
    assert(text::strs(v@) =~= none);
    if !lsf.os.as_str().is_empty() {
        push_pair(&mut v, "-os", lsf.os.as_str());
    }
    let ghost a = (if lsf.os@.len() > 0 {
        seq!["-os"@, lsf.os@]
    } else {
        none
    });
    assert(text::strs(v@) =~= a);
    if lsf.mem_mb > 0 {
        let m = text::dec_int_string(lsf.mem_mb);
        push_pair(&mut v, "-M", m.as_str());
    }
    let ghost b = (if lsf.mem_mb > 0 {
        seq!["-M"@, text::dec_int(lsf.mem_mb as int)]
    } else {
        none
    });
    assert(text::strs(v@) =~= a + b);
    if !lsf.queue.as_str().is_empty() {
        push_pair(&mut v, "-q", lsf.queue.as_str());
    }
    let ghost c = (if lsf.queue@.len() > 0 {
        seq!["-q"@, lsf.queue@]
    } else {
        none
    });
    assert(text::strs(v@) =~= a + b + c);
    text::append_strings(&mut v, &lsf.extra_args);
    let ghost before = text::strs(v@);
    text::push_text(&mut v, exe);
    assert(before.push(exe@) =~= before + seq![exe@]);
    text::append_strings(&mut v, run);
    v
}

// ---------------------------------------------------------------------------
// Synchronisation
// ---------------------------------------------------------------------------

/// A command that mirrors a directory to another host.
pub struct RsyncCommand {
    pub program: &'static str,
    pub args: Vec<String>,
    pub remote: String,
}

/// Where a directory is mirrored to.
pub open spec fn remote_spec(user: Option<Seq<char>>, host: Seq<char>, dest: Seq<char>) -> Seq<
    char,
> {
    match user {
        Some(u) => u + "@"@ + host + ":"@ + dest,
        None => host + ":"@ + dest,
    }
}

/// The command that mirrors the contents of `src_dir`. With `use_pass` the
/// password is read from the environment by a wrapper; it never stands on the
/// command line. Without it no question is asked.
pub fn rsync_command(
    src_dir: &str,
    host: &str,
    dest_dir: &str,
    user: &Option<String>,
    use_pass: bool,
) -> (r: RsyncCommand)
    ensures
        r.remote@ == remote_spec(text::opt(*user), host@, dest_dir@),
        r.program@ == (if use_pass {
            "sshpass"@
        } else {
            "rsync"@
        }),
        text::strs(r.args@) == (if use_pass {
            seq![
                "-e"@,
                "rsync"@,
                "-az"@,
                "--delete"@,
                "-e"@,
                "ssh -o StrictHostKeyChecking=accept-new"@,
                paths::drop_slashes_end(src_dir@) + "/"@,
                remote_spec(text::opt(*user), host@, dest_dir@),
            ]
        } else {
            seq![
                "-az"@,
                "--delete"@,
                "-e"@,
                "ssh -o BatchMode=yes"@,
                paths::drop_slashes_end(src_dir@) + "/"@,
                remote_spec(text::opt(*user), host@, dest_dir@),
            ]
        }),
{
    let remote: String = match user {
        Some(u) => text::cat5(u.as_str(), "@", host, ":", dest_dir),
        None => text::cat3(host, ":", dest_dir),
    };
    let cs = text::to_chars(src_dir);
    let kept = paths::without_slashes_end(&cs);
    let mut src = vstd::slice::slice_to_vec(kept);
    let slash = text::to_chars("/");
    text::append_chars(&mut src, &slash);
    let src = text::from_chars(&src);
    let mut args: Vec<String> = Vec::new();
    if use_pass {
        text::push_text(&mut args, "-e");
        text::push_text(&mut args, "rsync");
    }
    text::push_text(&mut args, "-az");
    text::push_text(&mut args, "--delete");
    text::push_text(&mut args, "-e");
    if use_pass {
        text::push_text(&mut args, "ssh -o StrictHostKeyChecking=accept-new");
    } else {
        text::push_text(&mut args, "ssh -o BatchMode=yes");
    }
    text::push_text(&mut args, src.as_str());
    text::push_text(&mut args, remote.as_str());
    proof {
        if use_pass {
            assert(text::strs(args@) =~= seq![
                "-e"@,
                "rsync"@,
                "-az"@,
                "--delete"@,
                "-e"@,
                "ssh -o StrictHostKeyChecking=accept-new"@,
                src@,
                remote@,
            ]);
        } else {
            assert(text::strs(args@) =~= seq![
                "-az"@,
                "--delete"@,
                "-e"@,
                "ssh -o BatchMode=yes"@,
                src@,
                remote@,
            ]);
        }
    }
    let program: &'static str = if use_pass {
        "sshpass"
    } else {
        "rsync"
    };
    RsyncCommand { program, args, remote }
}

// ---------------------------------------------------------------------------
// Status
// ---------------------------------------------------------------------------

/// After how many seconds without a sign of life a scan counts as stale.
pub const STALE_AFTER: i64 = 30;

/// The times that a status file holds.
pub struct StatusTimes {
    pub phase_elapsed: i64,
    pub total_elapsed: i64,
    pub finished_at: i64,
}

/// The difference of two times, never negative.
pub open spec fn elapsed(now: i64, since: i64) -> int {
    if now >= since {
        now - since
    } else {
        0
    }
}

/// The times that a status file holds: a running scan has not finished.
pub fn status_times(now: i64, started_at: i64, phase_started_at: i64, running: bool) -> (r:
    StatusTimes)
    requires
        now - started_at <= i64::MAX,
        now - phase_started_at <= i64::MAX,
    ensures
        r.phase_elapsed == elapsed(now, phase_started_at),
        r.total_elapsed == elapsed(now, started_at),
        r.finished_at == (if running {
            0
        } else {
            now as int
        }),
{
    let p: i64 = if now >= phase_started_at {
        now - phase_started_at
    } else {
        0
    };
    let t: i64 = if now >= started_at {
        now - started_at
    } else {
        0
    };
    let f: i64 = if running {
        0
    } else {
        now
    };
    StatusTimes { phase_elapsed: p, total_elapsed: t, finished_at: f }
}

/// The difference of two numbers, held within the range of the type.
pub open spec fn clamped_sub(a: i64, b: i64) -> int {
    if a - b > i64::MAX {
        i64::MAX as int
    } else if a - b < i64::MIN {
        i64::MIN as int
    } else {
        a - b
    }
}

/// What the status list says of a target.
pub open spec fn note_text(error: Seq<char>, running: bool, age: int) -> Seq<char> {
    if error.len() > 0 {
        "ERROR: "@ + error
    } else if !running {
        "idle/done"@
    } else if age > STALE_AFTER {
        "running (stale "@ + text::dec_int(age) + "s)"@
    } else {
        "running"@
    }
}

/// What the status list says of a target: its error, that its scan runs, with a
/// warning where it has not been heard of for a while, or that it is idle.
pub fn status_note(error: &str, running: bool, now: i64, updated_at: i64) -> (r: String)
    ensures
        r@ == note_text(error@, running, clamped_sub(now, updated_at)),
{
    if !error.is_empty() {
        let mut v = text::to_chars("ERROR: ");
        let e = text::to_chars(error);
        text::append_chars(&mut v, &e);
        return text::from_chars(&v);
    }
    if !running {
        return "idle/done".to_string();
    }
    let d: i128 = now as i128 - updated_at as i128;
    let age: i64 = if d > i64::MAX as i128 {
        i64::MAX
    } else if d < i64::MIN as i128 {
        i64::MIN
    } else {
        d as i64
    };
    if age > STALE_AFTER {
        let n = text::dec_int_string(age);
        text::cat3("running (stale ", n.as_str(), "s)")
    } else {
        "running".to_string()
    }
}

/// The targets that a status list shows: the one asked for, or all.
pub fn status_names(target: &Option<String>, all: &Vec<String>) -> (r: Vec<String>)
    ensures
        text::strs(r@) == (match *target {
            Some(t) => seq![t@],
            None => text::strs(all@),
        }),
{
    match target {
        Some(t) => {
            let mut v: Vec<String> = Vec::new();
            text::push_text(&mut v, t.as_str());
            assert(text::strs(v@) =~= seq![t@]);
            v
        },
        None => text::copy_strings(all),
    }
}

/// The bytes of a disk, those in use and those that are there for users.
pub open spec fn disk_use(frsize: i64, blocks: i64, bfree: i64, bavail: i64) -> (int, int, int) {
    (blocks * frsize, blocks * frsize - bfree * frsize, bavail * frsize)
}

/// The bytes of a file system: all, used and free for users.
pub fn disk_figures(frsize: i64, blocks: i64, bfree: i64, bavail: i64) -> (r: (i64, i64, i64))
    requires
        i64::MIN <= blocks * frsize <= i64::MAX,
        i64::MIN <= bfree * frsize <= i64::MAX,
        i64::MIN <= bavail * frsize <= i64::MAX,
        i64::MIN <= blocks * frsize - bfree * frsize <= i64::MAX,
    ensures
        (r.0 as int, r.1 as int, r.2 as int) == disk_use(frsize, blocks, bfree, bavail),
        r.0 == blocks * frsize,
        r.1 == blocks * frsize - bfree * frsize,
        r.2 == bavail * frsize,
{
    let total: i64 = blocks * frsize;
    let free: i64 = bfree * frsize;
    (total, total - free, bavail * frsize)
}

/// How many workers scan where the number is not given: two for each processor,
/// at most 32, and 8 where their number is not known.
pub open spec fn budget_of(cpus: Option<usize>) -> int {
    match cpus {
        Some(n) => if n * 2 < 32 {
            n * 2
        } else {
            32
        },
        None => 8,
    }
}

/// How many workers scan where the number is not given: two for each processor,
/// at most 32, and 8 where their number is not known.
pub fn default_budget(cpus: Option<usize>) -> (r: usize)
    requires
        cpus matches Some(n) ==> n * 2 <= usize::MAX,
    ensures
        r == budget_of(cpus),
        r == (match cpus {
            Some(n) => if n * 2 < 32 {
                n * 2
            } else {
                32
            },
            None => 8,
        }),
{
    match cpus {
        Some(n) => if n * 2 < 32 {
            n * 2
        } else {
            32
        },
        None => 8,
    }
}

// ---------------------------------------------------------------------------
// Importing an old configuration
// ---------------------------------------------------------------------------

/// Why an old configuration below `dir` is not imported: it is no directory, or
/// there is a configuration already that must not be overwritten.
pub open spec fn import_error(
    dir: Seq<char>,
    is_dir: bool,
    configured: bool,
    force: bool,
    path: Seq<char>,
    targets_dir: Seq<char>,
) -> Option<Seq<char>> {
    if !is_dir {
        Some("'"@ + dir + "' is not a directory"@)
    } else if configured && !force {
        Some(
            "config already exists ("@ + path + " / "@ + targets_dir
                + ") \u{2014} use --force to overwrite"@,
        )
    } else {
        None
    }
}

/// Whether an old configuration below `dir` may be imported. `configured` says
/// whether there is a configuration at `path` or a target in `targets_dir`.
pub fn import_refusal(
    dir: &str,
    is_dir: bool,
    configured: bool,
    force: bool,
    path: &str,
    targets_dir: &str,
) -> (r: Option<String>)
    ensures
        text::opt(r) == import_error(dir@, is_dir, configured, force, path@, targets_dir@),
{
    if !is_dir {
        return Some(text::cat3("'", dir, "' is not a directory"));
    }
    if configured && !force {
        return Some(
            text::cat5(
                "config already exists (",
                path,
                " / ",
                targets_dir,
                ") \u{2014} use --force to overwrite",
            ),
        );
    }
    None
}

/// What is said where nothing was imported.
pub fn nothing_imported(dir: &str) -> (r: String)
    ensures
        r@ == "no valid <target>/config.json found under '"@ + dir@ + "'"@,
{
    text::cat3("no valid <target>/config.json found under '", dir, "'")
}

// ---------------------------------------------------------------------------
// Laws
// ---------------------------------------------------------------------------

/// What stands behind a `#` on a line of a user list does not count.
pub proof fn law_comments_are_skipped(line: Seq<char>, note: Seq<char>)
    requires
        !line.contains('#'),
    ensures
        line_users(line + seq!['#'] + note) == line_users(line),
{
    let all = line + seq!['#'] + note;
    text::lemma_find(line, '#');
    text::lemma_find(all, '#');
    assert(all[line.len() as int] == '#');
    let f = text::find(all, '#');
    if f < line.len() {
        assert(line[f] == all[f]);
        assert(line.contains(line[f]));
    }
    assert(all.take(line.len() as int) =~= line);
    assert(text::split(all, '#')[0] == line);
    assert(text::split(line, '#')[0] == line);
}

/// The users of a list are those of its lines: all of them, and none twice.
pub proof fn law_user_lists_are_distinct(content: Seq<char>, user: Seq<char>)
    ensures
        user_list(content).no_duplicates(),
        user_list(content).contains(user) <==> lines_users(text::lines(content)).contains(user),
{
    interner::lemma_firsts(lines_users(text::lines(content)));
}

/// What stands before the first `=` of a team is its name, without blanks around it, and
/// what stands behind it are its users; without a `=` all of it is the name.
pub proof fn law_parts_of_a_team(name: Seq<char>, users: Seq<char>)
    requires
        !name.contains('='),
    ensures
        team_parts(name + seq!['='] + users) == (text::trim(name), users),
        team_parts(name) == (text::trim(name), Seq::<char>::empty()),
{
    let item = name + seq!['='] + users;
    text::lemma_find(name, '=');
    text::lemma_find(item, '=');
    assert(item[name.len() as int] == '=');
    let f = text::find(item, '=');
    if f < name.len() {
        assert(name[f] == item[f]);
        assert(name.contains(name[f]));
    }
    assert(item.take(name.len() as int) =~= name);
    assert(item.skip(name.len() as int + 1) =~= users);
}

proof fn lemma_repeated_args(flag: Seq<char>, values: Seq<Seq<char>>, i: int)
    requires
        0 <= i < values.len(),
    ensures
        repeated_args(flag, values).len() == 2 * values.len(),
        repeated_args(flag, values)[2 * i] == flag,
        repeated_args(flag, values)[2 * i + 1] == values[i],
    decreases values.len(),
{
    let head = values.drop_last();
    if head.len() > 0 {
        lemma_repeated_args(flag, head, if i < head.len() {
            i
        } else {
            0
        });
    }
    if i == values.len() - 1 && head.len() == 0 {
        assert(repeated_args(flag, head).len() == 0);
    }
}

/// A scan that is run again in a job is the same scan: it names each of the targets
/// behind an option of its own, in their order, the level, the number of workers and the
/// directory where they were given, and the switches that were on.
pub proof fn law_run_args(
    output_dir: Option<Seq<char>>,
    tree_map: bool,
    workers: Option<usize>,
    level: usize,
    target: Seq<Seq<char>>,
    debug: bool,
    i: int,
)
    requires
        0 <= i < target.len(),
    ensures
        ({
            let args = run_args(output_dir, tree_map, workers, level, target, debug);
            let d = if output_dir is Some {
                2int
            } else {
                0
            };
            let t = if tree_map {
                1int
            } else {
                0
            };
            let w = if workers is Some {
                2int
            } else {
                0
            };
            &&& args.len() == 1 + d + t + w + 2 + 2 * target.len() + (if debug {
                1int
            } else {
                0
            })
            &&& args[0] == "run"@
            &&& output_dir is Some ==> args[1] == "--output-dir"@ && args[2] == output_dir->0
            &&& tree_map ==> args[1 + d] == "--tree-map"@
            &&& workers is Some ==> args[1 + d + t] == "--workers"@ && args[2 + d + t]
                == text::dec(workers->0 as nat)
            &&& args[1 + d + t + w] == "--level"@
            &&& args[2 + d + t + w] == text::dec(level as nat)
            &&& args[3 + d + t + w + 2 * i] == "--target"@
            &&& args[4 + d + t + w + 2 * i] == target[i]
            &&& debug ==> args.last() == "--debug"@
        }),
{
    lemma_repeated_args("--target"@, target, i);
    let a = seq!["run"@] + option_args("--output-dir"@, output_dir) + switch_args(
        "--tree-map"@,
        tree_map,
    ) + option_args("--workers"@, count_text(workers)) + seq!["--level"@, text::dec(level as nat)];
    let b = repeated_args("--target"@, target);
    let c = switch_args("--debug"@, debug);
    let args = run_args(output_dir, tree_map, workers, level, target, debug);
    assert(args == a + b + c);
    assert(args[a.len() + 2 * i] == b[2 * i]);
    assert(args[a.len() + 2 * i + 1] == b[2 * i + 1]);
}

/// A job is submitted with this program and the arguments of the scan at its end, and
/// before them only the options that are set.
pub proof fn law_submit_args(
    os: Seq<char>,
    mem_mb: i64,
    queue: Seq<char>,
    extra: Seq<Seq<char>>,
    exe: Seq<char>,
    run: Seq<Seq<char>>,
)
    ensures
        ({
            let args = submit_args(os, mem_mb, queue, extra, exe, run);
            let a = if os.len() > 0 {
                2int
            } else {
                0
            };
            let b = if mem_mb > 0 {
                2int
            } else {
                0
            };
            let c = if queue.len() > 0 {
                2int
            } else {
                0
            };
            &&& args.len() == a + b + c + extra.len() + 1 + run.len()
            &&& os.len() > 0 ==> args[0] == "-os"@ && args[1] == os
            &&& mem_mb > 0 ==> args[a] == "-M"@ && args[a + 1] == text::dec_int(mem_mb as int)
            &&& queue.len() > 0 ==> args[a + b] == "-q"@ && args[a + b + 1] == queue
            &&& args.subrange(a + b + c, a + b + c + extra.len()) == extra
            &&& args[a + b + c + extra.len()] == exe
            &&& args.skip(a + b + c + extra.len() + 1) == run
        }),
{
    let args = submit_args(os, mem_mb, queue, extra, exe, run);
    let n = args.len() - 1 - run.len();
    assert(args.skip(n + 1) =~= run);
    assert(args.subrange(n - extra.len(), n) =~= extra);
}

/// A report is mirrored to a directory of a host, as a user where one is given.
pub proof fn law_remote_places(user: Seq<char>, host: Seq<char>, dest: Seq<char>)
    ensures
        remote_spec(None, host, dest) == host + seq![':'] + dest,
        remote_spec(Some(user), host, dest) == user + seq!['@'] + host + seq![':'] + dest,
{
    reveal_strlit("@");
    reveal_strlit(":");
    assert("@"@ =~= seq!['@']);
    assert(":"@ =~= seq![':']);
}

/// The note on a target is its error where it has one; else it is idle, or it runs, with
/// a warning from the thirty-first second on in which nothing was heard of it.
pub proof fn law_notes(error: Seq<char>, running: bool, age: int)
    ensures
        error.len() > 0 ==> note_text(error, running, age) == "ERROR: "@ + error,
        error.len() == 0 && !running ==> note_text(error, running, age) == "idle/done"@,
        error.len() == 0 && running && age <= 30 ==> note_text(error, running, age) == "running"@,
        error.len() == 0 && running && age > 30 ==> note_text(error, running, age)
            == "running (stale "@ + text::dec_int(age) + "s)"@,
{
}

/// The bytes of a disk that are used and those that are free make up all of it, and what
/// is there for users is counted in the same blocks.
pub proof fn law_used_and_free_make_up_a_disk(frsize: i64, blocks: i64, bfree: i64, bavail: i64)
    ensures
        disk_use(frsize, blocks, bfree, bavail).1 + bfree * frsize == disk_use(
            frsize,
            blocks,
            bfree,
            bavail,
        ).0,
        disk_use(frsize, blocks, 0, bavail).1 == disk_use(frsize, blocks, 0, bavail).0,
        disk_use(frsize, blocks, bfree, blocks).2 == disk_use(frsize, blocks, bfree, blocks).0,
        disk_use(1, blocks, bfree, bavail) == (blocks as int, blocks - bfree, bavail as int),
{
    assert(0 * frsize == 0) by (nonlinear_arith);
    assert(blocks * 1 == blocks && bfree * 1 == bfree && bavail * 1 == bavail)
        by (nonlinear_arith);
}

/// Where no number of workers is given there are two for each processor, never more than
/// 32, and more processors never make fewer workers.
pub proof fn law_workers_by_processors(cpus: usize, more: usize)
    requires
        cpus <= more,
    ensures
        budget_of(None) == 8,
        budget_of(Some(cpus)) <= 32,
        cpus <= 16 ==> budget_of(Some(cpus)) == 2 * cpus,
        budget_of(Some(cpus)) <= budget_of(Some(more)),
{
}

} // verus!
