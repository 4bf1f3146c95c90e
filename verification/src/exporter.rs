//! The per-user listings that are exported from a report.

use crate::display;
use crate::listing;
use crate::paths;
use crate::text;
use std::collections::HashMap;
use vstd::prelude::*;
use vstd::slice::slice_subrange;

verus! {

broadcast use vstd::std_specs::hash::group_hash_axioms;

// ---------------------------------------------------------------------------
// Full paths
// ---------------------------------------------------------------------------

/// The full path of a directory that a report names from the root of the scan,
/// from the root's own name, or in full.
pub open spec fn full_path(scan_root: Seq<char>, path: Seq<char>) -> Seq<char> {
    let root = paths::drop_slashes_end(scan_root);
    let base = paths::base_name(scan_root);
    if path.len() > 0 && path[0] == '/' {
        path
    } else if base.len() > 0 && (path == base || base.push('/').is_prefix_of(path)) {
        if path.len() <= base.len() + 1 {
            root
        } else {
            root + "/"@ + path.skip(base.len() as int + 1)
        }
    } else if scan_root.len() > 0 {
        root + "/"@ + path
    } else {
        path
    }
}

/// The full path of a directory of a report.
pub fn absolute_path(scan_root: &str, path: &str) -> (r: String)
    ensures
        r@ == full_path(scan_root@, path@),
{
    let p = text::to_chars(path);
    if p.len() > 0 && p[0] == '/' {
        return text::from_chars(&p);
    }
    let cs = text::to_chars(scan_root);
    let root = paths::without_slashes_end(&cs);
    let root = text::from_chars(root);
    let base = paths::tm_basename(scan_root);
    let b = text::to_chars(base.as_str());
    let mut b_slash = vstd::slice::slice_to_vec(&b);
    b_slash.push('/');
    if b.len() > 0 && (text::chars_eq(&p, &b) || text::starts_with(&p, &b_slash)) {
        if p.len() <= b.len() || p.len() - b.len() <= 1 {
            root
        } else {
            let rest = slice_subrange(&p, b.len() + 1, p.len());
            assert(rest@ =~= path@.skip(b@.len() as int + 1));
            let rest = text::from_chars(rest);
            text::cat3(root.as_str(), "/", rest.as_str())
        }
    } else if cs.len() > 0 {
        text::cat3(root.as_str(), "/", path)
    } else {
        text::from_chars(&p)
    }
}

/// A full path stays, and whatever a report names is in full afterwards.
pub proof fn law_full_paths(scan_root: Seq<char>, path: Seq<char>)
    requires
        scan_root.len() > 1 && scan_root[0] == '/' && scan_root.last() != '/',
    ensures
        full_path(scan_root, path).len() > 0 && full_path(scan_root, path)[0] == '/',
        full_path(scan_root, full_path(scan_root, path)) == full_path(scan_root, path),
{
    assert(paths::drop_slashes_end(scan_root) == scan_root);
}

/// The full path of every directory of a report.
pub struct DirPathMap {
    paths: HashMap<i64, String>,
}

/// Ids and paths.
pub open spec fn id_paths(v: Seq<(i64, String)>) -> Seq<(i64, Seq<char>)> {
    Seq::new(v.len(), |i: int| (v[i].0, v[i].1@))
}

/// The full path of each id; of several rows for one id the last counts.
pub open spec fn full_paths(scan_root: Seq<char>, rows: Seq<(i64, Seq<char>)>) -> Map<
    i64,
    Seq<char>,
>
    decreases rows.len(),
{
    if rows.len() == 0 {
        Map::empty()
    } else {
        full_paths(scan_root, rows.drop_last()).insert(
            rows.last().0,
            full_path(scan_root, rows.last().1),
        )
    }
}

impl DirPathMap {
    /// The paths by id.
    pub closed spec fn model(&self) -> Map<i64, Seq<char>> {
        self.paths@.map_values(|s: String| s@)
    }

    /// No directory.
    pub fn empty() -> (r: Self)
        ensures
            r.model() == Map::<i64, Seq<char>>::empty(),
    {
        let r = DirPathMap { paths: HashMap::new() };
        assert(r.model() =~= Map::<i64, Seq<char>>::empty());
        r
    }

    /// The directories that a report lists.
    pub fn load(scan_root: &str, listed: &Vec<(i64, String)>) -> (r: Self)
        ensures
            r.model() == full_paths(scan_root@, id_paths(listed@)),
    {
        let ghost all = id_paths(listed@);
        let mut map = DirPathMap::empty();
        let mut i: usize = 0;
        assert(all.take(0) =~= Seq::<(i64, Seq<char>)>::empty());
        while i < listed.len()
            invariant
                i <= listed.len(),
                all == id_paths(listed@),
                map.model() == full_paths(scan_root@, all.take(i as int)),
            decreases listed.len() - i,
        {
            proof {
                assert(all.take(i + 1).drop_last() =~= all.take(i as int));
                assert(all.take(i + 1).last() == all[i as int]);
            }
            let p = absolute_path(scan_root, listed[i].1.as_str());
            let ghost before = map.model();
            map.paths.insert(listed[i].0, p);
            assert(map.model() =~= before.insert(listed@[i as int].0, p@));
            i = i + 1;
        }
        assert(all.take(i as int) =~= all);
        map
    }

    /// The full path of a directory, empty where it is not listed.
    pub fn get(&self, dir_id: i64) -> (r: String)
        ensures
            r@ == path_at(self.model(), dir_id),
    {
        match self.paths.get(&dir_id) {
            Some(p) => p.clone(),
            None => {
                let s = String::new();
                assert(s@ =~= Seq::<char>::empty());
                s
            },
        }
    }
}

/// The full path of a directory, empty where it is not listed.
pub open spec fn path_at(m: Map<i64, Seq<char>>, dir_id: i64) -> Seq<char> {
    if m.contains_key(dir_id) {
        m[dir_id]
    } else {
        Seq::empty()
    }
}

// ---------------------------------------------------------------------------
// Listings
// ---------------------------------------------------------------------------

/// The head of a listing, line by line.
pub open spec fn head_lines() -> Seq<Seq<char>> {
    seq![listing::listing_row("Type"@, 4, "  "@, "User"@, "Size"@, "Path"@), listing::rule('-', 90)]
}

/// The row of a directory.
pub open spec fn dir_row(user: Seq<char>, path: Seq<char>, size: i64) -> Seq<char> {
    listing::listing_row("dir "@, 4, "  "@, user, display::listing_size_text(size as int), path)
}

/// The path of a file in a directory that may be unknown.
pub open spec fn file_path(parent: Seq<char>, name: Seq<char>) -> Seq<char> {
    if parent.len() == 0 {
        name
    } else if parent == "/"@ {
        "/"@ + name
    } else {
        parent + "/"@ + name
    }
}

/// The row of a file.
pub open spec fn file_row(user: Seq<char>, path: Seq<char>, size: i64) -> Seq<char> {
    listing::listing_row("file"@, 4, "  "@, user, display::listing_size_text(size as int), path)
}

fn head() -> (r: Vec<String>)
    ensures
        text::strs(r@) == head_lines(),
{
    let mut v: Vec<String> = Vec::new();
    v.push(listing::row_text("Type", 4, "  ", "User", "Size", "Path"));
    let line = listing::rule_chars('-', 90);
    v.push(text::from_chars(&line));
    assert(text::strs(v@) =~= head_lines());
    v
}

/// A size in a listing.
pub fn format_size(size: i64) -> (r: String)
    ensures
        r@ == display::listing_size_text(size as int),
{
    display::listing_size(size)
}

/// The lines of the listing of a user's directories.
pub open spec fn dir_lines(
    user: Seq<char>,
    listed: Seq<(i64, i64)>,
    paths: Map<i64, Seq<char>>,
) -> Seq<Seq<char>> {
    if listed.len() == 0 {
        Seq::<Seq<char>>::empty()
    } else {
        head_lines() + Seq::new(
            listed.len(),
            |i: int| dir_row(user, path_at(paths, listed[i].0), listed[i].1),
        )
    }
}

/// The lines of the listing of a user's files.
pub open spec fn file_lines(
    user: Seq<char>,
    listed: Seq<(i64, String, i64)>,
    paths: Map<i64, Seq<char>>,
) -> Seq<Seq<char>> {
    if listed.len() == 0 {
        Seq::<Seq<char>>::empty()
    } else {
        head_lines() + Seq::new(
            listed.len(),
            |i: int|
                file_row(
                    user,
                    file_path(path_at(paths, listed[i].0), listed[i].1@),
                    listed[i].2,
                ),
        )
    }
}

/// The listing of a user's directories, given by id and size: nothing where there
/// are none.
pub fn dir_listing(user: &str, listed: &Vec<(i64, i64)>, paths: &DirPathMap) -> (r: Vec<String>)
    ensures
        text::strs(r@) == dir_lines(user@, listed@, paths.model()),
{
    let ghost f = |i: int| dir_row(user@, path_at(paths.model(), listed@[i].0), listed@[i].1);
    if listed.len() == 0 {
        let none: Vec<String> = Vec::new();
        assert(text::strs(none@) =~= Seq::<Seq<char>>::empty());
        return none;
    }
    let mut v = head();
    let mut i: usize = 0;
    assert(head_lines() + Seq::new(0, f) =~= head_lines());
    while i < listed.len()
        invariant
            i <= listed.len(),
            f == (|i: int| dir_row(user@, path_at(paths.model(), listed@[i].0), listed@[i].1)),
            text::strs(v@) == head_lines() + Seq::new(i as nat, f),
        decreases listed.len() - i,
    {
        let p = paths.get(listed[i].0);
        let s = display::listing_size(listed[i].1);
        let row = listing::row_text("dir ", 4, "  ", user, s.as_str(), p.as_str());
        let ghost before = text::strs(v@);
        v.push(row);
        assert(row@ == f(i as int));
        assert(text::strs(v@) =~= before.push(row@));
        assert(text::strs(v@) =~= head_lines() + Seq::new((i + 1) as nat, f));
        i = i + 1;
    }
    v
}

/// The listing of a user's files, given by directory, name and size: nothing
/// where there are none.
pub fn file_listing(user: &str, listed: &Vec<(i64, String, i64)>, paths: &DirPathMap) -> (r: Vec<
    String,
>)
    ensures
        text::strs(r@) == file_lines(user@, listed@, paths.model()),
{
    let ghost f = |i: int|
        file_row(
            user@,
            file_path(path_at(paths.model(), listed@[i].0), listed@[i].1@),
            listed@[i].2,
        );
    if listed.len() == 0 {
        let none: Vec<String> = Vec::new();
        assert(text::strs(none@) =~= Seq::<Seq<char>>::empty());
        return none;
    }
    let mut v = head();
    let mut i: usize = 0;
    assert(head_lines() + Seq::new(0, f) =~= head_lines());
    while i < listed.len()
        invariant
            i <= listed.len(),
            f == (|i: int|
                file_row(
                    user@,
                    file_path(path_at(paths.model(), listed@[i].0), listed@[i].1@),
                    listed@[i].2,
                )),
            text::strs(v@) == head_lines() + Seq::new(i as nat, f),
        decreases listed.len() - i,
    {
        let parent = paths.get(listed[i].0);
        let name = listed[i].1.as_str();
        let full: String = if parent.as_str().is_empty() {
            name.to_string()
        } else if text::str_eq(parent.as_str(), "/") {
            let mut c = text::to_chars("/");
            let n = text::to_chars(name);
            text::append_chars(&mut c, &n);
            text::from_chars(&c)
        } else {
            text::cat3(parent.as_str(), "/", name)
        };
        let s = display::listing_size(listed[i].2);
        let row = listing::row_text("file", 4, "  ", user, s.as_str(), full.as_str());
        let ghost before = text::strs(v@);
        v.push(row);
        assert(row@ == f(i as int));
        assert(text::strs(v@) =~= before.push(row@));
        assert(text::strs(v@) =~= head_lines() + Seq::new((i + 1) as nat, f));
        i = i + 1;
    }
    v
}

/// The name of a user's listing, which begins with the prefix where one is given.
pub open spec fn listing_name(prefix: Seq<char>, kind: Seq<char>, user: Seq<char>) -> Seq<char> {
    (if prefix.len() > 0 {
        prefix + "_"@
    } else {
        Seq::empty()
    }) + "usage"@ + "_"@ + kind + "_"@ + user.map_values(|c: char| paths::file_char(c)) + ".txt"@
}

/// The path of a user's listing; `kind` is `dir` or `file`.
pub fn listing_path(output_dir: &str, prefix: &str, kind: &str, user: &str) -> (r: String)
    ensures
        r@ == paths::joined(output_dir@, listing_name(prefix@, kind@, user@)),
{
    let safe = paths::safe_user_dir(user);
    let mut v: Vec<char> = Vec::new();
    if !prefix.is_empty() {
        let p = text::to_chars(prefix);
        text::append_chars(&mut v, &p);
        let u = text::to_chars("_");
        text::append_chars(&mut v, &u);
    }
    let s = text::to_chars("usage");
    text::append_chars(&mut v, &s);
    let u = text::to_chars("_");
    text::append_chars(&mut v, &u);
    let k = text::to_chars(kind);
    text::append_chars(&mut v, &k);
    text::append_chars(&mut v, &u);
    let n = text::to_chars(safe.as_str());
    text::append_chars(&mut v, &n);
    let t = text::to_chars(".txt");
    text::append_chars(&mut v, &t);
    proof {
        let head = if prefix@.len() > 0 {
            prefix@ + "_"@
        } else {
            Seq::empty()
        };
        assert(v@ =~= listing_name(prefix@, kind@, user@));
    }
    let name = text::from_chars(&v);
    paths::join_path(output_dir, name.as_str())
}

/// What several jobs wrote, in the order of the jobs, or the first error.
pub open spec fn all_outputs(jobs: Seq<Result<Seq<Seq<char>>, Seq<char>>>) -> Result<
    Seq<Seq<char>>,
    Seq<char>,
>
    decreases jobs.len(),
{
    if jobs.len() == 0 {
        Ok(Seq::empty())
    } else {
        match all_outputs(jobs.drop_last()) {
            Err(e) => Err(e),
            Ok(files) => match jobs.last() {
                Ok(more) => Ok(files + more),
                Err(e) => Err(e),
            },
        }
    }
}

/// The result of a job.
pub open spec fn outcome(r: Result<Vec<String>, String>) -> Result<Seq<Seq<char>>, Seq<char>> {
    match r {
        Ok(v) => Ok(text::strs(v@)),
        Err(e) => Err(e@),
    }
}

/// The results of jobs.
pub open spec fn outcomes(v: Seq<Result<Vec<String>, String>>) -> Seq<Result<
    Seq<Seq<char>>,
    Seq<char>,
>> {
    Seq::new(v.len(), |i: int| outcome(v[i]))
}

proof fn lemma_outputs_stuck(jobs: Seq<Result<Seq<Seq<char>>, Seq<char>>>, n: int)
    requires
        0 <= n <= jobs.len(),
        all_outputs(jobs.take(n)) is Err,
    ensures
        all_outputs(jobs) == all_outputs(jobs.take(n)),
    decreases jobs.len(),
{
    if n == jobs.len() {
        assert(jobs.take(n) =~= jobs);
    } else {
        assert(jobs.drop_last().take(n) =~= jobs.take(n));
        lemma_outputs_stuck(jobs.drop_last(), n);
    }
}

/// What several jobs wrote, in the order of the jobs, or the first error.
pub fn collect_outputs(per_job: &Vec<Result<Vec<String>, String>>) -> (r: Result<
    Vec<String>,
    String,
>)
    ensures
        outcome(r) == all_outputs(outcomes(per_job@)),
{
    let ghost all = outcomes(per_job@);
    let mut out: Vec<String> = Vec::new();
    let mut i: usize = 0;
    assert(text::strs(out@) =~= Seq::<Seq<char>>::empty());
    while i < per_job.len()
        invariant
            i <= per_job.len(),
            all == outcomes(per_job@),
            all_outputs(all.take(i as int)) == Ok::<Seq<Seq<char>>, Seq<char>>(text::strs(out@)),
        decreases per_job.len() - i,
    {
        proof {
            assert(all.take(i + 1).drop_last() =~= all.take(i as int));
            assert(all.take(i + 1).last() == all[i as int]);
        }
        match &per_job[i] {
            Ok(files) => text::append_strings(&mut out, files),
            Err(e) => {
                proof {
                    lemma_outputs_stuck(all, i + 1);
                }
                return Err(e.clone());
            },
        }
        i = i + 1;
    }
    assert(all.take(i as int) =~= all);
    Ok(out)
}

// ---------------------------------------------------------------------------
// Laws
// ---------------------------------------------------------------------------

/// Whether a line of a listing says of which kind its entry is, then whose it is in 20
/// columns at the left, then its size in 12 columns at the right, then where it lies,
/// two blanks apart.
pub open spec fn is_line(
    line: Seq<char>,
    kind: Seq<char>,
    user: Seq<char>,
    size: Seq<char>,
    path: Seq<char>,
) -> bool {
    exists|right: Seq<char>, left: Seq<char>|
        {
            &&& line == kind + seq![' ', ' '] + user + right + seq![' ', ' '] + left + size + seq![
                ' ',
                ' ',
            ] + path
            &&& #[trigger] blank(right)
            &&& #[trigger] blank(left)
            &&& right.len() == (if user.len() < 20 {
                20 - user.len()
            } else {
                0
            })
            &&& left.len() == (if size.len() < 12 {
                12 - size.len()
            } else {
                0
            })
        }
}

/// Whether a text is made of blanks.
pub open spec fn blank(s: Seq<char>) -> bool {
    forall|i: int| 0 <= i < s.len() ==> #[trigger] s[i] == ' '
}

proof fn lemma_row_is_line(
    kind: Seq<char>,
    user: Seq<char>,
    size: Seq<char>,
    path: Seq<char>,
)
    requires
        kind.len() == 4,
    ensures
        is_line(listing::listing_row(kind, 4, "  "@, user, size, path), kind, user, size, path),
{
    reveal_strlit("  ");
    assert("  "@ =~= seq![' ', ' ']);
    let right = if user.len() < 20 {
        Seq::new((20 - user.len()) as nat, |i: int| ' ')
    } else {
        Seq::<char>::empty()
    };
    let left = if size.len() < 12 {
        Seq::new((12 - size.len()) as nat, |i: int| ' ')
    } else {
        Seq::<char>::empty()
    };
    assert(blank(right) && blank(left));
    assert(listing::listing_row(kind, 4, "  "@, user, size, path) =~= kind + seq![' ', ' '] + user
        + right + seq![' ', ' '] + left + size + seq![' ', ' '] + path);
}

/// A listing of files has its head and then one line for each file, in their order: the
/// word `file`, the user, the file's own size as sizes are shown, and its path.
pub proof fn law_lines_of_files(
    user: Seq<char>,
    listed: Seq<(i64, String, i64)>,
    paths: Map<i64, Seq<char>>,
    i: int,
)
    requires
        0 <= i < listed.len(),
    ensures
        file_lines(user, listed, paths).len() == 2 + listed.len(),
        is_line(
            file_lines(user, listed, paths)[2 + i],
            seq!['f', 'i', 'l', 'e'],
            user,
            display::listing_size_text(listed[i].2 as int),
            file_path(path_at(paths, listed[i].0), listed[i].1@),
        ),
{
    reveal_strlit("file");
    assert("file"@ =~= seq!['f', 'i', 'l', 'e']);
    lemma_row_is_line(
        "file"@,
        user,
        display::listing_size_text(listed[i].2 as int),
        file_path(path_at(paths, listed[i].0), listed[i].1@),
    );
    assert(head_lines().len() == 2);
}

/// A listing of directories has its head and then one line for each directory, in their
/// order: the word `dir`, the user, the directory's own size as sizes are shown, and its
/// path.
pub proof fn law_lines_of_directories(
    user: Seq<char>,
    listed: Seq<(i64, i64)>,
    paths: Map<i64, Seq<char>>,
    i: int,
)
    requires
        0 <= i < listed.len(),
    ensures
        dir_lines(user, listed, paths).len() == 2 + listed.len(),
        is_line(
            dir_lines(user, listed, paths)[2 + i],
            seq!['d', 'i', 'r', ' '],
            user,
            display::listing_size_text(listed[i].1 as int),
            path_at(paths, listed[i].0),
        ),
{
    reveal_strlit("dir ");
    assert("dir "@ =~= seq!['d', 'i', 'r', ' ']);
    lemma_row_is_line(
        "dir "@,
        user,
        display::listing_size_text(listed[i].1 as int),
        path_at(paths, listed[i].0),
    );
    assert(head_lines().len() == 2);
}

/// A file and a directory of the same user and size read alike from the user up to the
/// end of the size's column.
pub proof fn law_files_and_directories_show_alike(
    user: Seq<char>,
    files: Seq<(i64, String, i64)>,
    dirs: Seq<(i64, i64)>,
    paths: Map<i64, Seq<char>>,
    i: int,
    j: int,
)
    requires
        0 <= i < files.len(),
        0 <= j < dirs.len(),
        files[i].2 == dirs[j].1,
    ensures
        ({
            let n = 4 + 2 + (if user.len() < 20 {
                20
            } else {
                user.len() as int
            }) + 2 + 12;
            file_lines(user, files, paths)[2 + i].subrange(4, n) == dir_lines(user, dirs, paths)[2
                + j].subrange(4, n)
        }),
{
    reveal_strlit("file");
    reveal_strlit("dir ");
    reveal_strlit("  ");
    let n = 4 + 2 + (if user.len() < 20 {
        20
    } else {
        user.len() as int
    }) + 2 + 12;
    let size = display::listing_size_text(files[i].2 as int);
    let mid = "  "@ + text::pad_right(user, 20) + "  "@ + text::pad_left(size, 12, ' ');
    let f = file_lines(user, files, paths)[2 + i];
    let d = dir_lines(user, dirs, paths)[2 + j];
    assert(head_lines().len() == 2);
    assert(mid.len() >= n - 4);
    assert(f.subrange(4, n) =~= mid.take(n - 4));
    assert(d.subrange(4, n) =~= mid.take(n - 4));
}

/// A file lies where its directory does: its path is the directory's, a slash and its
/// name, with one slash only below the root; where the directory is not known it is the
/// name alone.
pub proof fn law_paths_of_files(paths: Map<i64, Seq<char>>, dir: i64, name: Seq<char>)
    ensures
        !paths.contains_key(dir) ==> file_path(path_at(paths, dir), name) == name,
        paths.contains_key(dir) && paths[dir] == seq!['/'] ==> file_path(path_at(paths, dir), name)
            == seq!['/'] + name,
        paths.contains_key(dir) && paths[dir].len() > 0 && paths[dir] != seq!['/'] ==> file_path(
            path_at(paths, dir),
            name,
        ) == paths[dir] + seq!['/'] + name,
{
    reveal_strlit("/");
    assert("/"@ =~= seq!['/']);
}

/// The path that is kept of a directory is that of the last row which names it, in full.
pub proof fn law_last_path_of_a_directory_counts(
    scan_root: Seq<char>,
    rows: Seq<(i64, Seq<char>)>,
    k: int,
)
    requires
        0 <= k < rows.len(),
        forall|j: int| k < j < rows.len() ==> (#[trigger] rows[j]).0 != rows[k].0,
    ensures
        full_paths(scan_root, rows).contains_key(rows[k].0),
        full_paths(scan_root, rows)[rows[k].0] == full_path(scan_root, rows[k].1),
    decreases rows.len(),
{
    if k < rows.len() - 1 {
        let head = rows.drop_last();
        assert(rows[rows.len() - 1].0 != rows[k].0);
        assert forall|j: int| k < j < head.len() implies (#[trigger] head[j]).0 != head[k].0 by {
            assert(head[j] == rows[j]);
        }
        law_last_path_of_a_directory_counts(scan_root, head, k);
    }
}

/// What several jobs wrote is known only where all of them ended well: then every file
/// of every job is listed, those of a job together and the jobs in order. Else the
/// error is that of the first that failed.
pub proof fn law_outputs_of_jobs(jobs: Seq<Result<Seq<Seq<char>>, Seq<char>>>, k: int)
    requires
        0 <= k < jobs.len(),
    ensures
        (forall|j: int| 0 <= j < k ==> (#[trigger] jobs[j]) is Ok) && jobs[k] is Err
            ==> all_outputs(jobs) == Err::<Seq<Seq<char>>, Seq<char>>(jobs[k]->Err_0),
        (forall|j: int| 0 <= j < jobs.len() ==> (#[trigger] jobs[j]) is Ok) ==> all_outputs(
            jobs,
        ) is Ok && (exists|a: Seq<Seq<char>>, b: Seq<Seq<char>>|
            all_outputs(jobs)->Ok_0 == #[trigger] (a + jobs[k]->Ok_0 + b) && all_outputs(
                jobs.take(k),
            ) == Ok::<Seq<Seq<char>>, Seq<char>>(a)),
    decreases jobs.len(),
{
    if k < jobs.len() - 1 {
        let head = jobs.drop_last();
        law_outputs_of_jobs(head, k);
        assert(head[k] == jobs[k]);
        assert(head.take(k) =~= jobs.take(k));
        if (forall|j: int| 0 <= j < k ==> (#[trigger] jobs[j]) is Ok) && jobs[k] is Err {
            assert forall|j: int| 0 <= j < k implies (#[trigger] head[j]) is Ok by {
                assert(head[j] == jobs[j]);
            }
        }
        if forall|j: int| 0 <= j < jobs.len() ==> (#[trigger] jobs[j]) is Ok {
            assert forall|j: int| 0 <= j < head.len() implies (#[trigger] head[j]) is Ok by {
                assert(head[j] == jobs[j]);
            }
            let (a, b) = choose|a: Seq<Seq<char>>, b: Seq<Seq<char>>|
                all_outputs(head)->Ok_0 == #[trigger] (a + head[k]->Ok_0 + b) && all_outputs(
                    head.take(k),
                ) == Ok::<Seq<Seq<char>>, Seq<char>>(a);
            assert(jobs[jobs.len() - 1] is Ok);
            let more = jobs.last()->Ok_0;
            assert(all_outputs(jobs)->Ok_0 =~= a + jobs[k]->Ok_0 + (b + more));
        }
    } else {
        lemma_all_well(jobs.drop_last());
        assert(jobs.take(k) =~= jobs.drop_last());
        if forall|j: int| 0 <= j < k ==> (#[trigger] jobs[j]) is Ok {
            assert forall|j: int| 0 <= j < jobs.drop_last().len() implies (
            #[trigger] jobs.drop_last()[j]) is Ok by {
                assert(jobs.drop_last()[j] == jobs[j]);
            }
            if jobs[k] is Ok {
                let a = all_outputs(jobs.drop_last())->Ok_0;
                assert(all_outputs(jobs)->Ok_0 =~= a + jobs[k]->Ok_0 + Seq::<Seq<char>>::empty());
            }
        }
    }
}

proof fn lemma_all_well(jobs: Seq<Result<Seq<Seq<char>>, Seq<char>>>)
    ensures
        (forall|j: int| 0 <= j < jobs.len() ==> (#[trigger] jobs[j]) is Ok) ==> all_outputs(
            jobs,
        ) is Ok,
    decreases jobs.len(),
{
    if jobs.len() > 0 {
        lemma_all_well(jobs.drop_last());
        if forall|j: int| 0 <= j < jobs.len() ==> (#[trigger] jobs[j]) is Ok {
            assert(jobs[jobs.len() - 1] is Ok);
            assert forall|j: int| 0 <= j < jobs.drop_last().len() implies (
            #[trigger] jobs.drop_last()[j]) is Ok by {
                assert(jobs.drop_last()[j] == jobs[j]);
            }
        }
    }
}

} // verus!
