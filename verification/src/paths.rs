//! Path strings: parents, base names, extensions and the depth below a root.

use crate::text;
use vstd::prelude::*;
use vstd::slice::slice_subrange;
use vstd::slice::slice_to_vec;
use vstd::string::*;


verus! {

/// The Unicode lower case of a text, as `str::to_lowercase` gives it.
pub uninterp spec fn lowercase(s: Seq<char>) -> Seq<char>;

/// `str::to_lowercase` is a function of the text; on ASCII it lowers the
/// letters and leaves the rest.
pub assume_specification[ str::to_lowercase ](s: &str) -> (r: String)
    ensures
        r@ == lowercase(s@),
        vstd::utf8::is_ascii_chars(s@) ==> r@ == s@.map_values(|c: char| text::ascii_lower_char(c)),
;

// ---------------------------------------------------------------------------
// Slashes
// ---------------------------------------------------------------------------

/// `s` without the slashes at its end.
pub open spec fn drop_slashes_end(s: Seq<char>) -> Seq<char>
    decreases s.len(),
{
    if s.len() > 0 && s.last() == '/' {
        drop_slashes_end(s.drop_last())
    } else {
        s
    }
}

/// `s` without the slashes at its start.
pub open spec fn drop_slashes_start(s: Seq<char>) -> Seq<char>
    decreases s.len(),
{
    if s.len() > 0 && s[0] == '/' {
        drop_slashes_start(s.drop_first())
    } else {
        s
    }
}

/// The path of the root directory.
pub open spec fn slash() -> Seq<char> {
    seq!['/']
}

pub proof fn lemma_drop_slashes_end(s: Seq<char>)
    ensures
        drop_slashes_end(s).len() <= s.len(),
        drop_slashes_end(s) == s.take(drop_slashes_end(s).len() as int),
        drop_slashes_end(s).len() > 0 ==> drop_slashes_end(s).last() != '/',
    decreases s.len(),
{
    if s.len() > 0 && s.last() == '/' {
        lemma_drop_slashes_end(s.drop_last());
        let n = drop_slashes_end(s).len() as int;
        assert(s.drop_last().take(n) =~= s.take(n));
    } else {
        assert(s.take(s.len() as int) =~= s);
    }
}

pub(crate) fn without_slashes_end(s: &[char]) -> (r: &[char])
    ensures
        r@ == drop_slashes_end(s@),
{
    let mut n: usize = s.len();
    proof {
        assert(s@.take(s@.len() as int) =~= s@);
    }
    while n > 0 && s[n - 1] == '/'
        invariant
            n <= s.len(),
            drop_slashes_end(s@) == drop_slashes_end(s@.take(n as int)),
        decreases n,
    {
        proof {
            assert(s@.take(n as int).drop_last() =~= s@.take(n - 1));
        }
        n = n - 1;
    }
    let r = slice_subrange(s, 0, n);
    proof {
        assert(r@ =~= s@.take(n as int));
    }
    r
}

fn without_slashes_start(s: &[char]) -> (r: &[char])
    ensures
        r@ == drop_slashes_start(s@),
{
    let mut i: usize = 0;
    proof {
        assert(s@.skip(0) =~= s@);
    }
    while i < s.len() && s[i] == '/'
        invariant
            i <= s.len(),
            drop_slashes_start(s@) == drop_slashes_start(s@.skip(i as int)),
        decreases s.len() - i,
    {
        proof {
            assert(s@.skip(i as int).drop_first() =~= s@.skip(i + 1));
        }
        i = i + 1;
    }
    let r = slice_subrange(s, i, s.len());
    proof {
        assert(r@ =~= s@.skip(i as int));
    }
    r
}

fn slash_string() -> (r: String)
    ensures
        r@ == slash(),
{
    let mut r: String = String::new();
    r.push('/');
    proof {
        assert(r@ =~= slash());
    }
    r
}

// ---------------------------------------------------------------------------
// The root of a tree
// ---------------------------------------------------------------------------

/// The root of a scan without slashes at its end; `/` where nothing is left.
pub open spec fn normal_root(s: Seq<char>) -> Seq<char> {
    if drop_slashes_end(s).len() == 0 {
        slash()
    } else {
        drop_slashes_end(s)
    }
}

/// The root of a scan without slashes at its end.
pub fn normalize_root(root_dir: &str) -> (r: String)
    ensures
        r@ == normal_root(root_dir@),
{
    let s = text::to_chars(root_dir);
    let t = without_slashes_end(&s);
    if t.len() == 0 {
        slash_string()
    } else {
        text::from_chars(t)
    }
}

/// A normal root stays as it is.
pub proof fn law_normal_root_idempotent(s: Seq<char>)
    ensures
        normal_root(normal_root(s)) == normal_root(s),
{
    lemma_drop_slashes_end(s);
    let t = drop_slashes_end(s);
    if t.len() == 0 {
        assert(slash().drop_last() =~= Seq::<char>::empty());
        assert(drop_slashes_end(Seq::<char>::empty()).len() == 0);
    }
}

// ---------------------------------------------------------------------------
// Parents and base names
// ---------------------------------------------------------------------------

/// The directory that holds a path in the tree; `/` is its own parent.
pub open spec fn parent_of(s: Seq<char>) -> Seq<char> {
    let t = drop_slashes_end(s);
    if text::rfind(t, '/') <= 0 {
        slash()
    } else {
        t.take(text::rfind(t, '/'))
    }
}

/// The last segment of a path; empty for the root.
pub open spec fn base_name(s: Seq<char>) -> Seq<char> {
    let t = drop_slashes_end(s);
    t.skip(text::rfind(t, '/') + 1)
}

/// A parent is the root or shorter than what it holds.
pub proof fn lemma_parent_shorter(s: Seq<char>)
    ensures
        parent_of(s) == slash() || parent_of(s).len() < s.len(),
        parent_of(s).len() >= 1,
{
    lemma_drop_slashes_end(s);
    text::lemma_rfind(drop_slashes_end(s), '/');
}

/// The root is its own parent.
pub proof fn lemma_parent_of_slash()
    ensures
        parent_of(slash()) == slash(),
        drop_slashes_end(slash()).len() == 0,
{
    assert(slash().drop_last() =~= Seq::<char>::empty());
    assert(drop_slashes_end(Seq::<char>::empty()).len() == 0);
    lemma_drop_slashes_end(slash());
    text::lemma_rfind(drop_slashes_end(slash()), '/');
}

/// The directory that holds a path in the tree.
pub fn tm_parent(path: &str) -> (r: String)
    ensures
        r@ == parent_of(path@),
{
    let s = text::to_chars(path);
    let t = without_slashes_end(&s);
    match text::rfind_char(t, '/') {
        Some(i) => {
            if i == 0 {
                slash_string()
            } else {
                let head = slice_subrange(t, 0, i);
                proof {
                    assert(head@ =~= t@.take(i as int));
                }
                text::from_chars(head)
            }
        },
        None => slash_string(),
    }
}

/// The last segment of a path.
pub fn tm_basename(path: &str) -> (r: String)
    ensures
        r@ == base_name(path@),
{
    let s = text::to_chars(path);
    let t = without_slashes_end(&s);
    proof {
        text::lemma_rfind(t@, '/');
    }
    match text::rfind_char(t, '/') {
        Some(i) => {
            let tail = slice_subrange(t, i + 1, t.len());
            proof {
                assert(tail@ =~= t@.skip(i + 1));
            }
            text::from_chars(tail)
        },
        None => {
            proof {
                assert(t@.skip(0) =~= t@);
            }
            text::from_chars(t)
        },
    }
}

/// A base name holds no slash.
pub proof fn law_base_name_has_no_slash(s: Seq<char>)
    ensures
        !base_name(s).contains('/'),
{
    let t = drop_slashes_end(s);
    text::lemma_rfind(t, '/');
    let b = base_name(s);
    assert forall|i: int| 0 <= i < b.len() implies b[i] != '/' by {
        assert(b[i] == t[text::rfind(t, '/') + 1 + i]);
    }
}

/// The parent of a path, if it names one: not of the root, nor of a path
/// without a slash.
pub open spec fn named_parent(s: Seq<char>) -> Option<Seq<char>> {
    let t = drop_slashes_end(s);
    if text::rfind(t, '/') < 0 {
        None
    } else if text::rfind(t, '/') == 0 {
        Some(slash())
    } else {
        Some(t.take(text::rfind(t, '/')))
    }
}

/// The parent of a path, if it names one.
pub fn parent_path(path: &str) -> (r: Option<String>)
    ensures
        r is Some <==> named_parent(path@) is Some,
        r matches Some(p) ==> named_parent(path@) == Some(p@),
{
    let s = text::to_chars(path);
    let t = without_slashes_end(&s);
    match text::rfind_char(t, '/') {
        Some(i) => {
            if i == 0 {
                Some(slash_string())
            } else {
                let head = slice_subrange(t, 0, i);
                proof {
                    assert(head@ =~= t@.take(i as int));
                }
                Some(text::from_chars(head))
            }
        },
        None => None,
    }
}

/// Where a path names a parent, that is the directory that holds it in the tree.
pub proof fn law_named_parent_is_parent(s: Seq<char>)
    ensures
        named_parent(s) matches Some(p) ==> p == parent_of(s),
{
}

// ---------------------------------------------------------------------------
// Depth
// ---------------------------------------------------------------------------

/// What a path holds below `root`, without slashes at its ends; the whole path
/// where it does not begin with `root`.
pub open spec fn relative(path: Seq<char>, root: Seq<char>) -> Seq<char> {
    let rest = if root.is_prefix_of(path) {
        path.skip(root.len() as int)
    } else {
        path
    };
    drop_slashes_end(drop_slashes_start(rest))
}

fn relative_chars<'a>(path: &'a [char], root: &[char]) -> (r: &'a [char])
    ensures
        r@ == relative(path@, root@),
{
    if text::starts_with(path, root) {
        let rest = slice_subrange(path, root.len(), path.len());
        proof {
            assert(rest@ =~= path@.skip(root@.len() as int));
        }
        without_slashes_end(without_slashes_start(rest))
    } else {
        without_slashes_end(without_slashes_start(path))
    }
}

/// The number of segments of a path below `root`.
pub open spec fn depth_below(path: Seq<char>, root: Seq<char>) -> nat {
    let rel = relative(path, root);
    if rel.len() == 0 {
        0
    } else {
        text::split(rel, '/').len()
    }
}

/// The number of segments of a path below `root`.
pub fn tm_depth(path: &str, root: &str) -> (r: usize)
    ensures
        r == depth_below(path@, root@),
{
    let p = text::to_chars(path);
    let q = text::to_chars(root);
    let rel = relative_chars(&p, &q);
    if rel.len() == 0 {
        0
    } else {
        let parts = text::split_chars(rel, '/');
        proof {
            assert(text::rows(parts@).len() == parts@.len());
        }
        parts.len()
    }
}

/// The first `n` pieces, or all where there are fewer.
pub open spec fn first_pieces(pieces: Seq<Seq<char>>, n: nat) -> Seq<Seq<char>> {
    if pieces.len() <= n {
        pieces
    } else {
        pieces.take(n as int)
    }
}

/// A path cut down to `max_level` segments below `root`.
pub open spec fn clamped(path: Seq<char>, root: Seq<char>, max_level: nat) -> Seq<char> {
    let rel = relative(path, root);
    if rel.len() == 0 || max_level == 0 {
        root
    } else {
        let kept = text::join(first_pieces(text::split(rel, '/'), max_level), slash());
        if root == slash() {
            slash() + kept
        } else {
            drop_slashes_end(root) + slash() + kept
        }
    }
}

/// The names of directories below one another.
pub open spec fn are_names(names: Seq<Seq<char>>) -> bool {
    forall|i: int|
        0 <= i < names.len() ==> (#[trigger] names[i]).len() > 0 && !names[i].contains('/')
}

/// The path that leads from `root` by the names.
pub open spec fn path_by(root: Seq<char>, names: Seq<Seq<char>>) -> Seq<char> {
    if names.len() == 0 {
        root
    } else if root == slash() {
        slash() + text::join(names, slash())
    } else {
        root + slash() + text::join(names, slash())
    }
}

proof fn lemma_relative_path(root: Seq<char>, names: Seq<Seq<char>>)
    requires
        root == slash() || (root.len() > 0 && root.last() != '/'),
        are_names(names),
    ensures
        relative(path_by(root, names), root) == text::join(names, slash()),
        names.len() > 0 ==> text::join(names, slash()).len() > 0 && text::split(
            text::join(names, slash()),
            '/',
        ) == names,
{
    let path = path_by(root, names);
    let rest = path.skip(root.len() as int);
    if names.len() == 0 {
        assert(root.is_prefix_of(path)) by {
            assert(path.subrange(0, root.len() as int) =~= root);
        }
        assert(rest =~= Seq::<char>::empty());
    } else {
        let j = text::join(names, slash());
        assert(root.is_prefix_of(path)) by {
            assert(path.subrange(0, root.len() as int) =~= root);
        }
        assert forall|i: int| 0 <= i < names.len() implies (#[trigger] names[i]).len() > 0
            && !names[i].contains('/') by {}
        text::lemma_joined_ends(names, slash());
        assert(j[0] != '/') by {
            assert(names[0].contains(names[0][0]));
        }
        assert(j.last() != '/') by {
            let l = names[names.len() - 1];
            assert(l.contains(l[l.len() - 1]));
        }
        text::lemma_split_of_joined(names, '/');
        if root == slash() {
            assert(rest =~= j);
        } else {
            assert(rest =~= slash() + j);
            assert(rest.drop_first() =~= j);
        }
        assert(drop_slashes_start(j) == j);
        assert(drop_slashes_start(rest) == j);
    }
}

/// A path is cut down to its first names: its depth is then the smaller of its
/// depth and the level, and cutting it again changes nothing.
pub proof fn law_cut_paths(root: Seq<char>, names: Seq<Seq<char>>, level: nat)
    requires
        root == slash() || (root.len() > 0 && root.last() != '/'),
        are_names(names),
    ensures
        ({
            let path = path_by(root, names);
            let n = if names.len() <= level {
                names.len()
            } else {
                level
            };
            let cut = clamped(path, root, level);
            &&& depth_below(path, root) == names.len()
            &&& cut == path_by(root, names.take(n as int))
            &&& depth_below(cut, root) == n
            &&& clamped(cut, root, level) == cut
        }),
{
    let n = if names.len() <= level {
        names.len()
    } else {
        level
    };
    let kept = names.take(n as int);
    lemma_cut(root, names, level);
    assert(are_names(kept)) by {
        assert forall|i: int| 0 <= i < kept.len() implies (#[trigger] kept[i]).len() > 0
            && !kept[i].contains('/') by {
            assert(kept[i] == names[i]);
        }
    }
    lemma_cut(root, kept, level);
    assert(kept.take(n as int) =~= kept);
}

proof fn lemma_cut(root: Seq<char>, names: Seq<Seq<char>>, level: nat)
    requires
        root == slash() || (root.len() > 0 && root.last() != '/'),
        are_names(names),
    ensures
        depth_below(path_by(root, names), root) == names.len(),
        clamped(path_by(root, names), root, level) == path_by(
            root,
            names.take(
                if names.len() <= level {
                    names.len() as int
                } else {
                    level as int
                },
            ),
        ),
{
    lemma_relative_path(root, names);
    assert(names.take(names.len() as int) =~= names);
    if names.len() == 0 || level == 0 {
        assert(names.take(0).len() == 0);
    } else if root != slash() {
        assert(drop_slashes_end(root) == root);
    }
}

fn join_rows(pieces: &Vec<Vec<char>>, n: usize, sep: char) -> (r: Vec<char>)
    requires
        n <= pieces@.len(),
    ensures
        r@ == text::join(text::rows(pieces@).take(n as int), seq![sep]),
{
    let mut r: Vec<char> = Vec::new();
    let mut i: usize = 0;
    while i < n
        invariant
            i <= n,
            n <= pieces@.len(),
            r@ == text::join(text::rows(pieces@).take(i as int), seq![sep]),
        decreases n - i,
    {
        let ghost before = r@;
        if i > 0 {
            r.push(sep);
        }
        text::append_chars(&mut r, &pieces[i]);
        proof {
            let t = text::rows(pieces@).take(i + 1);
            assert(t.drop_last() =~= text::rows(pieces@).take(i as int));
            assert(t.last() == pieces@[i as int]@);
            if i == 0 {
                assert(text::rows(pieces@).take(0) =~= Seq::empty());
                assert(r@ =~= pieces@[0]@);
            } else {
                assert(r@ =~= before + seq![sep] + pieces@[i as int]@);
            }
        }
        i = i + 1;
    }
    r
}

/// A path cut down to `max_level` segments below `root`.
pub fn tm_clamp(path: &str, root: &str, max_level: usize) -> (r: String)
    ensures
        r@ == clamped(path@, root@, max_level as nat),
{
    let p = text::to_chars(path);
    let q = text::to_chars(root);
    let rel = relative_chars(&p, &q);
    if rel.len() == 0 || max_level == 0 {
        return text::from_chars(&q);
    }
    let parts = text::split_chars(rel, '/');
    let n: usize = if parts.len() <= max_level {
        parts.len()
    } else {
        max_level
    };
    let kept = join_rows(&parts, n, '/');
    proof {
        assert(text::rows(parts@).len() == parts@.len());
        assert(text::rows(parts@).take(parts@.len() as int) =~= text::rows(parts@));
    }
    let mut r: Vec<char> = Vec::new();
    if q.len() == 1 && q[0] == '/' {
        proof {
            assert(q@ =~= slash());
        }
        r.push('/');
        text::append_chars(&mut r, &kept);
        proof {
            assert(r@ =~= slash() + kept@);
        }
    } else {
        text::append_chars(&mut r, without_slashes_end(&q));
        r.push('/');
        text::append_chars(&mut r, &kept);
        proof {
            assert(q@ != slash()) by {
                if q@ == slash() {
                    assert(q@.len() == 1 && q@[0] == '/');
                }
            }
            assert(r@ =~= drop_slashes_end(q@) + slash() + kept@);
        }
    }
    text::from_chars(&r)
}

/// The owner with the greatest weight, where one has a weight above zero.
pub fn tm_pick_owner(weights: &Vec<(String, i64)>) -> (r: Option<String>)
    ensures
        r is None <==> forall|i: int| 0 <= i < weights@.len() ==> (#[trigger] weights@[i]).1 <= 0,
        r matches Some(o) ==> exists|i: int|
            0 <= i < weights@.len() && weights@[i].0@ == o@ && weights@[i].1 > 0 && forall|j: int|
                0 <= j < weights@.len() ==> (#[trigger] weights@[j]).1 <= weights@[i].1,
{
    let mut best: Option<usize> = None;
    let mut i: usize = 0;
    while i < weights.len()
        invariant
            i <= weights.len(),
            best is None ==> forall|j: int| 0 <= j < i ==> (#[trigger] weights@[j]).1 <= 0,
            best matches Some(b) ==> b < i && weights@[b as int].1 > 0 && forall|j: int|
                0 <= j < i ==> (#[trigger] weights@[j]).1 <= weights@[b as int].1,
        decreases weights.len() - i,
    {
        let w: i64 = weights[i].1;
        if w > 0 {
            match best {
                None => {
                    best = Some(i);
                },
                Some(b) => {
                    if w >= weights[b].1 {
                        best = Some(i);
                    }
                },
            }
        }
        i = i + 1;
    }
    match best {
        None => None,
        Some(b) => {
            let o = weights[b].0.clone();
            proof {
                assert(weights@[b as int].0@ == o@);
            }
            Some(o)
        },
    }
}

// ---------------------------------------------------------------------------
// Extensions
// ---------------------------------------------------------------------------

/// A segment that names no entry of its own: empty, or a single dot.
pub open spec fn is_skipped_segment(s: Seq<char>) -> bool {
    s.len() == 0 || s == seq!['.']
}

/// The last segment that is not skipped, if there is one.
pub open spec fn last_segment(parts: Seq<Seq<char>>) -> Option<Seq<char>>
    decreases parts.len(),
{
    if parts.len() == 0 {
        None
    } else if is_skipped_segment(parts.last()) {
        last_segment(parts.drop_last())
    } else {
        Some(parts.last())
    }
}

/// The name of the file that a path leads to; none for the root and where the
/// path ends by going up.
pub open spec fn file_name(path: Seq<char>) -> Option<Seq<char>> {
    match last_segment(text::split(path, '/')) {
        Some(s) => if s == seq!['.', '.'] {
            None
        } else {
            Some(s)
        },
        None => None,
    }
}

/// What follows the last dot of a file's name; empty where there is no dot, or
/// only one at the start.
pub open spec fn name_extension(name: Seq<char>) -> Seq<char> {
    if text::rfind(name, '.') <= 0 {
        Seq::empty()
    } else {
        name.skip(text::rfind(name, '.') + 1)
    }
}

/// The extension of the file that a path leads to.
pub open spec fn path_extension(path: Seq<char>) -> Seq<char> {
    match file_name(path) {
        Some(name) => name_extension(name),
        None => Seq::empty(),
    }
}

/// The name of the file that a path leads to.
pub fn file_name_chars(path: &[char]) -> (r: Option<Vec<char>>)
    ensures
        r is Some <==> file_name(path@) is Some,
        r matches Some(n) ==> file_name(path@) == Some(n@),
{
    let parts = text::split_chars(path, '/');
    let mut n: usize = parts.len();
    proof {
        assert(text::rows(parts@).len() == parts@.len());
        assert(text::rows(parts@).take(n as int) =~= text::rows(parts@));
    }
    while n > 0
        invariant
            n <= parts.len(),
            text::rows(parts@) == text::split(path@, '/'),
            last_segment(text::split(path@, '/')) == last_segment(text::rows(parts@).take(n as int)),
        decreases n,
    {
        let part: &Vec<char> = &parts[n - 1];
        proof {
            assert(text::rows(parts@).take(n as int).last() == part@);
            assert(text::rows(parts@).take(n as int).drop_last() =~= text::rows(parts@).take(n - 1));
        }
        let skip: bool = part.len() == 0 || (part.len() == 1 && part[0] == '.');
        proof {
            if part@.len() == 1 && part@[0] == '.' {
                assert(part@ =~= seq!['.']);
            }
        }
        if !skip {
            if part.len() == 2 && part[0] == '.' && part[1] == '.' {
                proof {
                    assert(part@ =~= seq!['.', '.']);
                }
                return None;
            }
            let name = slice_to_vec(part.as_slice());
            return Some(name);
        }
        n = n - 1;
    }
    None
}

/// The extension of the file that a path leads to, in lower case and without
/// the dot.
pub fn extension_for_path(path: &str) -> (r: String)
    ensures
        r@ == lowercase(path_extension(path@)),
{
    let p = text::to_chars(path);
    let mut ext: Vec<char> = Vec::new();
    match file_name_chars(&p) {
        Some(name) => {
            proof {
                text::lemma_rfind(name@, '.');
            }
            match text::rfind_char(&name, '.') {
                Some(i) => {
                    if i > 0 {
                        let tail = slice_subrange(name.as_slice(), i + 1, name.len());
                        proof {
                            assert(tail@ =~= name@.skip(i + 1));
                        }
                        ext = slice_to_vec(tail);
                    }
                },
                None => {},
            }
        },
        None => {},
    }
    proof {
        assert(ext@ =~= path_extension(path@));
    }
    let e = text::from_chars(&ext);
    e.as_str().to_lowercase()
}

// ---------------------------------------------------------------------------
// Cleaning
// ---------------------------------------------------------------------------

/// A character as it may stand in a report: control characters become U+FFFD.
pub open spec fn clean_char(c: char) -> char {
    if text::is_control_char(c) {
        '\u{FFFD}'
    } else {
        c
    }
}

/// A path as it may stand in a report.
pub open spec fn clean_path(s: Seq<char>) -> Seq<char> {
    s.map_values(|c: char| clean_char(c))
}

/// A path as it may stand in a report.
pub fn sanitise_path(raw: &str) -> (r: String)
    ensures
        r@ == clean_path(raw@),
{
    let s = text::to_chars(raw);
    let mut r: String = String::new();
    let mut i: usize = 0;
    while i < s.len()
        invariant
            i <= s.len(),
            r@ == clean_path(s@.take(i as int)),
        decreases s.len() - i,
    {
        let c: char = s[i];
        if text::is_control(c) {
            r.push('\u{FFFD}');
        } else {
            r.push(c);
        }
        proof {
            assert(clean_path(s@.take(i + 1)) =~= clean_path(s@.take(i as int)).push(
                clean_char(s@[i as int]),
            ));
        }
        i = i + 1;
    }
    proof {
        assert(s@.take(s@.len() as int) =~= s@);
    }
    r
}

/// A cleaned path is clean: it is as long as it was, cleaning it again changes
/// nothing, and it holds no control character.
pub proof fn law_clean_path_idempotent(s: Seq<char>)
    ensures
        clean_path(s).len() == s.len(),
        clean_path(clean_path(s)) == clean_path(s),
        forall|i: int| 0 <= i < s.len() ==> !text::is_control_char(#[trigger] clean_path(s)[i]),
        forall|i: int|
            0 <= i < s.len() && !text::is_control_char(s[i]) ==> #[trigger] clean_path(s)[i] == s[i],
{
    assert(clean_path(clean_path(s)) =~= clean_path(s));
}

/// A character of a user's directory or spill file: letters, digits, `-`, `_`
/// and `.` stay, every other character becomes `_`.
pub open spec fn file_char(c: char) -> char {
    if text::is_ascii_alnum_char(c) || c == '-' || c == '_' || c == '.' {
        c
    } else {
        '_'
    }
}

/// The name of a user's directory.
pub fn safe_user_dir(username: &str) -> (r: String)
    ensures
        r@ == username@.map_values(|c: char| file_char(c)),
{
    let s = text::to_chars(username);
    let mut r: String = String::new();
    let mut i: usize = 0;
    let ghost f = |c: char| file_char(c);
    while i < s.len()
        invariant
            i <= s.len(),
            f == (|c: char| file_char(c)),
            r@ == s@.take(i as int).map_values(f),
        decreases s.len() - i,
    {
        let c: char = s[i];
        if text::is_ascii_alnum(c) || c == '-' || c == '_' || c == '.' {
            r.push(c);
        } else {
            r.push('_');
        }
        proof {
            assert(s@.take(i + 1).map_values(f) =~= s@.take(i as int).map_values(f).push(
                f(s@[i as int]),
            ));
        }
        i = i + 1;
    }
    proof {
        assert(s@.take(s@.len() as int) =~= s@);
    }
    r
}

/// The name that a user's spill files begin with.
pub fn sanitize_filename(s: &str) -> (r: String)
    ensures
        r@ == s@.map_values(|c: char| file_char(c)),
{
    safe_user_dir(s)
}

// ---------------------------------------------------------------------------
// Components
// ---------------------------------------------------------------------------

/// The segments that name an entry.
pub open spec fn named_segments(parts: Seq<Seq<char>>) -> Seq<Seq<char>>
    decreases parts.len(),
{
    if parts.len() == 0 {
        Seq::empty()
    } else if is_skipped_segment(parts.last()) {
        named_segments(parts.drop_last())
    } else {
        named_segments(parts.drop_last()).push(parts.last())
    }
}

/// The components of a path: the root of an absolute path or the dot that a
/// relative path begins with, and the segments that name an entry.
pub open spec fn components(path: Seq<char>) -> Seq<Seq<char>> {
    let parts = text::split(path, '/');
    if path.len() > 0 && path[0] == '/' {
        seq![slash()] + named_segments(parts)
    } else if parts[0] == seq!['.'] {
        seq![seq!['.']] + named_segments(parts)
    } else {
        named_segments(parts)
    }
}

/// Whether a path is `base` or stands below it, component by component.
pub open spec fn path_below(path: Seq<char>, base: Seq<char>) -> bool {
    components(base).is_prefix_of(components(path))
}

fn component_list(path: &[char]) -> (r: Vec<Vec<char>>)
    ensures
        text::rows(r@) == components(path@),
{
    let parts = text::split_chars(path, '/');
    let ghost all = text::split(path@, '/');
    let mut r: Vec<Vec<char>> = Vec::new();
    proof {
        text::lemma_split_nonempty(path@, '/');
        assert(text::rows(parts@).len() == parts@.len());
        assert(all[0] == parts@[0]@);
    }
    if path.len() > 0 && path[0] == '/' {
        r.push(vec!['/']);
    } else if parts[0].len() == 1 && parts[0][0] == '.' {
        r.push(vec!['.']);
    }
    let ghost head = text::rows(r@);
    proof {
        if path@.len() > 0 && path@[0] == '/' {
            assert(r@[0]@ =~= slash());
            assert(head =~= seq![slash()]);
        } else if parts@[0]@.len() == 1 && parts@[0]@[0] == '.' {
            assert(parts@[0]@ =~= seq!['.']);
            assert(r@[0]@ =~= seq!['.']);
            assert(head =~= seq![seq!['.']]);
        } else {
            assert(head =~= Seq::<Seq<char>>::empty());
            assert(all[0] != seq!['.']) by {
                if all[0] == seq!['.'] {
                    assert(parts@[0]@.len() == 1 && parts@[0]@[0] == '.');
                }
            }
        }
        assert(all.take(0) =~= Seq::<Seq<char>>::empty());
        assert(head + named_segments(all.take(0)) =~= head);
    }
    let mut i: usize = 0;
    while i < parts.len()
        invariant
            i <= parts@.len(),
            all == text::rows(parts@),
            text::rows(r@) == head + named_segments(all.take(i as int)),
        decreases parts@.len() - i,
    {
        let part: &Vec<char> = &parts[i];
        proof {
            assert(all.take(i + 1).drop_last() =~= all.take(i as int));
            assert(all.take(i + 1).last() == part@);
            if part@.len() == 1 && part@[0] == '.' {
                assert(part@ =~= seq!['.']);
            }
        }
        if !(part.len() == 0 || (part.len() == 1 && part[0] == '.')) {
            let ghost before = text::rows(r@);
            let copy = slice_to_vec(part.as_slice());
            r.push(copy);
            proof {
                assert(text::rows(r@) =~= before.push(part@));
                assert(head + named_segments(all.take(i as int)).push(part@) =~= (head
                    + named_segments(all.take(i as int))).push(part@));
            }
        }
        i = i + 1;
    }
    proof {
        assert(all.take(i as int) =~= all);
        assert(head + named_segments(all) =~= components(path@));
    }
    r
}

/// Whether a path is `base` or stands below it, component by component.
pub fn path_starts_with(path: &str, base: &str) -> (r: bool)
    ensures
        r == path_below(path@, base@),
{
    let pc = text::to_chars(path);
    let bc = text::to_chars(base);
    let p = component_list(&pc);
    let b = component_list(&bc);
    let ghost x = components(path@);
    let ghost y = components(base@);
    proof {
        assert(text::rows(p@).len() == p@.len());
        assert(text::rows(b@).len() == b@.len());
        assert(forall|k: int| 0 <= k < p@.len() ==> x[k] == (#[trigger] p@[k])@);
        assert(forall|k: int| 0 <= k < b@.len() ==> y[k] == (#[trigger] b@[k])@);
    }
    if b.len() > p.len() {
        return false;
    }
    let mut i: usize = 0;
    while i < b.len()
        invariant
            i <= b@.len(),
            b@.len() <= p@.len(),
            x.len() == p@.len(),
            y.len() == b@.len(),
            x == components(path@),
            y == components(base@),
            forall|k: int| 0 <= k < p@.len() ==> x[k] == (#[trigger] p@[k])@,
            forall|k: int| 0 <= k < b@.len() ==> y[k] == (#[trigger] b@[k])@,
            forall|k: int| 0 <= k < i ==> #[trigger] x[k] == y[k],
        decreases b@.len() - i,
    {
        if !text::chars_eq(&p[i], &b[i]) {
            proof {
                assert(x[i as int] != y[i as int]);
                if y.is_prefix_of(x) {
                    assert(x.subrange(0, y.len() as int)[i as int] == x[i as int]);
                }
            }
            return false;
        }
        proof {
            assert(x[i as int] == p@[i as int]@);
            assert(y[i as int] == b@[i as int]@);
        }
        i = i + 1;
    }
    proof {
        assert(x.subrange(0, y.len() as int) =~= y);
    }
    true
}

/// Every path is below itself, and what is below a path that is below a third
/// is below the third.
pub proof fn law_path_below_is_an_order(a: Seq<char>, b: Seq<char>, c: Seq<char>)
    ensures
        path_below(a, a),
        path_below(a, b) && path_below(b, c) ==> path_below(a, c),
{
    let x = components(a);
    let y = components(b);
    let z = components(c);
    assert(x.subrange(0, x.len() as int) =~= x);
    if path_below(a, b) && path_below(b, c) {
        assert(x.subrange(0, z.len() as int) =~= x.subrange(0, y.len() as int).subrange(
            0,
            z.len() as int,
        ));
    }
}

/// `name` under `base`: an absolute name stands alone.
pub open spec fn joined(base: Seq<char>, name: Seq<char>) -> Seq<char> {
    if name.len() > 0 && name[0] == '/' {
        name
    } else if base.len() == 0 || base.last() == '/' {
        base + name
    } else {
        base.push('/') + name
    }
}

/// Whether a path starts at the root.
pub fn is_absolute(path: &str) -> (r: bool)
    ensures
        r == (path@.len() > 0 && path@[0] == '/'),
{
    let v = text::to_chars(path);
    v.len() > 0 && v[0] == '/'
}

/// `name` under `base`.
pub fn join_path(base: &str, name: &str) -> (r: String)
    ensures
        r@ == joined(base@, name@),
{
    let n = text::to_chars(name);
    if n.len() > 0 && n[0] == '/' {
        return text::from_chars(&n);
    }
    let mut b = text::to_chars(base);
    if b.len() > 0 && b[b.len() - 1] != '/' {
        b.push('/');
    }
    text::append_chars(&mut b, &n);
    text::from_chars(&b)
}

/// A name put behind a directory and a slash has that directory for its parent and is its
/// last segment, also with a slash at the end; below the root the parent is the root.
pub proof fn law_names_in_directories(dir: Seq<char>, name: Seq<char>)
    requires
        dir.len() > 0,
        dir.last() != '/',
        name.len() > 0,
        !name.contains('/'),
    ensures
        base_name(dir + seq!['/'] + name) == name,
        parent_of(dir + seq!['/'] + name) == dir,
        named_parent(dir + seq!['/'] + name) == Some(dir),
        base_name((dir + seq!['/'] + name).push('/')) == name,
        parent_of((dir + seq!['/'] + name).push('/')) == dir,
        base_name(seq!['/'] + name) == name,
        parent_of(seq!['/'] + name) == seq!['/'],
        named_parent(seq!['/'] + name) == Some(seq!['/']),
{
    let p = dir + seq!['/'] + name;
    let q = seq!['/'] + name;
    let d = dir.len() as int;
    assert(name.contains(name.last()));
    assert(p.last() == name.last());
    assert(q.last() == name.last());
    assert(p.push('/').drop_last() =~= p);
    assert(drop_slashes_end(p) == p);
    assert(drop_slashes_end(p.push('/')) == p);
    assert(drop_slashes_end(q) == q);
    text::lemma_rfind(p, '/');
    text::lemma_rfind(q, '/');
    let f = text::rfind(p, '/');
    let g = text::rfind(q, '/');
    assert(p[d] == '/');
    assert(q[0] == '/');
    assert(p.contains(p[d]));
    assert(q.contains(q[0]));
    if f > d {
        assert(p[f] == name[f - d - 1]);
        assert(name.contains(name[f - d - 1]));
    }
    if g > 0 {
        assert(q[g] == name[g - 1]);
        assert(name.contains(name[g - 1]));
    }
    assert(f == d && g == 0);
    assert(p.skip(d + 1) =~= name);
    assert(p.take(d) =~= dir);
    assert(q.skip(1) =~= name);
    assert(slash() =~= seq!['/']);
}

/// What follows the last dot of a name is its extension; a dot at its start gives none.
pub proof fn law_extensions(stem: Seq<char>, ext: Seq<char>)
    requires
        !ext.contains('.'),
    ensures
        stem.len() > 0 ==> name_extension(stem + seq!['.'] + ext) == ext,
        name_extension(seq!['.'] + ext).len() == 0,
        name_extension(ext).len() == 0,
{
    let a = stem + seq!['.'] + ext;
    let b = seq!['.'] + ext;
    text::lemma_rfind(a, '.');
    text::lemma_rfind(b, '.');
    text::lemma_rfind(ext, '.');
    let n = stem.len() as int;
    assert(a[n] == '.');
    assert(b[0] == '.');
    assert(a.contains(a[n]));
    let f = text::rfind(a, '.');
    if f > n {
        assert(a[f] == ext[f - n - 1]);
        assert(ext.contains(ext[f - n - 1]));
    }
    let g = text::rfind(b, '.');
    if g > 0 {
        assert(b[g] == ext[g - 1]);
        assert(ext.contains(ext[g - 1]));
    }
    assert(a.skip(n + 1) =~= ext);
}

/// A relative name is joined to a directory with one slash, and an absolute one stands
/// for itself.
pub proof fn law_joined_paths(dir: Seq<char>, name: Seq<char>)
    requires
        dir.len() > 0,
        dir.last() != '/',
    ensures
        name.len() > 0 && name[0] == '/' ==> joined(dir, name) == name,
        name.len() > 0 && name[0] != '/' ==> joined(dir, name) == dir + seq!['/'] + name && joined(
            dir.push('/'),
            name,
        ) == dir + seq!['/'] + name,
{
    assert(dir.push('/') =~= dir + seq!['/']);
    assert(dir.push('/').last() == '/');
}

/// A path stands below itself, what stands below something below a base stands below the
/// base, and two paths stand below each other only where they have the same components.
pub proof fn law_below_is_an_order(a: Seq<char>, b: Seq<char>, c: Seq<char>)
    ensures
        path_below(a, a),
        path_below(a, b) && path_below(b, c) ==> path_below(a, c),
        path_below(a, b) && path_below(b, a) ==> components(a) == components(b),
{
    let (x, y, z) = (components(a), components(b), components(c));
    if y.is_prefix_of(x) && z.is_prefix_of(y) {
        assert(z =~= x.subrange(0, z.len() as int));
    }
    if y.is_prefix_of(x) && x.is_prefix_of(y) {
        assert(x =~= y);
    }
}

} // verus!
