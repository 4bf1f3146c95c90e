//! The tree of the directories below the root of a scan.

use crate::interner::Interner;
use crate::interner;
use crate::paths;
use crate::text;
use vstd::hash_map::StringHashMap;
use vstd::prelude::*;
use vstd::string::*;

verus! {

// ---------------------------------------------------------------------------
// Climbing
// ---------------------------------------------------------------------------

/// How far a path can climb.
pub open spec fn rank(p: Seq<char>) -> nat {
    if p == paths::slash() {
        0
    } else {
        p.len() + 1
    }
}

pub proof fn lemma_rank(p: Seq<char>)
    requires
        p != paths::slash(),
    ensures
        rank(paths::parent_of(p)) < rank(p),
{
    paths::lemma_parent_shorter(p);
}

/// A path and the directories above it, up to `root` or else up to `/`.
pub open spec fn climb(root: Seq<char>, p: Seq<char>) -> Seq<Seq<char>>
    decreases rank(p),
{
    if p == root || p == paths::slash() {
        seq![p]
    } else {
        proof {
            lemma_rank(p);
        }
        seq![p] + climb(root, paths::parent_of(p))
    }
}

/// Whether a path climbs up to `root`.
pub open spec fn rooted(root: Seq<char>, p: Seq<char>) -> bool {
    climb(root, p).last() == root
}

/// The directories of the tree: `root`, and what stands between it and one of
/// `dirs` that is below it.
pub open spec fn in_tree(root: Seq<char>, dirs: Set<Seq<char>>, q: Seq<char>) -> bool {
    q == root || exists|d: Seq<char>|
        #[trigger] dirs.contains(d) && rooted(root, d) && climb(root, d).contains(q)
}

/// `s` is closed: it holds `root` and, with a path, what the path climbs to.
spec fn closed_up(root: Seq<char>, s: Seq<Seq<char>>) -> bool {
    &&& s.contains(root)
    &&& forall|q: Seq<char>|
        #[trigger] s.contains(q) && q != root && q != paths::slash() ==> s.contains(paths::parent_of(q))
}

proof fn lemma_climb(root: Seq<char>, p: Seq<char>)
    ensures
        climb(root, p).len() >= 1,
        climb(root, p)[0] == p,
        climb(root, p).contains(p),
        forall|q: Seq<char>| #[trigger]
            climb(root, p).contains(q) ==> climb(root, q).last() == climb(root, p).last(),
        forall|q: Seq<char>| #[trigger]
            climb(root, p).contains(q) && q != root && q != paths::slash() ==> climb(root, p).contains(
                paths::parent_of(q),
            ),
    decreases rank(p),
{
    let c = climb(root, p);
    assert(c[0] == p);
    if p == root || p == paths::slash() {
        assert forall|q: Seq<char>| #[trigger] c.contains(q) implies q == p by {}
    } else {
        lemma_rank(p);
        lemma_climb(root, paths::parent_of(p));
        let t = climb(root, paths::parent_of(p));
        assert(c =~= seq![p] + t);
        assert(c.last() == t.last());
        assert forall|q: Seq<char>| #[trigger] c.contains(q) implies climb(root, q).last()
            == c.last() && (q != root && q != paths::slash() ==> c.contains(paths::parent_of(q))) by {
            let k = choose|k: int| 0 <= k < c.len() && c[k] == q;
            if k == 0 {
                assert(c[1] == t[0]);
                assert(c.contains(paths::parent_of(p)));
            } else {
                assert(t[k - 1] == q);
                assert(t.contains(q));
                if q != root && q != paths::slash() {
                    assert(t.contains(paths::parent_of(q)));
                    let m = choose|m: int| 0 <= m < t.len() && t[m] == paths::parent_of(q);
                    assert(c[m + 1] == paths::parent_of(q));
                }
            }
        }
    }
}

/// A closed list holds what its members climb through.
proof fn lemma_closed_climb(root: Seq<char>, s: Seq<Seq<char>>, p: Seq<char>)
    requires
        closed_up(root, s),
        s.contains(p),
    ensures
        forall|q: Seq<char>| #[trigger] climb(root, p).contains(q) ==> s.contains(q),
    decreases rank(p),
{
    let c = climb(root, p);
    if p == root || p == paths::slash() {
        assert forall|q: Seq<char>| #[trigger] c.contains(q) implies s.contains(q) by {}
    } else {
        lemma_rank(p);
        lemma_closed_climb(root, s, paths::parent_of(p));
        let t = climb(root, paths::parent_of(p));
        assert forall|q: Seq<char>| #[trigger] c.contains(q) implies s.contains(q) by {
            let k = choose|k: int| 0 <= k < c.len() && c[k] == q;
            if k > 0 {
                assert(t[k - 1] == q);
                assert(t.contains(q));
            }
        }
    }
}

// ---------------------------------------------------------------------------
// The tree
// ---------------------------------------------------------------------------

/// A directory of the tree. Its id is its place in the list.
pub struct DirRowDraft {
    pub parent_id: Option<usize>,
    pub name_id: usize,
    pub depth: usize,
}

/// The directories below a root, breadth first.
pub struct PathTree {
    /// The id of each directory.
    pub dir_id_of: StringHashMap<usize>,
    /// The directories by id.
    pub dirs_in_order: Vec<DirRowDraft>,
    /// The segments by name id.
    pub names: Vec<String>,
    /// The paths by id.
    pub paths: Ghost<Seq<Seq<char>>>,
    /// The path of the root.
    pub root: Ghost<Seq<char>>,
}

/// The name under which a directory of the tree is listed.
pub open spec fn dir_name(root: Seq<char>, p: Seq<char>) -> Seq<char> {
    if p == root && root == paths::slash() {
        paths::slash()
    } else {
        paths::base_name(p)
    }
}

/// `dirs` lists the directories at `paths` breadth first: the root first, then
/// each directory after its parent, parents in order, and the directories of
/// one parent in the order of their paths.
pub open spec fn breadth_first(
    root: Seq<char>,
    paths: Seq<Seq<char>>,
    dirs: Seq<DirRowDraft>,
) -> bool {
    &&& paths.len() == dirs.len()
    &&& paths.len() >= 1
    &&& paths[0] == root
    &&& paths.no_duplicates()
    &&& dirs[0].parent_id is None
    &&& dirs[0].depth == 0
    &&& forall|i: int|
        1 <= i < dirs.len() ==> ((#[trigger] dirs[i]).parent_id matches Some(j) && j < i
            && paths[j as int] == paths::parent_of(paths[i]) && dirs[i].depth == dirs[j as int].depth
            + 1)
    &&& forall|i: int, k: int|
        1 <= i < k < dirs.len() ==> (#[trigger] dirs[i]).parent_id->0 <= (
        #[trigger] dirs[k]).parent_id->0 && (dirs[i].parent_id->0 == dirs[k].parent_id->0
            ==> text::lex_lt(paths[i], paths[k]))
}

/// `names` holds the names of the directories, each once, in the order in
/// which they first appear, and each directory points at its own.
pub open spec fn names_fit(
    root: Seq<char>,
    paths: Seq<Seq<char>>,
    dirs: Seq<DirRowDraft>,
    names: Seq<Seq<char>>,
) -> bool {
    &&& names == interner::firsts(paths.map_values(|p: Seq<char>| dir_name(root, p)))
    &&& forall|i: int|
        0 <= i < dirs.len() ==> (#[trigger] dirs[i]).name_id < names.len()
            && names[dirs[i].name_id as int] == dir_name(root, paths[i])
}

/// `ids` knows the id of each path, and no other path.
pub open spec fn ids_fit(paths: Seq<Seq<char>>, ids: Map<Seq<char>, usize>) -> bool {
    &&& forall|p: Seq<char>| #[trigger] ids.contains_key(p) <==> paths.contains(p)
    &&& forall|p: Seq<char>| #[trigger]
        ids.contains_key(p) ==> ids[p] < paths.len() && paths[ids[p] as int] == p
}

impl PathTree {
    /// The directories are listed breadth first, with their names and ids.
    pub open spec fn wf(&self) -> bool {
        &&& breadth_first(self.root@, self.paths@, self.dirs_in_order@)
        &&& names_fit(self.root@, self.paths@, self.dirs_in_order@, text::strs(self.names@))
        &&& ids_fit(self.paths@, self.dir_id_of@)
    }

    /// The tree is the breadth-first list of the directories below `root` that
    /// lead to one of `dirs`.
    pub open spec fn is_tree_of(&self, root: Seq<char>, dirs: Set<Seq<char>>) -> bool {
        &&& self.root@ == root
        &&& self.wf()
        &&& forall|q: Seq<char>| #[trigger] self.paths@.contains(q) <==> in_tree(root, dirs, q)
    }
}

/// Every path of `s` is the root or stands above one of the first `n` of `dirs`.
spec fn covered(root: Seq<char>, s: Seq<Seq<char>>, dirs: Seq<Seq<char>>, n: int) -> bool {
    forall|q: Seq<char>| #[trigger]
        s.contains(q) ==> q == root || exists|i: int|
            0 <= i < n && #[trigger] climb(root, dirs[i]).contains(q)
}

/// The paths that the tree is made from: the root, the directories and all
/// that they climb to.
fn collect_paths(root: &str, dir_paths: &Vec<String>) -> (all: Interner)
    ensures
        all.wf(),
        all@.len() >= 1,
        all@[0] == root@,
        closed_up(root@, all@),
        covered(root@, all@, text::strs(dir_paths@), dir_paths@.len() as int),
        forall|i: int| 0 <= i < dir_paths@.len() ==> all@.contains(#[trigger] text::strs(dir_paths@)[i]),
{
    let mut all = Interner::new();
    let _r: usize = all.intern(root);
    let ghost dirs = text::strs(dir_paths@);
    proof {
        assert(all@ =~= seq![root@]);
        assert(all@[0] == root@);
        assert(all@.contains(root@));
    }
    let mut i: usize = 0;
    while i < dir_paths.len()
        invariant
            i <= dir_paths.len(),
            dirs == text::strs(dir_paths@),
            all.wf(),
            all@.len() >= 1,
            all@[0] == root@,
            closed_up(root@, all@),
            covered(root@, all@, dirs, i as int),
            forall|k: int| 0 <= k < i ==> all@.contains(#[trigger] dirs[k]),
        decreases dir_paths.len() - i,
    {
        let mut cur: String = dir_paths[i].clone();
        let ghost start = cur@;
        let ghost base = all@;
        proof {
            assert(dirs[i as int] == cur@);
            lemma_climb(root@, start);
            assert(all@ == base);
            assert(base.contains(root@));
        }
        loop
            invariant_except_break
                i < dir_paths.len(),
                dirs == text::strs(dir_paths@),
                dirs[i as int] == start,
                all.wf(),
                all@.len() >= 1,
                all@[0] == root@,
                base.is_prefix_of(all@),
                covered(root@, base, dirs, i as int),
                forall|k: int| 0 <= k < i ==> base.contains(#[trigger] dirs[k]),
                closed_up(root@, base),
                climb(root@, start).contains(cur@),
                forall|q: Seq<char>| #[trigger]
                    climb(root@, start).contains(q) && q != root@ && q != paths::slash() ==> climb(
                        root@,
                        start,
                    ).contains(paths::parent_of(q)),
                forall|q: Seq<char>| #[trigger]
                    all@.contains(q) && !base.contains(q) ==> climb(root@, start).contains(q),
                forall|q: Seq<char>| #[trigger]
                    all@.contains(q) && q != root@ && q != paths::slash() ==> all@.contains(paths::parent_of(q))
                        || paths::parent_of(q) == cur@,
                cur@ == start || all@.contains(start),
            ensures
                dirs == text::strs(dir_paths@),
                all.wf(),
                all@.len() >= 1,
                all@[0] == root@,
                base.is_prefix_of(all@),
                closed_up(root@, all@),
                all@.contains(start),
                forall|q: Seq<char>| #[trigger]
                    all@.contains(q) && !base.contains(q) ==> climb(root@, start).contains(q),
            decreases rank(cur@),
        {
            proof {
                assert(all@[0] == root@);
                assert(all@.contains(root@));
            }
            match all.find(cur.as_str()) {
                Some(_) => {
                    break;
                },
                None => {},
            }
            let ghost before = all@;
            let _k: usize = all.intern(cur.as_str());
            proof {
                assert(all@ == before.push(cur@));
                assert(all@[before.len() as int] == cur@);
                assert(all@.contains(cur@));
                assert forall|q: Seq<char>| #[trigger] all@.contains(q) implies before.contains(q)
                    || q == cur@ by {
                    let k = choose|k: int| 0 <= k < all@.len() && all@[k] == q;
                    if k < before.len() {
                        assert(before[k] == q);
                    }
                }
                assert forall|q: Seq<char>| #[trigger] before.contains(q) implies all@.contains(
                    q,
                ) by {
                    let k = choose|k: int| 0 <= k < before.len() && before[k] == q;
                    assert(all@[k] == q);
                }
                assert(base.is_prefix_of(all@));
                assert(cur@ != root@);
            }
            let parent = paths::tm_parent(cur.as_str());
            proof {
                paths::lemma_parent_of_slash();
                paths::lemma_parent_shorter(cur@);
                if cur@ != paths::slash() {
                    lemma_rank(cur@);
                }
            }
            if parent == cur {
                proof {
                    assert(cur@ == paths::slash());
                }
                break;
            }
            proof {
                assert(cur@ != paths::slash());
            }
            cur = parent;
        }
        proof {
            assert forall|q: Seq<char>| #[trigger] all@.contains(q) implies q == root@
                || exists|k: int| 0 <= k < i + 1 && #[trigger] climb(root@, dirs[k]).contains(q) by {
                if base.contains(q) {
                    if q != root@ {
                        let k = choose|k: int|
                            0 <= k < i && #[trigger] climb(root@, dirs[k]).contains(q);
                        assert(climb(root@, dirs[k]).contains(q));
                    }
                } else {
                    assert(climb(root@, dirs[i as int]).contains(q));
                }
            }
            assert forall|k: int| 0 <= k < i + 1 implies all@.contains(#[trigger] dirs[k]) by {
                if k < i {
                    assert(base.contains(dirs[k]));
                    let m = choose|m: int| 0 <= m < base.len() && base[m] == dirs[k];
                    assert(all@[m] == dirs[k]);
                }
            }
        }
        i = i + 1;
    }
    all
}

/// `c` is the place of a directory in the one at `pi`.
spec fn is_kid(all: Seq<Seq<char>>, root: Seq<char>, pi: int, c: int) -> bool {
    0 <= c < all.len() && all[c] != root && paths::parent_of(all[c]) == all[pi]
}

/// `kids[pi]` lists directories in the one at `pi`, in the order of their paths.
spec fn kids_sound(all: Seq<Seq<char>>, root: Seq<char>, kids: Seq<Vec<usize>>) -> bool {
    &&& kids.len() == all.len()
    &&& forall|pi: int, x: int|
        0 <= pi < kids.len() && 0 <= x < kids[pi]@.len() ==> is_kid(
            all,
            root,
            pi,
            #[trigger] kids[pi]@[x] as int,
        )
    &&& forall|pi: int, x: int, y: int|
        0 <= pi < kids.len() && 0 <= x < y < kids[pi]@.len() ==> text::lex_lt(
            all[#[trigger] kids[pi]@[x] as int],
            all[#[trigger] kids[pi]@[y] as int],
        )
}

/// For each path of a closed list the places of the directories in it, in the
/// order of their paths.
fn group_kids(root: &str, all: &Interner) -> (kids: Vec<Vec<usize>>)
    requires
        all.wf(),
        closed_up(root@, all@),
    ensures
        kids_sound(all@, root@, kids@),
        forall|pi: int, c: usize|
            0 <= pi < all@.len() && #[trigger] is_kid(all@, root@, pi, c as int)
                ==> kids@[pi]@.contains(c),
{
    let n: usize = all.len();
    let p = interner::sorted_places(all);
    let mut kids: Vec<Vec<usize>> = Vec::new();
    let mut k: usize = 0;
    while k < n
        invariant
            k <= n,
            n == all@.len(),
            kids@.len() == k,
            forall|pi: int| 0 <= pi < k ==> (#[trigger] kids@[pi])@.len() == 0,
        decreases n - k,
    {
        kids.push(Vec::new());
        k = k + 1;
    }
    let mut m: usize = 0;
    proof {
        all.lemma_wf();
    }
    while m < n
        invariant
            m <= n,
            n == all@.len(),
            all.wf(),
            all@.no_duplicates(),
            closed_up(root@, all@),
            p@.len() == n,
            forall|x: int| 0 <= x < p@.len() ==> #[trigger] p@[x] < all@.len(),
            forall|x: int, y: int|
                0 <= x < y < p@.len() ==> text::lex_lt(
                    all@[#[trigger] p@[x] as int],
                    all@[#[trigger] p@[y] as int],
                ),
            kids_sound(all@, root@, kids@),
            forall|pi: int, x: int|
                0 <= pi < kids@.len() && 0 <= x < kids@[pi]@.len() ==> exists|t: int|
                    0 <= t < m && p@[t] == #[trigger] kids@[pi]@[x],
            forall|pi: int, t: int|
                0 <= pi < n && 0 <= t < m && is_kid(all@, root@, pi, #[trigger] p@[t] as int)
                    ==> (#[trigger] kids@[pi])@.contains(p@[t]),
        decreases n - m,
    {
        let c: usize = p[m];
        let path = all.get(c);
        proof {
            assert(path@ == all@[c as int]);
            assert(all@.contains(path@));
        }
        let ghost before = kids@;
        let is_root: bool = text::str_eq(path.as_str(), root);
        if !is_root {
            let parent = paths::tm_parent(path.as_str());
            proof {
                if path@ == paths::slash() {
                    paths::lemma_parent_of_slash();
                }
                assert(all@.contains(parent@));
            }
            match all.find(parent.as_str()) {
                Some(pi) => {
                    let mut list: Vec<usize> = Vec::new();
                    std::mem::swap(&mut list, &mut kids[pi]);
                    list.push(c);
                    std::mem::swap(&mut list, &mut kids[pi]);
                    proof {
                        assert(kids@[pi as int]@ == before[pi as int]@.push(c));
                        assert(forall|q: int|
                            0 <= q < n && q != pi ==> kids@[q] == before[q]);
                        assert(is_kid(all@, root@, pi as int, c as int));
                        assert forall|q: int, x: int|
                            0 <= q < kids@.len() && 0 <= x < kids@[q]@.len() implies is_kid(
                            all@,
                            root@,
                            q,
                            #[trigger] kids@[q]@[x] as int,
                        ) by {
                            if q != pi || x < before[q]@.len() {
                                assert(kids@[q]@[x] == before[q]@[x]);
                            }
                        }
                        assert forall|q: int, x: int, y: int|
                            0 <= q < kids@.len() && 0 <= x < y < kids@[q]@.len() implies text::lex_lt(
                            all@[#[trigger] kids@[q]@[x] as int],
                            all@[#[trigger] kids@[q]@[y] as int],
                        ) by {
                            assert(kids@[q]@[x] == before[q]@[x]);
                            if q != pi || y < before[q]@.len() {
                                assert(kids@[q]@[y] == before[q]@[y]);
                            } else {
                                let t = choose|t: int|
                                    0 <= t < m && p@[t] == #[trigger] before[q]@[x];
                                assert(p@[t] == kids@[q]@[x]);
                                assert(p@[m as int] == kids@[q]@[y]);
                            }
                        }
                        assert forall|q: int, x: int|
                            0 <= q < kids@.len() && 0 <= x < kids@[q]@.len() implies exists|t: int|
                            0 <= t < m + 1 && p@[t] == #[trigger] kids@[q]@[x] by {
                            if q != pi || x < before[q]@.len() {
                                assert(kids@[q]@[x] == before[q]@[x]);
                                let t = choose|t: int|
                                    0 <= t < m && p@[t] == #[trigger] before[q]@[x];
                                assert(p@[t] == kids@[q]@[x]);
                            } else {
                                assert(p@[m as int] == kids@[q]@[x]);
                            }
                        }
                        assert forall|q: int, t: int|
                            0 <= q < n && 0 <= t < m + 1 && is_kid(
                                all@,
                                root@,
                                q,
                                #[trigger] p@[t] as int,
                            ) implies (#[trigger] kids@[q])@.contains(p@[t]) by {
                            if t < m {
                                assert(before[q]@.contains(p@[t]));
                                let x = choose|x: int|
                                    0 <= x < before[q]@.len() && before[q]@[x] == p@[t];
                                assert(kids@[q]@[x] == p@[t]);
                            } else {
                                assert(all@[q] == all@[pi as int]);
                                assert(q == pi);
                                assert(kids@[q]@[before[q]@.len() as int] == c);
                            }
                        }
                    }
                },
                None => {
                    proof {
                        assert(false);
                    }
                },
            }
        }
        proof {
            if is_root {
                assert(kids@ == before);
                assert forall|q: int, x: int|
                    0 <= q < kids@.len() && 0 <= x < kids@[q]@.len() implies exists|t: int|
                    0 <= t < m + 1 && p@[t] == #[trigger] kids@[q]@[x] by {
                    let t = choose|t: int| 0 <= t < m && p@[t] == #[trigger] before[q]@[x];
                    assert(p@[t] == kids@[q]@[x]);
                }
            }
        }
        m = m + 1;
    }
    proof {
        assert forall|pi: int, c: usize|
            0 <= pi < all@.len() && #[trigger] is_kid(
                all@,
                root@,
                pi,
                c as int,
            ) implies kids@[pi]@.contains(c) by {
            assert(p@.contains(c));
            let t = choose|t: int| 0 <= t < p@.len() && p@[t] == c;
            assert(is_kid(all@, root@, pi, p@[t] as int));
            assert(kids@[pi]@.contains(p@[t]));
        }
    }
    kids
}

/// A list of places below `n` without repetition is no longer than `n`.
proof fn lemma_distinct_places(s: Seq<usize>, n: nat)
    requires
        s.no_duplicates(),
        forall|x: int| 0 <= x < s.len() ==> #[trigger] s[x] < n,
    ensures
        s.len() <= n,
{
    let f = |x: usize| x as int;
    let t = s.map_values(f);
    assert(t.no_duplicates());
    t.unique_seq_to_set();
    let r = vstd::set_lib::set_int_range(0, n as int);
    vstd::set_lib::lemma_int_range(0, n as int);
    assert(t.to_set().subset_of(r)) by {
        assert forall|x: int| t.to_set().contains(x) implies r.contains(x) by {
            let k = choose|k: int| 0 <= k < t.len() && t[k] == x;
            assert(t[k] == s[k] as int);
        }
    }
    vstd::set_lib::lemma_len_subset(t.to_set(), r);
}

/// The paths at the places `order`.
spec fn at_places(all: Seq<Seq<char>>, order: Seq<usize>) -> Seq<Seq<char>> {
    order.map_values(|i: usize| all[i as int])
}

/// The first `i` directories of `order` are done: what they hold is listed.
spec fn done(order: Seq<usize>, kids: Seq<Vec<usize>>, i: int) -> bool {
    forall|j: int, x: int|
        0 <= j < i && 0 <= x < kids[order[j] as int]@.len() ==> order.contains(
            #[trigger] kids[order[j] as int]@[x],
        )
}

/// What the walk keeps while it lists the directories.
spec fn walk_inv(
    root: Seq<char>,
    all: Seq<Seq<char>>,
    order: Seq<usize>,
    dirs: Seq<DirRowDraft>,
    names: Seq<Seq<char>>,
    ids: Map<Seq<char>, usize>,
) -> bool {
    &&& forall|k: int| 0 <= k < order.len() ==> #[trigger] order[k] < all.len()
    &&& order.no_duplicates()
    &&& breadth_first(root, at_places(all, order), dirs)
    &&& names_fit(root, at_places(all, order), dirs, names)
    &&& ids_fit(at_places(all, order), ids)
    &&& forall|k: int| 0 <= k < order.len() ==> rooted(root, all[#[trigger] order[k] as int])
    &&& forall|k: int| 1 <= k < order.len() ==> all[#[trigger] order[k] as int] != root
    &&& forall|k: int| 0 <= k < dirs.len() ==> (#[trigger] dirs[k]).depth <= k
}

/// One more directory is listed, below the last parent.
proof fn lemma_walk_step(
    root: Seq<char>,
    all: Seq<Seq<char>>,
    order: Seq<usize>,
    dirs: Seq<DirRowDraft>,
    names: Seq<Seq<char>>,
    ids: Map<Seq<char>, usize>,
    i: int,
    c: usize,
    d: DirRowDraft,
    names2: Seq<Seq<char>>,
)
    requires
        walk_inv(root, all, order, dirs, names, ids),
        all.no_duplicates(),
        0 <= i < order.len(),
        order.len() < usize::MAX,
        is_kid(all, root, all.index_of(all[order[i] as int]), c as int),
        paths::parent_of(all[c as int]) == all[order[i] as int],
        !order.contains(c),
        forall|k: int| 1 <= k < dirs.len() ==> (#[trigger] dirs[k]).parent_id->0 <= i,
        forall|k: int|
            1 <= k < dirs.len() && (#[trigger] dirs[k]).parent_id->0 == i ==> text::lex_lt(
                all[order[k] as int],
                all[c as int],
            ),
        d.parent_id == Some(i as usize),
        d.depth == dirs[i].depth + 1,
        names2 == (if names.contains(paths::base_name(all[c as int])) {
            names
        } else {
            names.push(paths::base_name(all[c as int]))
        }),
        d.name_id < names2.len(),
        names2[d.name_id as int] == paths::base_name(all[c as int]),
    ensures
        walk_inv(
            root,
            all,
            order.push(c),
            dirs.push(d),
            names2,
            ids.insert(all[c as int], order.len() as usize),
        ),
{
    let order2 = order.push(c);
    let dirs2 = dirs.push(d);
    let ps = at_places(all, order);
    let ps2 = at_places(all, order2);
    let path = all[c as int];
    let ids2 = ids.insert(path, order.len() as usize);
    assert(ps2 =~= ps.push(path));
    assert(order2.no_duplicates()) by {
        assert forall|x: int, y: int|
            0 <= x < order2.len() && 0 <= y < order2.len() && x != y implies order2[x]
            != order2[y] by {
            if x == order.len() {
                assert(order.contains(order[y]));
            } else if y == order.len() {
                assert(order.contains(order[x]));
            }
        }
    }
    assert(ps2.no_duplicates()) by {
        assert forall|x: int, y: int|
            0 <= x < ps2.len() && 0 <= y < ps2.len() && x != y implies ps2[x] != ps2[y] by {
            assert(ps2[x] == all[order2[x] as int]);
            assert(ps2[y] == all[order2[y] as int]);
            assert(order2[x] != order2[y]);
        }
    }
    assert(path != root);
    // breadth first
    assert forall|k: int| 1 <= k < dirs2.len() implies ((#[trigger] dirs2[k]).parent_id matches Some(
        j,
    ) && j < k && ps2[j as int] == paths::parent_of(ps2[k]) && dirs2[k].depth == dirs2[j as int].depth
        + 1) by {
        if k < dirs.len() {
            assert(dirs2[k] == dirs[k]);
            let j = dirs[k].parent_id->0;
            assert(ps2[j as int] == ps[j as int]);
            assert(ps2[k] == ps[k]);
            assert(dirs2[j as int] == dirs[j as int]);
        } else {
            assert(dirs2[k] == d);
            assert(ps2[i] == ps[i]);
            assert(ps[i] == all[order[i] as int]);
        }
    }
    assert forall|k: int, l: int| 1 <= k < l < dirs2.len() implies (
    #[trigger] dirs2[k]).parent_id->0 <= (#[trigger] dirs2[l]).parent_id->0 && (
    dirs2[k].parent_id->0 == dirs2[l].parent_id->0 ==> text::lex_lt(ps2[k], ps2[l])) by {
        assert(dirs2[k] == dirs[k]);
        assert(ps2[k] == ps[k]);
        assert(ps[k] == all[order[k] as int]);
        if l < dirs.len() {
            assert(dirs2[l] == dirs[l]);
            assert(ps2[l] == ps[l]);
        } else {
            assert(dirs2[l] == d);
        }
    }
    assert(dirs2[0] == dirs[0]);
    assert(ps2[0] == ps[0]);
    // names
    let f = |p: Seq<char>| dir_name(root, p);
    assert(ps2.map_values(f) =~= ps.map_values(f).push(f(path)));
    assert(ps2.map_values(f).drop_last() =~= ps.map_values(f));
    assert(f(path) == paths::base_name(path));
    assert forall|k: int| 0 <= k < dirs2.len() implies (#[trigger] dirs2[k]).name_id < names2.len()
        && names2[dirs2[k].name_id as int] == dir_name(root, ps2[k]) by {
        if k < dirs.len() {
            assert(dirs2[k] == dirs[k]);
            assert(ps2[k] == ps[k]);
        }
    }
    // ids
    assert forall|p: Seq<char>| #[trigger] ids2.contains_key(p) <==> ps2.contains(p) by {
        if ps2.contains(p) {
            let k = choose|k: int| 0 <= k < ps2.len() && ps2[k] == p;
            if k < ps.len() {
                assert(ps[k] == p);
                assert(ps.contains(p));
                assert(ids.contains_key(p));
            }
        }
        if ids.contains_key(p) {
            assert(ps.contains(p));
            let k = choose|k: int| 0 <= k < ps.len() && ps[k] == p;
            assert(ps2[k] == p);
        }
        if p == path {
            assert(ps2[ps.len() as int] == p);
        }
    }
    assert forall|p: Seq<char>| #[trigger] ids2.contains_key(p) implies ids2[p] < ps2.len()
        && ps2[ids2[p] as int] == p by {
        if p != path {
            assert(ids.contains_key(p));
            assert(ps2[ids[p] as int] == ps[ids[p] as int]);
        }
    }
    // rooted
    assert(rooted(root, path)) by {
        if path == paths::slash() {
            paths::lemma_parent_of_slash();
            assert(rooted(root, all[order[i] as int]));
            assert(climb(root, paths::slash()) =~= seq![paths::slash()]);
        } else {
            let t = climb(root, paths::parent_of(path));
            lemma_climb(root, paths::parent_of(path));
            assert((seq![path] + t).last() == t.last());
        }
    }
    assert forall|k: int| 0 <= k < order2.len() implies rooted(
        root,
        all[#[trigger] order2[k] as int],
    ) by {
        if k < order.len() {
            assert(order2[k] == order[k]);
        }
    }
    assert forall|k: int| 1 <= k < order2.len() implies all[#[trigger] order2[k] as int] != root by {
        if k < order.len() {
            assert(order2[k] == order[k]);
        }
    }
    assert forall|k: int| 0 <= k < dirs2.len() implies (#[trigger] dirs2[k]).depth <= k by {
        if k < dirs.len() {
            assert(dirs2[k] == dirs[k]);
        }
    }
}

/// Every rooted path of a closed list is reached.
proof fn lemma_all_reached(
    root: Seq<char>,
    all: Seq<Seq<char>>,
    order: Seq<usize>,
    kids: Seq<Vec<usize>>,
    q: Seq<char>,
)
    requires
        closed_up(root, all),
        all.no_duplicates(),
        all.len() <= usize::MAX,
        forall|k: int| 0 <= k < order.len() ==> #[trigger] order[k] < all.len(),
        order.len() >= 1,
        all[order[0] as int] == root,
        done(order, kids, order.len() as int),
        forall|pi: int, c: usize|
            0 <= pi < all.len() && #[trigger] is_kid(all, root, pi, c as int)
                ==> kids[pi]@.contains(c),
        all.contains(q),
        rooted(root, q),
    ensures
        at_places(all, order).contains(q),
    decreases rank(q),
{
    let ps = at_places(all, order);
    if q == root {
        assert(ps[0] == root);
    } else {
        assert(q != paths::slash());
        lemma_rank(q);
        let p = paths::parent_of(q);
        lemma_climb(root, p);
        assert(climb(root, q) =~= seq![q] + climb(root, p));
        assert(climb(root, q).last() == climb(root, p).last());
        lemma_all_reached(root, all, order, kids, p);
        let j = choose|j: int| 0 <= j < ps.len() && ps[j] == p;
        assert(ps[j] == all[order[j] as int]);
        let c = choose|c: int| 0 <= c < all.len() && all[c] == q;
        assert(is_kid(all, root, order[j] as int, c as usize as int));
        assert(kids[order[j] as int]@.contains(c as usize));
        let x = choose|x: int|
            0 <= x < kids[order[j] as int]@.len() && kids[order[j] as int]@[x] == c as usize;
        assert(order.contains(kids[order[j] as int]@[x]));
        let k = choose|k: int| 0 <= k < order.len() && order[k] == c as usize;
        assert(ps[k] == q);
    }
}

impl PathTree {
    /// The tree of the directories below `root` that lead to one of `dir_paths`.
    pub fn build(root: &str, dir_paths: &Vec<String>) -> (t: PathTree)
        ensures
            t.is_tree_of(root@, text::strs(dir_paths@).to_set()),
    {
        let all = collect_paths(root, dir_paths);
        let kids = group_kids(root, &all);
        let n: usize = all.len();
        let mut names = Interner::new();
        let mut ids: StringHashMap<usize> = StringHashMap::new();
        let mut dirs: Vec<DirRowDraft> = Vec::new();
        let mut order: Vec<usize> = Vec::new();
        let root_name: String = if text::str_eq(root, "/") {
            "/".to_owned()
        } else {
            paths::tm_basename(root)
        };
        proof {
            reveal_strlit("/");
            assert("/"@ =~= paths::slash());
            all.lemma_wf();
        }
        let root_name_id: usize = names.intern(root_name.as_str());
        ids.insert(root.to_owned(), 0);
        dirs.push(DirRowDraft { parent_id: None, name_id: root_name_id, depth: 0 });
        order.push(0);
        proof {
            let ps = at_places(all@, order@);
            assert(ps =~= seq![root@]);
            let f = |p: Seq<char>| dir_name(root@, p);
            assert(ps.map_values(f) =~= seq![dir_name(root@, root@)]);
            assert(ps.map_values(f).drop_last() =~= Seq::<Seq<char>>::empty());
            assert(interner::firsts(Seq::<Seq<char>>::empty()) =~= Seq::<Seq<char>>::empty());
            assert(names@ =~= interner::firsts(ps.map_values(f)));
            assert(climb(root@, root@) =~= seq![root@]);
            assert forall|p: Seq<char>| #[trigger] ids@.contains_key(p) <==> ps.contains(p) by {
                if p == root@ {
                    assert(ps[0] == p);
                }
            }
            assert(walk_inv(root@, all@, order@, dirs@, names@, ids@));
        }
        let mut i: usize = 0;
        while i < order.len()
            invariant
                i <= order@.len(),
                n == all@.len(),
                all.wf(),
                all@.no_duplicates(),
                all@[0] == root@,
                order@.len() >= 1,
                order@[0] == 0,
                order@.len() == dirs@.len(),
                names.wf(),
                kids_sound(all@, root@, kids@),
                walk_inv(root@, all@, order@, dirs@, names@, ids@),
                forall|k: int| 1 <= k < dirs@.len() ==> (#[trigger] dirs@[k]).parent_id->0 < i,
                done(order@, kids@, i as int),
            decreases n - i,
        {
            let pi: usize = order[i];
            let list: &Vec<usize> = &kids[pi];
            let base: usize = order.len();
            let depth: usize = dirs[i].depth;
            let ghost order0 = order@;
            proof {
                lemma_distinct_places(order@, n as nat);
            }
            let mut x: usize = 0;
            while x < list.len()
                invariant
                    x <= list@.len(),
                    i < base,
                    base <= n,
                    n == all@.len(),
                    list@ == kids@[pi as int]@,
                    order0.len() == base,
                    order@.len() == base + x,
                    order@.take(base as int) == order0,
                    pi == order@[i as int],
                    pi < n,
                    order@[0] == 0,
                    order@.len() == dirs@.len(),
                    all.wf(),
                    all@.no_duplicates(),
                    all@[0] == root@,
                    names.wf(),
                    kids_sound(all@, root@, kids@),
                    walk_inv(root@, all@, order@, dirs@, names@, ids@),
                    depth == dirs@[i as int].depth,
                    depth <= i,
                    forall|y: int| 0 <= y < x ==> #[trigger] order@[base + y] == list@[y],
                    forall|k: int| 1 <= k < base ==> (#[trigger] dirs@[k]).parent_id->0 < i,
                    forall|k: int|
                        base <= k < dirs@.len() ==> (#[trigger] dirs@[k]).parent_id == Some(i),
                decreases list@.len() - x,
            {
                let c: usize = list[x];
                let ghost names0 = names@;
                let ghost ids0 = ids@;
                let ghost order1 = order@;
                let ghost dirs1 = dirs@;
                proof {
                    assert(kids@[pi as int]@[x as int] == c);
                    assert(is_kid(all@, root@, pi as int, c as int));
                    lemma_distinct_places(order@, n as nat);
                    assert(!order@.contains(c)) by {
                        if order@.contains(c) {
                            let k = choose|k: int| 0 <= k < order@.len() && order@[k] == c;
                            let ps = at_places(all@, order@);
                            if k == 0 {
                                assert(all@[c as int] == root@);
                            } else {
                                let j = dirs@[k].parent_id->0;
                                assert(ps[j as int] == all@[order@[j as int] as int]);
                                assert(ps[k] == all@[c as int]);
                                assert(all@[order@[j as int] as int] == all@[pi as int]);
                                assert(order@[j as int] == pi);
                                assert(j == i);
                                assert(k >= base);
                                let y = k - base;
                                assert(order@[base + y] == list@[y]);
                                assert(kids@[pi as int]@[y] == c);
                                assert(text::lex_lt(
                                    all@[kids@[pi as int]@[y] as int],
                                    all@[kids@[pi as int]@[x as int] as int],
                                ));
                                text::lemma_lex_asym(all@[c as int], all@[c as int]);
                            }
                        }
                    }
                    // one more place is free
                    assert(order@.push(c).no_duplicates()) by {
                        assert forall|a: int, b: int|
                            0 <= a < order@.len() + 1 && 0 <= b < order@.len() + 1 && a
                                != b implies order@.push(c)[a] != order@.push(c)[b] by {
                            if a == order@.len() {
                                assert(order@.contains(order@[b]));
                            } else if b == order@.len() {
                                assert(order@.contains(order@[a]));
                            }
                        }
                    }
                    lemma_distinct_places(order@.push(c), n as nat);
                }
                let path = all.get(c);
                let seg = paths::tm_basename(path.as_str());
                let name_id: usize = names.intern(seg.as_str());
                let id: usize = order.len();
                ids.insert(path.clone(), id);
                let d = DirRowDraft { parent_id: Some(i), name_id, depth: depth + 1 };
                dirs.push(d);
                order.push(c);
                proof {
                    let at = all@.index_of(all@[pi as int]);
                    assert(all@[at] == all@[pi as int]);
                    assert(at == pi);
                    assert forall|k: int|
                        1 <= k < dirs1.len() && (#[trigger] dirs1[k]).parent_id->0 == i implies text::lex_lt(
                        all@[order1[k] as int],
                        all@[c as int],
                    ) by {
                        assert(k >= base);
                        let y = k - base;
                        assert(order1[base + y] == list@[y]);
                        assert(kids@[pi as int]@[y] == order1[k]);
                        assert(kids@[pi as int]@[x as int] == c);
                    }
                    lemma_walk_step(
                        root@,
                        all@,
                        order1,
                        dirs1,
                        names0,
                        ids0,
                        i as int,
                        c,
                        d,
                        names@,
                    );
                    assert(order@.take(base as int) =~= order1.take(base as int));
                }
                x = x + 1;
            }
            proof {
                assert forall|j: int, y: int|
                    0 <= j < i + 1 && 0 <= y < kids@[order@[j] as int]@.len() implies order@.contains(
                    #[trigger] kids@[order@[j] as int]@[y],
                ) by {
                    assert(order@[j] == order@.take(base as int)[j]);
                    if j < i {
                        assert(order0.contains(kids@[order0[j] as int]@[y]));
                        let k = choose|k: int|
                            0 <= k < order0.len() && order0[k] == kids@[order0[j] as int]@[y];
                        assert(order@[k] == order@.take(base as int)[k]);
                    } else {
                        assert(order@[base + y] == list@[y]);
                    }
                }
                assert forall|k: int| 1 <= k < dirs@.len() implies (
                #[trigger] dirs@[k]).parent_id->0 < i + 1 by {
                    if k < base {
                    } else {
                        assert(dirs@[k].parent_id == Some(i));
                    }
                }
                lemma_distinct_places(order@, n as nat);
            }
            i = i + 1;
        }
        let ghost ps = at_places(all@, order@);
        proof {
            let given = text::strs(dir_paths@);
            let dirset = given.to_set();
            assert forall|q: Seq<char>| #[trigger] ps.contains(q) <==> in_tree(root@, dirset, q) by {
                if ps.contains(q) {
                    let k = choose|k: int| 0 <= k < ps.len() && ps[k] == q;
                    assert(ps[k] == all@[order@[k] as int]);
                    assert(all@.contains(q));
                    assert(rooted(root@, q));
                    if q != root@ {
                        let m = choose|m: int|
                            0 <= m < dir_paths@.len() && #[trigger] climb(
                                root@,
                                given[m],
                            ).contains(q);
                        lemma_climb(root@, given[m]);
                        assert(given.contains(given[m]));
                        assert(dirset.contains(given[m]));
                        assert(rooted(root@, given[m]));
                    }
                }
                if in_tree(root@, dirset, q) {
                    if q != root@ {
                        let d = choose|d: Seq<char>| #[trigger]
                            dirset.contains(d) && rooted(root@, d) && climb(root@, d).contains(q);
                        lemma_climb(root@, d);
                        let m = choose|m: int| 0 <= m < given.len() && given[m] == d;
                        assert(all@.contains(given[m]));
                        lemma_closed_climb(root@, all@, d);
                        assert(all@.contains(q));
                        assert(rooted(root@, q));
                    } else {
                        assert(climb(root@, root@) =~= seq![root@]);
                    }
                    lemma_all_reached(root@, all@, order@, kids@, q);
                }
            }
        }
        PathTree {
            dir_id_of: ids,
            dirs_in_order: dirs,
            names: names.into_names(),
            paths: Ghost(ps),
            root: Ghost(root@),
        }
    }
}

} // verus!
