//! Strings numbered in the order in which they first appear.

use crate::order;
use crate::text;
use vstd::hash_map::StringHashMap;
use vstd::prelude::*;

verus! {

/// The elements of `s` at their first occurrence, in order.
pub open spec fn firsts(s: Seq<Seq<char>>) -> Seq<Seq<char>>
    decreases s.len(),
{
    if s.len() == 0 {
        Seq::empty()
    } else {
        let before = firsts(s.drop_last());
        if before.contains(s.last()) {
            before
        } else {
            before.push(s.last())
        }
    }
}

/// `firsts` keeps every element, once.
pub proof fn lemma_firsts(s: Seq<Seq<char>>)
    ensures
        firsts(s).no_duplicates(),
        forall|x: Seq<char>| #[trigger] firsts(s).contains(x) <==> s.contains(x),
        firsts(s).len() <= s.len(),
    decreases s.len(),
{
    if s.len() > 0 {
        let t = s.drop_last();
        lemma_firsts(t);
        assert forall|x: Seq<char>| #[trigger] firsts(s).contains(x) <==> s.contains(x) by {
            if s.contains(x) {
                let k = choose|k: int| 0 <= k < s.len() && s[k] == x;
                if k < t.len() {
                    assert(t[k] == x);
                    assert(t.contains(x));
                    assert(firsts(t).contains(x));
                    let m = choose|m: int| 0 <= m < firsts(t).len() && firsts(t)[m] == x;
                    assert(firsts(s)[m] == x);
                } else if firsts(t).contains(x) {
                } else {
                    assert(firsts(s)[firsts(t).len() as int] == x);
                }
            }
            if firsts(s).contains(x) {
                let k = choose|k: int| 0 <= k < firsts(s).len() && firsts(s)[k] == x;
                if k < firsts(t).len() {
                    assert(firsts(t)[k] == x);
                    assert(firsts(t).contains(x));
                    assert(t.contains(x));
                    let m = choose|m: int| 0 <= m < t.len() && t[m] == x;
                    assert(s[m] == x);
                } else {
                    assert(s[s.len() - 1] == x);
                }
            }
        }
    }
}

/// A list of strings without repetition, with an index.
pub struct Interner {
    names: Vec<String>,
    index: StringHashMap<usize>,
}

impl View for Interner {
    type V = Seq<Seq<char>>;

    closed spec fn view(&self) -> Seq<Seq<char>> {
        text::strs(self.names@)
    }
}

impl Interner {
    /// No string occurs twice, and the index knows the place of each.
    pub closed spec fn wf(&self) -> bool {
        &&& self@.no_duplicates()
        &&& forall|s: Seq<char>| #[trigger] self.index@.contains_key(s) <==> self@.contains(s)
        &&& forall|s: Seq<char>|
            #[trigger] self.index@.contains_key(s) ==> self.index@[s] < self@.len()
                && self@[self.index@[s] as int] == s
    }

    pub proof fn lemma_wf(&self)
        requires
            self.wf(),
        ensures
            self@.no_duplicates(),
            self@.len() <= usize::MAX,
    {
        assert(self@.len() == self.names.len());
    }

    pub fn new() -> (r: Self)
        ensures
            r.wf(),
            r@ == Seq::<Seq<char>>::empty(),
    {
        let r = Interner { names: Vec::new(), index: StringHashMap::new() };
        proof {
            assert(r@ =~= Seq::<Seq<char>>::empty());
        }
        r
    }

    pub fn len(&self) -> (r: usize)
        ensures
            r == self@.len(),
    {
        self.names.len()
    }

    /// The place of `s`, if it is in the list.
    pub fn find(&self, s: &str) -> (r: Option<usize>)
        requires
            self.wf(),
        ensures
            r is Some <==> self@.contains(s@),
            r matches Some(i) ==> i < self@.len() && self@[i as int] == s@,
    {
        match self.index.get(s) {
            Some(i) => Some(*i),
            None => None,
        }
    }

    /// The string at a place.
    pub fn get(&self, i: usize) -> (r: &String)
        requires
            i < self@.len(),
        ensures
            r@ == self@[i as int],
    {
        &self.names[i]
    }

    /// The place of `s`, which is added at the end where it is new.
    pub fn intern(&mut self, s: &str) -> (r: usize)
        requires
            old(self).wf(),
        ensures
            final(self).wf(),
            final(self)@ == (if old(self)@.contains(s@) {
                old(self)@
            } else {
                old(self)@.push(s@)
            }),
            r < final(self)@.len(),
            final(self)@[r as int] == s@,
    {
        match self.index.get(s) {
            Some(i) => {
                return *i;
            },
            None => {},
        }
        let i: usize = self.names.len();
        let ghost before = self@;
        self.names.push(s.to_owned());
        self.index.insert(s.to_owned(), i);
        proof {
            assert(self@ =~= before.push(s@));
            assert(self@[i as int] == s@);
            assert forall|x: Seq<char>| #[trigger]
                self.index@.contains_key(x) <==> self@.contains(x) by {
                if before.contains(x) {
                    let k = choose|k: int| 0 <= k < before.len() && before[k] == x;
                    assert(self@[k] == x);
                }
                if self@.contains(x) && x != s@ {
                    let k = choose|k: int| 0 <= k < self@.len() && self@[k] == x;
                    assert(before[k] == x);
                }
            }
        }
        i
    }

    /// The strings, in order.
    pub fn into_names(self) -> (r: Vec<String>)
        ensures
            text::strs(r@) == self@,
    {
        self.names
    }
}

/// The order of the strings of a list.
spec fn place_lt(all: Seq<Seq<char>>) -> spec_fn(int, int) -> bool {
    |i: int, j: int| text::lex_lt(all[i], all[j])
}

proof fn lemma_place_order(all: Seq<Seq<char>>)
    ensures
        order::weak_order(place_lt(all), all.len() as int),
{
    let lt = place_lt(all);
    let n = all.len() as int;
    assert forall|i: int, j: int| 0 <= i < n && 0 <= j < n && #[trigger] lt(i, j) implies !lt(
        j,
        i,
    ) by {
        text::lemma_lex_asym(all[i], all[j]);
    }
    assert forall|i: int, j: int, k: int|
        #![trigger lt(i, k), lt(i, j)]
        #![trigger lt(i, k), lt(j, k)]
        0 <= i < n && 0 <= j < n && 0 <= k < n && lt(i, k) implies lt(i, j) || lt(j, k) by {
        text::lemma_lex_split(all[i], all[j], all[k]);
    }
}

/// The places of a list's strings in the order of the strings.
pub(crate) fn sorted_places(all: &Interner) -> (p: Vec<usize>)
    requires
        all.wf(),
    ensures
        p@.len() == all@.len(),
        forall|x: int| 0 <= x < p@.len() ==> #[trigger] p@[x] < all@.len(),
        forall|x: int, y: int|
            0 <= x < y < p@.len() ==> text::lex_lt(
                all@[#[trigger] p@[x] as int],
                all@[#[trigger] p@[y] as int],
            ),
        forall|v: usize| v < all@.len() ==> #[trigger] p@.contains(v),
{
    let n: usize = all.len();
    let less = |i: usize, j: usize| -> (r: bool)
        requires
            i < all@.len(),
            j < all@.len(),
        ensures
            r == text::lex_lt(all@[i as int], all@[j as int]),
        {
            let a = text::to_chars(all.get(i).as_str());
            let b = text::to_chars(all.get(j).as_str());
            text::chars_lt(&a, &b)
        };
    proof {
        lemma_place_order(all@);
    }
    let p = order::sort_indices(n, &less, Ghost(place_lt(all@)));
    proof {
        let lt = place_lt(all@);
        all.lemma_wf();
        assert forall|x: int, y: int| 0 <= x < y < p@.len() implies text::lex_lt(
            all@[#[trigger] p@[x] as int],
            all@[#[trigger] p@[y] as int],
        ) by {
            assert(order::before(lt, p@[x] as int, p@[y] as int));
            let i = p@[x] as int;
            let j = p@[y] as int;
            if !text::lex_lt(all@[i], all@[j]) {
                assert(i < j);
                text::lemma_lex_total(all@[i], all@[j]);
                assert(all@[i] == all@[j]);
                assert(false);
            }
        }
    }
    p
}

} // verus!
