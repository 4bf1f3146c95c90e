//! The users of a report and the numbers that they go by.

use crate::events;
use crate::order;
use std::collections::HashMap;
use vstd::hash_map::StringHashMap;
use vstd::prelude::*;

verus! {

/// The first number for a user that no map knows.
pub const FIRST_SYNTHETIC_UID: i64 = 1_000_000_000;

/// The uids that a map knows, each once.
pub fn known_uids(uids: &HashMap<u32, String>) -> (r: Vec<u32>)
    ensures
        r@.no_duplicates(),
        forall|u: u32| #[trigger] r@.contains(u) <==> uids@.contains_key(u),
{
    broadcast use vstd::std_specs::hash::group_hash_axioms;

    let mut out: Vec<u32> = Vec::new();
    let ghost ks = vstd::std_specs::iter::IteratorSpec::remaining(
        &vstd::std_specs::hash::spec_keys_iter(uids),
    );
    for k in it: uids.keys()
        invariant
            it.seq() == ks,
            out@ == ks.unref().take(it.index()),
    {
        out.push(*k);
        proof {
            let s = ks.unref();
            assert(s.take(it.index() + 1) =~= s.take(it.index()).push(*k));
        }
    }
    proof {
        let s = ks.unref();
        assert(out@ =~= s);
        assert(s.to_set() == uids@.dom());
        assert forall|u: u32| #[trigger] out@.contains(u) <==> uids@.contains_key(u) by {
            assert(s.to_set().contains(u) <==> s.contains(u));
        }
        assert(out@.no_duplicates()) by {
            assert forall|i: int, j: int|
                0 <= i < out@.len() && 0 <= j < out@.len() && i != j implies out@[i] != out@[j] by {
                assert(ks[i] != ks[j]);
            }
        }
    }
    out
}

/// What a table knows: the number of each user, the user of each number, and the
/// number for the next user that is not known.
#[verifier::ext_equal]
pub struct TableModel {
    pub numbers: Map<Seq<char>, i64>,
    pub names: Map<i64, Seq<char>>,
    pub next: int,
}

/// The table once it knows a user: one that is new gets the next number, which
/// leads to it.
pub open spec fn learned(t: TableModel, name: Seq<char>) -> TableModel {
    if t.numbers.contains_key(name) {
        t
    } else {
        TableModel {
            numbers: t.numbers.insert(name, t.next as i64),
            names: t.names.insert(t.next as i64, name),
            next: t.next + 1,
        }
    }
}

/// The table once it knows all of some users, in their order.
pub open spec fn learned_all(t: TableModel, names: Seq<Seq<char>>) -> TableModel
    decreases names.len(),
{
    if names.len() == 0 {
        t
    } else {
        learned(learned_all(t, names.drop_last()), names.last())
    }
}

/// A table of a map's users and of nobody else: each uid leads to its user, and
/// each user goes by one of the uids that lead to it.
pub open spec fn table_of(t: TableModel, uids: Map<u32, Seq<char>>) -> bool {
    &&& t.next == FIRST_SYNTHETIC_UID
    &&& forall|u: i64| #[trigger]
        t.names.contains_key(u) <==> 0 <= u <= u32::MAX && uids.contains_key(u as u32)
    &&& forall|u: u32| #[trigger]
        uids.contains_key(u) ==> t.names[u as i64] == uids[u] && t.numbers.contains_key(uids[u])
    &&& forall|n: Seq<char>| #[trigger]
        t.numbers.contains_key(n) ==> 0 <= t.numbers[n] <= u32::MAX && t.names.contains_key(
            t.numbers[n],
        ) && t.names[t.numbers[n]] == n
}

/// Each number of a user leads back to the user, and every number was given out.
pub open spec fn settled(t: TableModel) -> bool {
    &&& forall|n: Seq<char>| #[trigger]
        t.numbers.contains_key(n) ==> 0 <= t.numbers[n] && t.names.contains_key(t.numbers[n])
            && t.names[t.numbers[n]] == n
    &&& forall|u: i64| #[trigger] t.names.contains_key(u) ==> 0 <= u < t.next
}

/// Which user goes by which number, and which number a user goes by.
pub struct UserTable {
    by_name: StringHashMap<i64>,
    by_uid: HashMap<i64, String>,
    next: i64,
}

impl UserTable {
    /// The number of each user.
    pub closed spec fn numbers(&self) -> Map<Seq<char>, i64> {
        self.by_name@
    }

    /// The user of each number.
    pub closed spec fn names(&self) -> Map<i64, Seq<char>> {
        self.by_uid@.map_values(|s: String| s@)
    }

    /// The number for the next user that is not known.
    pub closed spec fn next_number(&self) -> int {
        self.next as int
    }

    /// The next number is a number.
    pub proof fn lemma_next(&self)
        ensures
            self.next_number() <= i64::MAX,
    {
    }

    /// What the table knows.
    pub open spec fn model(&self) -> TableModel {
        TableModel { numbers: self.numbers(), names: self.names(), next: self.next_number() }
    }

    /// Every number that a user goes by leads to a user, and none is negative.
    pub open spec fn wf(&self) -> bool {
        &&& self.next_number() >= FIRST_SYNTHETIC_UID
        &&& forall|n: Seq<char>| #[trigger]
            self.numbers().contains_key(n) ==> self.names().contains_key(self.numbers()[n])
        &&& forall|n: Seq<char>| #[trigger]
            self.numbers().contains_key(n) ==> self.numbers()[n] >= 0
    }

    /// The table of a map's users: each uid leads to its user, and each user to
    /// one of the uids that lead to it.
    pub fn new(uids: &HashMap<u32, String>) -> (r: UserTable)
        ensures
            r.wf(),
            table_of(r.model(), events::names_of(uids@)),
    {
        broadcast use vstd::std_specs::hash::group_hash_axioms;

        let list = known_uids(uids);
        let mut t = UserTable {
            by_name: StringHashMap::new(),
            by_uid: HashMap::new(),
            next: FIRST_SYNTHETIC_UID,
        };
        let mut i: usize = 0;
        while i < list.len()
            invariant
                i <= list@.len(),
                list@.no_duplicates(),
                forall|u: u32| #[trigger] list@.contains(u) <==> uids@.contains_key(u),
                t.next_number() == FIRST_SYNTHETIC_UID,
                forall|u: i64| #[trigger]
                    t.names().contains_key(u) <==> 0 <= u <= u32::MAX && list@.take(
                        i as int,
                    ).contains(u as u32),
                forall|u: u32| #[trigger]
                    list@.take(i as int).contains(u) ==> t.names()[u as i64] == uids@[u]@
                        && t.numbers().contains_key(uids@[u]@),
                forall|n: Seq<char>| #[trigger]
                    t.numbers().contains_key(n) ==> 0 <= t.numbers()[n] <= u32::MAX
                        && t.names().contains_key(t.numbers()[n]) && t.names()[t.numbers()[n]] == n,
            decreases list@.len() - i,
        {
            let uid: u32 = list[i];
            proof {
                assert(list@.contains(uid));
            }
            match uids.get(&uid) {
                Some(name) => {
                    let id: i64 = uid as i64;
                    let ghost before = t;
                    t.by_name.insert(name.clone(), id);
                    t.by_uid.insert(id, name.clone());
                    proof {
                        let a = list@.take(i as int);
                        let b = list@.take(i + 1);
                        assert(b =~= a.push(uid));
                        assert(t.names() =~= before.names().insert(id, name@));
                        assert forall|u: u32| #[trigger] b.contains(u) <==> a.contains(u) || u
                            == uid by {
                            if a.contains(u) {
                                let k = choose|k: int| 0 <= k < a.len() && a[k] == u;
                                assert(b[k] == u);
                            }
                            assert(b[i as int] == uid);
                            if b.contains(u) && u != uid {
                                let k = choose|k: int| 0 <= k < b.len() && b[k] == u;
                                assert(a[k] == u);
                            }
                        }
                        assert(!a.contains(uid)) by {
                            if a.contains(uid) {
                                let k = choose|k: int| 0 <= k < a.len() && a[k] == uid;
                                assert(list@[k] == uid);
                            }
                        }
                        assert forall|n: Seq<char>| #[trigger]
                            t.numbers().contains_key(n) implies 0 <= t.numbers()[n] <= u32::MAX
                            && t.names().contains_key(t.numbers()[n])
                            && t.names()[t.numbers()[n]] == n by {
                            if n != name@ {
                                assert(before.numbers().contains_key(n));
                                assert(before.numbers()[n] != id) by {
                                    assert(before.names().contains_key(before.numbers()[n]));
                                }
                            }
                        }
                    }
                },
                None => {
                    proof {
                        assert(false);
                    }
                },
            }
            i = i + 1;
        }
        proof {
            assert(list@.take(i as int) =~= list@);
            assert forall|u: u32| #[trigger] uids@.contains_key(u) implies t.names()[u as i64]
                == uids@[u]@ && t.numbers().contains_key(uids@[u]@) by {
                assert(list@.contains(u));
                assert(list@.take(i as int).contains(u));
            }
            let map = events::names_of(uids@);
            assert forall|u: i64| #[trigger] t.model().names.contains_key(u) <==> 0 <= u
                <= u32::MAX && map.contains_key(u as u32) by {
                if 0 <= u <= u32::MAX {
                    assert(list@.take(i as int).contains(u as u32) <==> uids@.contains_key(
                        u as u32,
                    )) by {
                        assert(list@.contains(u as u32) <==> uids@.contains_key(u as u32));
                    }
                }
                assert(t.names().contains_key(u) <==> 0 <= u <= u32::MAX && list@.take(
                    i as int,
                ).contains(u as u32));
            }
            assert forall|u: u32| #[trigger] map.contains_key(u) implies t.model().names[u as i64]
                == map[u] && t.model().numbers.contains_key(map[u]) by {
                assert(uids@.contains_key(u));
            }
        }
        t
    }

    /// The number of a user; one that is not known gets the next number.
    pub fn intern(&mut self, username: &str) -> (r: i64)
        requires
            old(self).wf(),
            old(self).next_number() < i64::MAX,
        ensures
            final(self).wf(),
            old(self).numbers().contains_key(username@) ==> r == old(self).numbers()[username@]
                && *final(self) == *old(self),
            !old(self).numbers().contains_key(username@) ==> r == old(self).next_number()
                && final(self).next_number() == old(self).next_number() + 1
                && final(self).numbers() == old(self).numbers().insert(username@, r)
                && final(self).names() == old(self).names().insert(r, username@),
            final(self).model() == learned(old(self).model(), username@),
            r == final(self).numbers()[username@],
    {
        broadcast use vstd::std_specs::hash::group_hash_axioms;

        match self.by_name.get(username) {
            Some(uid) => {
                return *uid;
            },
            None => {},
        }
        let ghost before = *self;
        let uid: i64 = self.next;
        self.next = uid + 1;
        self.by_name.insert(username.to_owned(), uid);
        self.by_uid.insert(uid, username.to_owned());
        proof {
            assert(self.names() =~= before.names().insert(uid, username@));
            assert(self.numbers() =~= before.numbers().insert(username@, uid));
            assert forall|n: Seq<char>| #[trigger]
                self.numbers().contains_key(n) implies self.names().contains_key(
                self.numbers()[n],
            ) && self.numbers()[n] >= 0 by {
                if n != username@ {
                    assert(before.numbers().contains_key(n));
                }
            }
        }
        uid
    }

    /// The user of a number; one that no table knows is named after the number.
    pub fn name(&self, uid: i64) -> (r: String)
        ensures
            r@ == (if self.names().contains_key(uid) {
                self.names()[uid]
            } else {
                events::uid_name(uid as int)
            }),
    {
        broadcast use vstd::std_specs::hash::group_hash_axioms;

        match self.by_uid.get(&uid) {
            Some(s) => s.clone(),
            None => events::unknown_user(uid),
        }
    }

    /// The user of a number, if the table knows it.
    pub fn find_name(&self, uid: i64) -> (r: Option<String>)
        ensures
            r is Some <==> self.names().contains_key(uid),
            r matches Some(s) ==> s@ == self.names()[uid],
    {
        broadcast use vstd::std_specs::hash::group_hash_axioms;

        match self.by_uid.get(&uid) {
            Some(s) => Some(s.clone()),
            None => None,
        }
    }
}

/// `b` is `a` with some more users: those that `a` knows keep their numbers, those
/// that are new have numbers of their own that lead to them, and every other
/// number leads to whom it led.
pub open spec fn extends(a: UserTable, b: UserTable) -> bool {
    extended(a.model(), b.model())
}

/// The same of what two tables know.
pub open spec fn extended(a: TableModel, b: TableModel) -> bool {
    &&& a.next <= b.next
    &&& forall|n: Seq<char>| #[trigger]
        a.numbers.contains_key(n) ==> b.numbers.contains_key(n) && b.numbers[n] == a.numbers[n]
    &&& forall|n: Seq<char>| #[trigger]
        b.numbers.contains_key(n) && !a.numbers.contains_key(n) ==> a.next <= b.numbers[n] < b.next
            && b.names.contains_key(b.numbers[n]) && b.names[b.numbers[n]] == n
    &&& forall|u: i64| #[trigger]
        b.names.contains_key(u) <==> a.names.contains_key(u) || a.next <= u < b.next
    &&& forall|u: i64| #[trigger]
        a.names.contains_key(u) && !(a.next <= u < b.next) ==> b.names[u] == a.names[u]
    &&& forall|u: i64|
        a.next <= u < b.next ==> b.numbers.contains_key(#[trigger] b.names[u])
            && b.numbers[b.names[u]] == u && !a.numbers.contains_key(b.names[u])
}

/// Learning users adds them to a table and changes nothing else.
pub proof fn lemma_learned_extends(t: TableModel, names: Seq<Seq<char>>)
    requires
        0 <= t.next,
        t.next + names.len() <= i64::MAX,
    ensures
        extended(t, learned_all(t, names)),
        learned_all(t, names).next <= t.next + names.len(),
        forall|n: Seq<char>| #[trigger]
            learned_all(t, names).numbers.contains_key(n) <==> t.numbers.contains_key(n)
                || names.contains(n),
    decreases names.len(),
{
    let all = learned_all(t, names);
    if names.len() > 0 {
        let head = names.drop_last();
        let x = names.last();
        let m = learned_all(t, head);
        lemma_learned_extends(t, head);
        assert forall|n: Seq<char>| #[trigger] all.numbers.contains_key(n) <==> t.numbers.contains_key(
            n,
        ) || names.contains(n) by {
            assert(head.push(x) =~= names);
            assert(names.contains(n) <==> head.contains(n) || n == x) by {
                if head.contains(n) {
                    let k = choose|k: int| 0 <= k < head.len() && head[k] == n;
                    assert(names[k] == n);
                }
                assert(names[names.len() - 1] == x);
                if names.contains(n) && n != x {
                    let k = choose|k: int| 0 <= k < names.len() && names[k] == n;
                    assert(head[k] == n);
                }
            }
            assert(m.numbers.contains_key(n) <==> t.numbers.contains_key(n) || head.contains(n));
        }
        if !m.numbers.contains_key(x) {
            assert forall|u: i64| t.next <= u < all.next implies all.numbers.contains_key(
                #[trigger] all.names[u],
            ) && all.numbers[all.names[u]] == u && !t.numbers.contains_key(all.names[u]) by {
                if u == m.next {
                    assert(all.names[u] == x);
                } else {
                    assert(all.names[u] == m.names[u]);
                    assert(m.numbers.contains_key(m.names[u]));
                    assert(m.names[u] != x);
                }
            }
            assert forall|n: Seq<char>| #[trigger]
                all.numbers.contains_key(n) && !t.numbers.contains_key(n) implies t.next
                <= all.numbers[n] < all.next && all.names.contains_key(all.numbers[n])
                && all.names[all.numbers[n]] == n by {
                if n != x {
                    assert(m.numbers.contains_key(n));
                }
            }
        }
    }
}

/// Learning users one list after the other is learning both lists.
pub proof fn lemma_learned_append(t: TableModel, a: Seq<Seq<char>>, b: Seq<Seq<char>>)
    ensures
        learned_all(t, a + b) == learned_all(learned_all(t, a), b),
    decreases b.len(),
{
    if b.len() == 0 {
        assert(a + b =~= a);
    } else {
        lemma_learned_append(t, a, b.drop_last());
        assert((a + b).drop_last() =~= a + b.drop_last());
        assert((a + b).last() == b.last());
    }
}

/// A table of users below the first number that is given out stays settled
/// whatever users it learns: no two users share a number, and each number leads
/// to its user.
pub proof fn law_numbers_lead_to_their_users(
    t: TableModel,
    uids: Map<u32, Seq<char>>,
    names: Seq<Seq<char>>,
)
    requires
        table_of(t, uids),
        forall|u: u32| #[trigger] uids.contains_key(u) ==> u < FIRST_SYNTHETIC_UID,
        FIRST_SYNTHETIC_UID + names.len() <= i64::MAX,
    ensures
        settled(learned_all(t, names)),
{
    assert forall|u: i64| #[trigger] t.names.contains_key(u) implies 0 <= u < t.next by {
        assert(uids.contains_key(u as u32));
    }
    lemma_stays_settled(t, names);
}

/// A settled table stays settled whatever users it learns.
pub proof fn lemma_stays_settled(t: TableModel, names: Seq<Seq<char>>)
    requires
        settled(t),
        0 <= t.next,
        t.next + names.len() <= i64::MAX,
    ensures
        settled(learned_all(t, names)),
    decreases names.len(),
{
    if names.len() > 0 {
        let head = names.drop_last();
        let m = learned_all(t, head);
        let all = learned_all(t, names);
        lemma_stays_settled(t, head);
        lemma_learned_extends(t, head);
        assert forall|n: Seq<char>| #[trigger] all.numbers.contains_key(n) implies 0
            <= all.numbers[n] && all.names.contains_key(all.numbers[n])
            && all.names[all.numbers[n]] == n by {
            if m.numbers.contains_key(n) {
                assert(m.names.contains_key(m.numbers[n]));
            }
        }
    }
}

/// Whether the user of a uid has a number.
pub open spec fn knows(t: UserTable, uids: Map<u32, Seq<char>>, uid: u32) -> bool {
    t.numbers().contains_key(events::user_name(uid, uids))
}

/// The number of the user of a uid.
pub open spec fn number_of(t: UserTable, uids: Map<u32, Seq<char>>, uid: u32) -> i64 {
    t.numbers()[events::user_name(uid, uids)]
}

impl UserTable {
    /// The number of a user, if the table knows it.
    pub fn number(&self, username: &str) -> (r: Option<i64>)
        ensures
            r is Some <==> self.numbers().contains_key(username@),
            r matches Some(v) ==> v == self.numbers()[username@],
    {
        match self.by_name.get(username) {
            Some(uid) => Some(*uid),
            None => None,
        }
    }

    /// Whether there is a number left for a user that is not known.
    pub fn has_room(&self) -> (r: bool)
        ensures
            r == (self.next_number() < i64::MAX),
    {
        self.next < i64::MAX
    }

    /// Gives the user of a uid a number, where it has none.
    pub fn learn(&mut self, uid: u32, uids: &HashMap<u32, String>)
        requires
            old(self).wf(),
            old(self).next_number() < i64::MAX,
        ensures
            final(self).wf(),
            extends(*old(self), *final(self)),
            knows(*final(self), events::names_of(uids@), uid),
            final(self).model() == learned(
                old(self).model(),
                events::user_name(uid, events::names_of(uids@)),
            ),
            final(self).next_number() <= old(self).next_number() + 1,
    {
        let name = events::name_of_uid(uid, uids);
        let _n: i64 = self.intern(name.as_str());
        proof {
            let one = seq![name@];
            assert(one.drop_last() =~= Seq::<Seq<char>>::empty());
            assert(learned_all(old(self).model(), one.drop_last()) == old(self).model());
            lemma_learned_extends(old(self).model(), one);
        }
    }

    /// The number of the user of a uid.
    pub fn number_of_uid(&self, uid: u32, uids: &HashMap<u32, String>) -> (r: i64)
        requires
            knows(*self, events::names_of(uids@), uid),
        ensures
            r == number_of(*self, events::names_of(uids@), uid),
    {
        let name = events::name_of_uid(uid, uids);
        match self.number(name.as_str()) {
            Some(n) => n,
            None => 0,
        }
    }

    /// The numbers that lead to a user, each once.
    fn uid_list(&self) -> (r: Vec<i64>)
        ensures
            r@.no_duplicates(),
            forall|u: i64| #[trigger] r@.contains(u) <==> self.names().contains_key(u),
    {
        broadcast use vstd::std_specs::hash::group_hash_axioms;

        let mut out: Vec<i64> = Vec::new();
        let ghost ks = vstd::std_specs::iter::IteratorSpec::remaining(
            &vstd::std_specs::hash::spec_keys_iter(&self.by_uid),
        );
        for k in it: self.by_uid.keys()
            invariant
                it.seq() == ks,
                out@ == ks.unref().take(it.index()),
        {
            out.push(*k);
            proof {
                let s = ks.unref();
                assert(s.take(it.index() + 1) =~= s.take(it.index()).push(*k));
            }
        }
        proof {
            let s = ks.unref();
            assert(out@ =~= s);
            assert(s.to_set() == self.by_uid@.dom());
            assert forall|u: i64| #[trigger] out@.contains(u) <==> self.names().contains_key(u) by {
                assert(s.to_set().contains(u) <==> s.contains(u));
            }
            assert(out@.no_duplicates()) by {
                assert forall|i: int, j: int|
                    0 <= i < out@.len() && 0 <= j < out@.len() && i != j implies out@[i]
                    != out@[j] by {
                    assert(ks[i] != ks[j]);
                }
            }
        }
        out
    }

    /// Every number with its user, by number.
    pub fn entries(&self) -> (r: Vec<(i64, String)>)
        ensures
            forall|i: int, j: int|
                0 <= i < j < r@.len() ==> (#[trigger] r@[i]).0 < (#[trigger] r@[j]).0,
            forall|i: int|
                0 <= i < r@.len() ==> self.names().contains_key((#[trigger] r@[i]).0)
                    && r@[i].1@ == self.names()[r@[i].0],
            forall|u: i64| #[trigger]
                self.names().contains_key(u) ==> exists|i: int|
                    0 <= i < r@.len() && (#[trigger] r@[i]).0 == u,
    {
        let list = self.uid_list();
        let n: usize = list.len();
        let less = |i: usize, j: usize| -> (b: bool)
            requires
                i < list@.len(),
                j < list@.len(),
            ensures
                b == (list@[i as int] < list@[j as int]),
            { list[i] < list[j] };
        let ghost lt = |i: int, j: int| list@[i] < list@[j];
        let p = order::sort_indices(n, &less, Ghost(lt));
        let mut out: Vec<(i64, String)> = Vec::new();
        let mut k: usize = 0;
        while k < p.len()
            invariant
                k <= p@.len(),
                p@.len() == n,
                n == list@.len(),
                forall|x: int| 0 <= x < p@.len() ==> #[trigger] p@[x] < n,
                out@.len() == k,
                forall|u: i64| #[trigger] list@.contains(u) <==> self.names().contains_key(u),
                forall|x: int|
                    0 <= x < k ==> (#[trigger] out@[x]).0 == list@[p@[x] as int]
                        && self.names().contains_key(out@[x].0) && out@[x].1@
                        == self.names()[out@[x].0],
            decreases p@.len() - k,
        {
            let uid: i64 = list[p[k]];
            proof {
                assert(list@.contains(uid));
            }
            let name = self.name(uid);
            out.push((uid, name));
            k = k + 1;
        }
        proof {
            assert forall|i: int, j: int| 0 <= i < j < out@.len() implies (#[trigger] out@[i]).0 < (
            #[trigger] out@[j]).0 by {
                assert(order::before(lt, p@[i] as int, p@[j] as int));
                if !(list@[p@[i] as int] < list@[p@[j] as int]) {
                    assert(list@[p@[i] as int] == list@[p@[j] as int]);
                    assert(p@[i] < p@[j]);
                }
            }
            assert forall|u: i64| #[trigger] self.names().contains_key(u) implies exists|i: int|
                0 <= i < out@.len() && (#[trigger] out@[i]).0 == u by {
                assert(list@.contains(u));
                let x = choose|x: int| 0 <= x < list@.len() && list@[x] == u;
                assert(p@.contains(x as usize));
                let i = choose|i: int| 0 <= i < p@.len() && p@[i] == x as usize;
                assert(out@[i].0 == u);
            }
        }
        out
    }
}

} // verus!
