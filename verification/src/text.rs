//! Text as sequences of characters.
//!
//! The rest of the library states what it does with strings over `Seq<char>`.
//! This module holds the operations on such sequences, each with the spec
//! function that says what it computes.

use vstd::hash_map::StringHashMap;
use vstd::prelude::*;
use vstd::slice::slice_subrange;
use vstd::slice::slice_to_vec;
use vstd::string::*;

verus! {

/// `String::push` appends one character.
pub assume_specification[ String::push ](s: &mut String, ch: char)
    ensures
        final(s)@ == old(s)@.push(ch),
;

/// The characters of `s`.
pub fn to_chars(s: &str) -> (v: Vec<char>)
    ensures
        v@ == s@,
{
    let mut v: Vec<char> = Vec::new();
    for c in it: s.chars()
        invariant
            v@ == it.seq().take(it.index()),
            it.seq() == s@,
    {
        v.push(c);
        proof {
            assert(it.seq().take(it.index() + 1) =~= it.seq().take(it.index()).push(c));
        }
    }
    proof {
        assert(s@.take(s@.len() as int) =~= s@);
    }
    v
}

/// The string made of the characters of `v`.
pub fn from_chars(v: &[char]) -> (s: String)
    ensures
        s@ == v@,
{
    let mut s: String = String::new();
    let mut i: usize = 0;
    while i < v.len()
        invariant
            i <= v.len(),
            s@ == v@.take(i as int),
        decreases v.len() - i,
    {
        s.push(v[i]);
        proof {
            assert(v@.take(i + 1) =~= v@.take(i as int).push(v@[i as int]));
        }
        i = i + 1;
    }
    proof {
        assert(v@.take(v@.len() as int) =~= v@);
    }
    s
}

/// Whether two character sequences are the same.
pub fn chars_eq(a: &[char], b: &[char]) -> (r: bool)
    ensures
        r == (a@ == b@),
{
    if a.len() != b.len() {
        return false;
    }
    let mut i: usize = 0;
    while i < a.len()
        invariant
            i <= a.len(),
            a.len() == b.len(),
            a@.take(i as int) == b@.take(i as int),
        decreases a.len() - i,
    {
        if a[i] != b[i] {
            return false;
        }
        proof {
            assert(a@.take(i + 1) =~= a@.take(i as int).push(a@[i as int]));
            assert(b@.take(i + 1) =~= b@.take(i as int).push(b@[i as int]));
        }
        i = i + 1;
    }
    proof {
        assert(a@.take(a@.len() as int) =~= a@);
        assert(b@.take(b@.len() as int) =~= b@);
    }
    true
}

/// Whether two strings are the same.
pub fn str_eq(a: &str, b: &str) -> (r: bool)
    ensures
        r == (a@ == b@),
{
    let x = to_chars(a);
    let y = to_chars(b);
    chars_eq(&x, &y)
}

/// The views of a sequence of strings.
pub open spec fn strs(v: Seq<String>) -> Seq<Seq<char>> {
    v.map_values(|s: String| s@)
}

/// The views of a sequence of character vectors.
pub open spec fn rows(v: Seq<Vec<char>>) -> Seq<Seq<char>> {
    v.map_values(|s: Vec<char>| s@)
}

// ---------------------------------------------------------------------------
// Characters
// ---------------------------------------------------------------------------

/// A control character: general category Cc.
pub open spec fn is_control_char(c: char) -> bool {
    c as int <= 0x1f || 0x7f <= c as int <= 0x9f
}

/// A character with the `White_Space` property.
pub open spec fn is_space_char(c: char) -> bool {
    let n = c as int;
    ||| 0x09 <= n <= 0x0d
    ||| n == 0x20
    ||| n == 0x85
    ||| n == 0xa0
    ||| n == 0x1680
    ||| 0x2000 <= n <= 0x200a
    ||| n == 0x2028
    ||| n == 0x2029
    ||| n == 0x202f
    ||| n == 0x205f
    ||| n == 0x3000
}

/// An ASCII digit.
pub open spec fn is_digit_char(c: char) -> bool {
    '0' as int <= c as int <= '9' as int
}

/// An ASCII letter or digit.
pub open spec fn is_ascii_alnum_char(c: char) -> bool {
    ||| is_digit_char(c)
    ||| 'a' as int <= c as int <= 'z' as int
    ||| 'A' as int <= c as int <= 'Z' as int
}

pub fn is_control(c: char) -> (r: bool)
    ensures
        r == is_control_char(c),
{
    let n: u32 = c as u32;
    n <= 0x1f || (0x7f <= n && n <= 0x9f)
}

pub fn is_space(c: char) -> (r: bool)
    ensures
        r == is_space_char(c),
{
    let n: u32 = c as u32;
    (0x09 <= n && n <= 0x0d) || n == 0x20 || n == 0x85 || n == 0xa0 || n == 0x1680 || (0x2000 <= n
        && n <= 0x200a) || n == 0x2028 || n == 0x2029 || n == 0x202f || n == 0x205f || n == 0x3000
}

pub fn is_digit(c: char) -> (r: bool)
    ensures
        r == is_digit_char(c),
{
    let n: u32 = c as u32;
    0x30 <= n && n <= 0x39
}

pub fn is_ascii_alnum(c: char) -> (r: bool)
    ensures
        r == is_ascii_alnum_char(c),
{
    let n: u32 = c as u32;
    (0x30 <= n && n <= 0x39) || (0x61 <= n && n <= 0x7a) || (0x41 <= n && n <= 0x5a)
}

/// The upper-case ASCII letters become lower case; every other character stays.
pub open spec fn ascii_lower_char(c: char) -> char {
    if 'A' as int <= c as int <= 'Z' as int {
        (c as int + 32) as char
    } else {
        c
    }
}

// ---------------------------------------------------------------------------
// Searching
// ---------------------------------------------------------------------------

/// The index of the first `c` in `s`, or `s.len()` where there is none.
pub open spec fn find(s: Seq<char>, c: char) -> int
    decreases s.len(),
{
    if s.len() == 0 {
        0
    } else if s[0] == c {
        0
    } else {
        1 + find(s.drop_first(), c)
    }
}

/// The index of the last `c` in `s`, or -1 where there is none.
pub open spec fn rfind(s: Seq<char>, c: char) -> int
    decreases s.len(),
{
    if s.len() == 0 {
        -1
    } else if s.last() == c {
        s.len() - 1
    } else {
        rfind(s.drop_last(), c)
    }
}

/// `find` is the first index that holds `c`.
pub proof fn lemma_find(s: Seq<char>, c: char)
    ensures
        0 <= find(s, c) <= s.len(),
        find(s, c) < s.len() ==> s[find(s, c)] == c,
        forall|j: int| 0 <= j < find(s, c) ==> s[j] != c,
        find(s, c) < s.len() <==> s.contains(c),
    decreases s.len(),
{
    if s.len() > 0 && s[0] != c {
        let t = s.drop_first();
        lemma_find(t, c);
        assert forall|j: int| 0 <= j < find(s, c) implies s[j] != c by {
            if j > 0 {
                assert(s[j] == t[j - 1]);
            }
        }
        if s.contains(c) {
            let k = choose|k: int| 0 <= k < s.len() && s[k] == c;
            assert(t[k - 1] == c);
            assert(t.contains(c));
        }
    } else if s.len() > 0 {
        assert(s[0] == c);
    }
}

/// The index that holds `c` with no `c` before it is `find`.
pub proof fn lemma_find_unique(s: Seq<char>, c: char, i: int)
    requires
        0 <= i <= s.len(),
        i < s.len() ==> s[i] == c,
        forall|j: int| 0 <= j < i ==> s[j] != c,
    ensures
        find(s, c) == i,
{
    lemma_find(s, c);
}

/// `rfind` is the last index that holds `c`.
pub proof fn lemma_rfind(s: Seq<char>, c: char)
    ensures
        -1 <= rfind(s, c) < s.len(),
        rfind(s, c) >= 0 ==> s[rfind(s, c)] == c,
        forall|j: int| rfind(s, c) < j < s.len() ==> s[j] != c,
        rfind(s, c) >= 0 <==> s.contains(c),
    decreases s.len(),
{
    if s.len() > 0 && s.last() != c {
        let t = s.drop_last();
        lemma_rfind(t, c);
        if s.contains(c) {
            let k = choose|k: int| 0 <= k < s.len() && s[k] == c;
            assert(t[k] == c);
            assert(t.contains(c));
        }
        if t.contains(c) {
            let k = choose|k: int| 0 <= k < t.len() && t[k] == c;
            assert(s[k] == c);
        }
        assert forall|j: int| rfind(s, c) < j < s.len() implies s[j] != c by {
            if j < t.len() {
                assert(s[j] == t[j]);
            }
        }
    } else if s.len() > 0 {
        assert(s[s.len() - 1] == c);
    }
}

/// The index of the first `c`, or the length.
pub fn find_char(s: &[char], c: char) -> (r: usize)
    ensures
        r == find(s@, c),
        r <= s.len(),
{
    let mut i: usize = 0;
    while i < s.len()
        invariant
            i <= s.len(),
            forall|j: int| 0 <= j < i ==> s@[j] != c,
        decreases s.len() - i,
    {
        if s[i] == c {
            proof {
                lemma_find_unique(s@, c, i as int);
            }
            return i;
        }
        i = i + 1;
    }
    proof {
        lemma_find_unique(s@, c, i as int);
    }
    i
}

/// The index of the last `c`, if there is one.
pub fn rfind_char(s: &[char], c: char) -> (r: Option<usize>)
    ensures
        r is Some <==> rfind(s@, c) >= 0,
        r matches Some(i) ==> i == rfind(s@, c) && i < s.len() && s@[i as int] == c,
{
    let mut i: usize = s.len();
    proof {
        lemma_rfind(s@, c);
    }
    while i > 0
        invariant
            i <= s.len(),
            forall|j: int| i <= j < s.len() ==> s@[j] != c,
            -1 <= rfind(s@, c) < s.len(),
            rfind(s@, c) >= 0 ==> s@[rfind(s@, c)] == c,
            forall|j: int| rfind(s@, c) < j < s.len() ==> s@[j] != c,
        decreases i,
    {
        if s[i - 1] == c {
            return Some(i - 1);
        }
        i = i - 1;
    }
    None
}

/// Whether `p` occurs in `s` at `i`.
pub open spec fn occurs_at(s: Seq<char>, p: Seq<char>, i: int) -> bool {
    0 <= i && i + p.len() <= s.len() && s.subrange(i, i + p.len()) == p
}

/// Whether `p` occurs in `s`.
pub open spec fn has_sub(s: Seq<char>, p: Seq<char>) -> bool {
    exists|i: int| occurs_at(s, p, i)
}

/// The first index at which `p` occurs in `s`, or -1 where it does not.
#[verifier::opaque]
pub open spec fn find_sub(s: Seq<char>, p: Seq<char>) -> int {
    if has_sub(s, p) {
        choose|i: int| occurs_at(s, p, i) && forall|j: int| 0 <= j < i ==> !occurs_at(s, p, j)
    } else {
        -1
    }
}

/// Whether `p` stands in `s` at `i`.
pub fn matches_at(s: &[char], p: &[char], i: usize) -> (r: bool)
    ensures
        r == occurs_at(s@, p@, i as int),
{
    if i > s.len() || s.len() - i < p.len() {
        return false;
    }
    chars_eq(slice_subrange(s, i, i + p.len()), p)
}

/// The first index at which `p` occurs in `s`.
pub fn find_chars(s: &[char], p: &[char]) -> (r: Option<usize>)
    ensures
        r is Some <==> has_sub(s@, p@),
        r matches Some(i) ==> i == find_sub(s@, p@) && occurs_at(s@, p@, i as int),
{
    let mut i: usize = 0;
    while i <= s.len()
        invariant
            i <= s.len() + 1,
            forall|j: int| 0 <= j < i ==> !occurs_at(s@, p@, j),
        decreases s.len() + 1 - i,
    {
        if matches_at(s, p, i) {
            proof {
                reveal(find_sub);
                assert(has_sub(s@, p@));
                let k = find_sub(s@, p@);
                assert(occurs_at(s@, p@, i as int) && forall|j: int|
                    0 <= j < i ==> !occurs_at(s@, p@, j));
                assert(k == i as int);
            }
            return Some(i);
        }
        if i == s.len() {
            proof {
                assert forall|j: int| #[trigger] occurs_at(s@, p@, j) implies false by {
                    assert(0 <= j <= s.len());
                }
            }
            return None;
        }
        i = i + 1;
    }
    None
}

/// Whether `s` begins with `p`.
pub fn starts_with(s: &[char], p: &[char]) -> (r: bool)
    ensures
        r == p@.is_prefix_of(s@),
{
    if p.len() > s.len() {
        return false;
    }
    chars_eq(slice_subrange(s, 0, p.len()), p)
}

/// Whether `s` ends with `p`.
pub fn ends_with(s: &[char], p: &[char]) -> (r: bool)
    ensures
        r == p@.is_suffix_of(s@),
{
    if p.len() > s.len() {
        return false;
    }
    chars_eq(slice_subrange(s, s.len() - p.len(), s.len()), p)
}

// ---------------------------------------------------------------------------
// Splitting
// ---------------------------------------------------------------------------

/// The pieces of `s` between the occurrences of `c`; never empty.
pub open spec fn split(s: Seq<char>, c: char) -> Seq<Seq<char>>
    decreases s.len(),
{
    let f = find(s, c);
    if f < 0 || f >= s.len() {
        seq![s]
    } else {
        seq![s.take(f)] + split(s.skip(f + 1), c)
    }
}

/// The pieces of `s` between the occurrences of `c`.
pub fn split_chars(s: &[char], c: char) -> (r: Vec<Vec<char>>)
    ensures
        rows(r@) == split(s@, c),
{
    let mut r: Vec<Vec<char>> = Vec::new();
    let mut start: usize = 0;
    proof {
        assert(s@.skip(0) =~= s@);
        assert(rows(r@) + split(s@.skip(0), c) =~= split(s@, c));
    }
    loop
        invariant_except_break
            start <= s.len(),
            rows(r@) + split(s@.skip(start as int), c) == split(s@, c),
        ensures
            rows(r@) == split(s@, c),
        decreases s.len() - start,
    {
        let rest = slice_subrange(s, start, s.len());
        proof {
            assert(rest@ =~= s@.skip(start as int));
            lemma_find(rest@, c);
        }
        let f: usize = find_char(rest, c);
        let piece: Vec<char> = slice_to_vec(slice_subrange(rest, 0, f));
        let ghost before = rows(r@);
        r.push(piece);
        proof {
            assert(rows(r@) =~= before.push(rest@.take(f as int)));
        }
        if f >= rest.len() {
            proof {
                assert(split(rest@, c) == seq![rest@]);
                assert(rest@.take(f as int) =~= rest@);
                assert(rows(r@) =~= before + seq![rest@]);
            }
            break;
        }
        proof {
            assert(rest@.skip(f + 1) =~= s@.skip(start + f + 1));
            assert(before + (seq![rest@.take(f as int)] + split(rest@.skip(f + 1), c)) =~= rows(r@)
                + split(s@.skip(start + f + 1), c));
        }
        start = start + f + 1;
    }
    r
}

/// `s` without leading white space.
pub open spec fn trim_start(s: Seq<char>) -> Seq<char>
    decreases s.len(),
{
    if s.len() > 0 && is_space_char(s[0]) {
        trim_start(s.drop_first())
    } else {
        s
    }
}

/// `s` without trailing white space.
pub open spec fn trim_end(s: Seq<char>) -> Seq<char>
    decreases s.len(),
{
    if s.len() > 0 && is_space_char(s.last()) {
        trim_end(s.drop_last())
    } else {
        s
    }
}

/// `s` without white space at its two ends.
pub open spec fn trim(s: Seq<char>) -> Seq<char> {
    trim_end(trim_start(s))
}

/// `s` without white space at its two ends.
pub fn trim_chars(s: &[char]) -> (r: &[char])
    ensures
        r@ == trim(s@),
{
    let mut i: usize = 0;
    proof {
        assert(s@.skip(0) =~= s@);
    }
    while i < s.len() && is_space(s[i])
        invariant
            i <= s.len(),
            trim_start(s@) == trim_start(s@.skip(i as int)),
        decreases s.len() - i,
    {
        proof {
            assert(s@.skip(i as int).drop_first() =~= s@.skip(i + 1));
        }
        i = i + 1;
    }
    let t = slice_subrange(s, i, s.len());
    proof {
        assert(t@ =~= s@.skip(i as int));
        assert(t@ == trim_start(s@));
        assert(t@.take(t@.len() as int) =~= t@);
    }
    let mut n: usize = t.len();
    while n > 0 && is_space(t[n - 1])
        invariant
            n <= t.len(),
            trim_end(t@) == trim_end(t@.take(n as int)),
        decreases n,
    {
        proof {
            assert(t@.take(n as int).drop_last() =~= t@.take(n - 1));
        }
        n = n - 1;
    }
    let u = slice_subrange(t, 0, n);
    proof {
        assert(u@ =~= t@.take(n as int));
    }
    u
}

/// One line without the carriage return that closes it.
pub open spec fn strip_cr(s: Seq<char>) -> Seq<char> {
    if s.len() > 0 && s.last() == '\r' {
        s.drop_last()
    } else {
        s
    }
}

/// The lines of a text: a line ends with a line feed, or with a carriage
/// return and a line feed; what follows the last line feed is a line if it is
/// not empty.
pub open spec fn lines(s: Seq<char>) -> Seq<Seq<char>> {
    let parts = split(s, '\n');
    let closed_lines = Seq::new((parts.len() - 1) as nat, |i: int| strip_cr(parts[i]));
    if parts.last().len() == 0 {
        closed_lines
    } else {
        closed_lines.push(parts.last())
    }
}

/// `split` has at least one piece.
pub proof fn lemma_split_nonempty(s: Seq<char>, c: char)
    ensures
        split(s, c).len() >= 1,
{
    lemma_find(s, c);
}

/// The lines of a text.
pub fn line_chars(s: &[char]) -> (r: Vec<Vec<char>>)
    ensures
        rows(r@) == lines(s@),
{
    let parts = split_chars(s, '\n');
    proof {
        lemma_split_nonempty(s@, '\n');
        assert(rows(parts@).len() == parts@.len());
    }
    let mut r: Vec<Vec<char>> = Vec::new();
    let mut i: usize = 0;
    let ghost want = Seq::new((parts@.len() - 1) as nat, |i: int| strip_cr(split(s@, '\n')[i]));
    while i < parts.len() - 1
        invariant
            parts@.len() >= 1,
            i <= parts@.len() - 1,
            rows(parts@) == split(s@, '\n'),
            want == Seq::new((parts@.len() - 1) as nat, |i: int| strip_cr(split(s@, '\n')[i])),
            rows(r@) == want.take(i as int),
        decreases parts@.len() - 1 - i,
    {
        let part: &Vec<char> = &parts[i];
        let mut n: usize = part.len();
        if n > 0 && part[n - 1] == '\r' {
            n = n - 1;
        }
        let piece = slice_to_vec(slice_subrange(part.as_slice(), 0, n));
        let ghost before = rows(r@);
        r.push(piece);
        proof {
            assert(rows(parts@)[i as int] == part@);
            assert(piece@ =~= strip_cr(part@));
            assert(rows(r@) =~= before.push(piece@));
            assert(want.take(i + 1) =~= want.take(i as int).push(want[i as int]));
        }
        i = i + 1;
    }
    proof {
        assert(want.take(i as int) =~= want);
        assert(rows(parts@)[i as int] == parts@[i as int]@);
    }
    if parts[i].len() > 0 {
        let ghost before = rows(r@);
        let last = slice_to_vec(parts[i].as_slice());
        r.push(last);
        proof {
            assert(rows(r@) =~= before.push(last@));
        }
    }
    r
}

// ---------------------------------------------------------------------------
// Joining
// ---------------------------------------------------------------------------

/// The pieces with `sep` between each two.
pub open spec fn join(pieces: Seq<Seq<char>>, sep: Seq<char>) -> Seq<char>
    decreases pieces.len(),
{
    if pieces.len() == 0 {
        Seq::empty()
    } else if pieces.len() == 1 {
        pieces[0]
    } else {
        join(pieces.drop_last(), sep) + sep + pieces.last()
    }
}

/// A piece without `c` that follows a `c` is the last piece.
pub proof fn lemma_split_tail(a: Seq<char>, b: Seq<char>, c: char)
    requires
        !b.contains(c),
    ensures
        split(a + seq![c] + b, c) == split(a, c).push(b),
    decreases a.len(),
{
    let s = a + seq![c] + b;
    lemma_find(a, c);
    lemma_find(b, c);
    let f = find(a, c);
    assert forall|j: int| 0 <= j < f implies s[j] != c by {
        assert(s[j] == a[j]);
    }
    assert(s[f] == c);
    lemma_find_unique(s, c, f);
    assert(s.take(f) =~= a.take(f));
    if f >= a.len() {
        assert(a.take(f) =~= a);
        assert(s.skip(f + 1) =~= b);
        assert(split(b, c) =~= seq![b]);
        assert(split(s, c) =~= seq![a] + seq![b]);
        assert(split(a, c) =~= seq![a]);
        assert(seq![a] + seq![b] =~= seq![a].push(b));
    } else {
        let rest = a.skip(f + 1);
        assert(s.skip(f + 1) =~= rest + seq![c] + b);
        lemma_split_tail(rest, b, c);
        assert(seq![a.take(f)] + split(rest, c).push(b) =~= (seq![a.take(f)] + split(
            rest,
            c,
        )).push(b));
    }
}

/// Pieces without `c` that are joined by `c` are what the text is split into.
pub proof fn lemma_split_of_joined(pieces: Seq<Seq<char>>, c: char)
    requires
        pieces.len() >= 1,
        forall|i: int| 0 <= i < pieces.len() ==> !(#[trigger] pieces[i]).contains(c),
    ensures
        split(join(pieces, seq![c]), c) == pieces,
    decreases pieces.len(),
{
    if pieces.len() == 1 {
        lemma_find(pieces[0], c);
        assert(!pieces[0].contains(c));
        assert(split(pieces[0], c) =~= pieces);
    } else {
        let head = pieces.drop_last();
        assert forall|i: int| 0 <= i < head.len() implies !(#[trigger] head[i]).contains(c) by {
            assert(head[i] == pieces[i]);
        }
        lemma_split_of_joined(head, c);
        assert(!pieces[pieces.len() - 1].contains(c));
        lemma_split_tail(join(head, seq![c]), pieces.last(), c);
        assert(head.push(pieces.last()) =~= pieces);
    }
}

/// Joined pieces begin as the first piece does and end as the last one.
pub proof fn lemma_joined_ends(pieces: Seq<Seq<char>>, sep: Seq<char>)
    requires
        pieces.len() >= 1,
        forall|i: int| 0 <= i < pieces.len() ==> (#[trigger] pieces[i]).len() > 0,
    ensures
        join(pieces, sep).len() > 0,
        join(pieces, sep)[0] == pieces[0][0],
        join(pieces, sep).last() == pieces.last().last(),
    decreases pieces.len(),
{
    assert(pieces[0].len() > 0);
    if pieces.len() > 1 {
        let head = pieces.drop_last();
        assert forall|i: int| 0 <= i < head.len() implies (#[trigger] head[i]).len() > 0 by {
            assert(head[i] == pieces[i]);
        }
        lemma_joined_ends(head, sep);
        assert(pieces[pieces.len() - 1].len() > 0);
        assert(head[0] == pieces[0]);
    }
}

/// Appends the characters of `b` to `a`.
pub fn append_chars(a: &mut Vec<char>, b: &[char])
    ensures
        final(a)@ == old(a)@ + b@,
{
    let mut i: usize = 0;
    while i < b.len()
        invariant
            i <= b.len(),
            a@ == old(a)@ + b@.take(i as int),
        decreases b.len() - i,
    {
        a.push(b[i]);
        proof {
            assert(b@.take(i + 1) =~= b@.take(i as int).push(b@[i as int]));
        }
        i = i + 1;
    }
    proof {
        assert(b@.take(b@.len() as int) =~= b@);
    }
}

/// The strings with `sep` between each two.
pub fn join_strings(pieces: &Vec<String>, sep: &str) -> (r: String)
    ensures
        r@ == join(strs(pieces@), sep@),
{
    let mut r: String = String::new();
    let mut i: usize = 0;
    while i < pieces.len()
        invariant
            i <= pieces.len(),
            r@ == join(strs(pieces@).take(i as int), sep@),
        decreases pieces.len() - i,
    {
        if i > 0 {
            r.append(sep);
        }
        r.append(pieces[i].as_str());
        proof {
            let t = strs(pieces@).take(i + 1);
            assert(t.drop_last() =~= strs(pieces@).take(i as int));
            assert(t.last() == pieces@[i as int]@);
            if i == 0 {
                assert(strs(pieces@).take(0) =~= Seq::empty());
                assert(r@ =~= pieces@[0]@);
            }
        }
        i = i + 1;
    }
    proof {
        assert(strs(pieces@).take(pieces@.len() as int) =~= strs(pieces@));
    }
    r
}

// ---------------------------------------------------------------------------
// Numbers
// ---------------------------------------------------------------------------

/// The character of one decimal digit.
pub open spec fn digit_char(d: int) -> char {
    ('0' as int + d) as char
}

/// A number in decimal, without leading zeros.
pub open spec fn dec(n: nat) -> Seq<char>
    decreases n,
{
    if n < 10 {
        seq![digit_char(n as int)]
    } else {
        dec(n / 10).push(digit_char((n % 10) as int))
    }
}

/// A signed number in decimal.
pub open spec fn dec_int(n: int) -> Seq<char> {
    if n < 0 {
        seq!['-'] + dec((-n) as nat)
    } else {
        dec(n as nat)
    }
}

/// One decimal digit as a character.
pub fn digit(d: u64) -> (c: char)
    requires
        d < 10,
    ensures
        c == digit_char(d as int),
{
    let b: u8 = 48 + d as u8;
    b as char
}

/// A number in decimal.
pub fn dec_chars(n: u64) -> (r: Vec<char>)
    ensures
        r@ == dec(n as nat),
    decreases n,
{
    if n < 10 {
        let mut v: Vec<char> = Vec::new();
        v.push(digit(n));
        v
    } else {
        let mut v = dec_chars(n / 10);
        v.push(digit(n % 10));
        v
    }
}

/// A number in decimal, as a string.
pub fn dec_string(n: u64) -> (r: String)
    ensures
        r@ == dec(n as nat),
{
    let v = dec_chars(n);
    from_chars(&v)
}

/// A signed number in decimal.
pub fn dec_int_chars(n: i64) -> (r: Vec<char>)
    ensures
        r@ == dec_int(n as int),
{
    if n < 0 {
        let m: u64 = (-(n as i128)) as u64;
        let mut v: Vec<char> = Vec::new();
        v.push('-');
        let d = dec_chars(m);
        append_chars(&mut v, &d);
        v
    } else {
        dec_chars(n as u64)
    }
}

/// A signed number in decimal, as a string.
pub fn dec_int_string(n: i64) -> (r: String)
    ensures
        r@ == dec_int(n as int),
{
    let v = dec_int_chars(n);
    from_chars(&v)
}

/// Whether every character is a digit.
pub open spec fn all_digits(s: Seq<char>) -> bool {
    forall|i: int| 0 <= i < s.len() ==> is_digit_char(#[trigger] s[i])
}

/// The number that a sequence of digits stands for.
pub open spec fn digits_value(s: Seq<char>) -> nat
    decreases s.len(),
{
    if s.len() == 0 {
        0
    } else {
        10 * digits_value(s.drop_last()) + (s.last() as int - '0' as int) as nat
    }
}

/// What a decimal number without a sign reads as, up to `max`.
pub open spec fn parse_digits(s: Seq<char>, max: nat) -> Option<nat> {
    if s.len() > 0 && all_digits(s) && digits_value(s) <= max {
        Some(digits_value(s))
    } else {
        None
    }
}

/// What an unsigned number reads as, up to `max`: digits, with a plus sign
/// before them or without.
pub open spec fn parse_unsigned(s: Seq<char>, max: nat) -> Option<nat> {
    if s.len() > 0 && s[0] == '+' {
        parse_digits(s.drop_first(), max)
    } else {
        parse_digits(s, max)
    }
}

/// What a signed 64-bit number reads as.
pub open spec fn parse_signed(s: Seq<char>) -> Option<int> {
    if s.len() > 0 && s[0] == '-' {
        match parse_digits(s.drop_first(), 0x8000_0000_0000_0000) {
            Some(n) => Some(-(n as int)),
            None => None,
        }
    } else {
        match parse_unsigned(s, 0x7fff_ffff_ffff_ffff) {
            Some(n) => Some(n as int),
            None => None,
        }
    }
}

proof fn lemma_digits_value_prefix(s: Seq<char>, i: int)
    requires
        0 <= i <= s.len(),
        all_digits(s),
    ensures
        digits_value(s.take(i)) <= digits_value(s),
    decreases s.len() - i,
{
    if i == s.len() {
        assert(s.take(i) =~= s);
    } else {
        lemma_digits_value_prefix(s, i + 1);
        assert(s.take(i + 1).drop_last() =~= s.take(i));
        assert(is_digit_char(s[i]));
    }
}

/// Reads digits.
pub fn read_digits(s: &[char], max: u64) -> (r: Option<u64>)
    ensures
        r is Some <==> parse_digits(s@, max as nat) is Some,
        r matches Some(n) ==> parse_digits(s@, max as nat) == Some(n as nat),
{
    if s.len() == 0 {
        return None;
    }
    let mut i: usize = 0;
    while i < s.len()
        invariant
            i <= s.len(),
            forall|j: int| 0 <= j < i ==> is_digit_char(#[trigger] s@[j]),
        decreases s.len() - i,
    {
        if !is_digit(s[i]) {
            proof {
                assert(!is_digit_char(s@[i as int]));
            }
            return None;
        }
        i = i + 1;
    }
    let mut n: u128 = 0;
    let mut k: usize = 0;
    while k < s.len()
        invariant
            k <= s.len(),
            all_digits(s@),
            n <= max,
            n == digits_value(s@.take(k as int)),
        decreases s.len() - k,
    {
        proof {
            assert(is_digit_char(s@[k as int]));
            assert(s@.take(k + 1).drop_last() =~= s@.take(k as int));
        }
        n = n * 10 + (s[k] as u32 - 48) as u128;
        if n > max as u128 {
            proof {
                lemma_digits_value_prefix(s@, k + 1);
            }
            return None;
        }
        k = k + 1;
    }
    proof {
        assert(s@.take(s@.len() as int) =~= s@);
    }
    Some(n as u64)
}

/// Reads an unsigned number up to `max`.
pub fn read_unsigned(s: &[char], max: u64) -> (r: Option<u64>)
    ensures
        r is Some <==> parse_unsigned(s@, max as nat) is Some,
        r matches Some(n) ==> parse_unsigned(s@, max as nat) == Some(n as nat),
{
    if s.len() > 0 && s[0] == '+' {
        let t = slice_subrange(s, 1, s.len());
        proof {
            assert(t@ =~= s@.drop_first());
        }
        read_digits(t, max)
    } else {
        read_digits(s, max)
    }
}

/// Reads a signed number.
pub fn read_signed(s: &[char]) -> (r: Option<i64>)
    ensures
        r is Some <==> parse_signed(s@) is Some,
        r matches Some(n) ==> parse_signed(s@) == Some(n as int),
{
    if s.len() > 0 && s[0] == '-' {
        let t = slice_subrange(s, 1, s.len());
        proof {
            assert(t@ =~= s@.drop_first());
        }
        match read_digits(t, 0x8000_0000_0000_0000) {
            Some(n) => Some((-(n as i128)) as i64),
            None => None,
        }
    } else {
        match read_unsigned(s, 0x7fff_ffff_ffff_ffff) {
            Some(n) => Some(n as i64),
            None => None,
        }
    }
}

pub proof fn lemma_dec_digits(n: nat)
    ensures
        dec(n).len() >= 1,
        all_digits(dec(n)),
        digits_value(dec(n)) == n,
    decreases n,
{
    if n < 10 {
        let s = seq![digit_char(n as int)];
        assert(s.drop_last() =~= Seq::empty());
        assert(digits_value(Seq::<char>::empty()) == 0);
    } else {
        lemma_dec_digits(n / 10);
        let s = dec(n / 10).push(digit_char((n % 10) as int));
        assert(s.drop_last() =~= dec(n / 10));
        assert forall|i: int| 0 <= i < s.len() implies is_digit_char(#[trigger] s[i]) by {
            if i < dec(n / 10).len() {
                assert(is_digit_char(dec(n / 10)[i]));
            }
        }
    }
}

/// Digits have no white space at their ends.
pub proof fn lemma_trim_of_digits(s: Seq<char>)
    requires
        s.len() > 0,
        all_digits(s),
    ensures
        trim(s) == s,
{
    assert(is_digit_char(s[0]));
    assert(is_digit_char(s[s.len() - 1]));
}

/// Reading back a number that was written in decimal gives the number.
pub proof fn law_read_of_written_number(n: nat, max: nat)
    requires
        n <= max,
    ensures
        parse_unsigned(dec(n), max) == Some(n),
{
    lemma_dec_digits(n);
    assert(is_digit_char(dec(n)[0]));
}

/// Reading back a signed number that was written in decimal gives the number.
pub proof fn law_read_of_written_signed(n: i64)
    ensures
        parse_signed(dec_int(n as int)) == Some(n as int),
{
    if n < 0 {
        let m = (-(n as int)) as nat;
        lemma_dec_digits(m);
        assert((seq!['-'] + dec(m)).drop_first() =~= dec(m));
    } else {
        lemma_dec_digits(n as nat);
        assert(is_digit_char(dec(n as nat)[0]));
    }
}

/// A comma before each group of three characters, counted from the right.
pub open spec fn group3(s: Seq<char>) -> Seq<char>
    decreases s.len(),
{
    if s.len() <= 3 {
        s
    } else {
        group3(s.take(s.len() - 3)) + seq![','] + s.skip(s.len() - 3)
    }
}

/// A comma before each group of three characters, counted from the right.
pub fn group3_chars(s: &[char]) -> (r: Vec<char>)
    ensures
        r@ == group3(s@),
    decreases s.len(),
{
    if s.len() <= 3 {
        slice_to_vec(s)
    } else {
        let head = slice_subrange(s, 0, s.len() - 3);
        let tail = slice_subrange(s, s.len() - 3, s.len());
        let mut r = group3_chars(head);
        r.push(',');
        append_chars(&mut r, tail);
        proof {
            assert(head@ =~= s@.take(s@.len() - 3));
            assert(tail@ =~= s@.skip(s@.len() - 3));
            assert(r@ =~= group3(head@) + seq![','] + tail@);
        }
        r
    }
}

/// `s` filled up on the left with `c` to `w` characters.
pub open spec fn pad_left(s: Seq<char>, w: nat, c: char) -> Seq<char> {
    if s.len() >= w {
        s
    } else {
        Seq::new((w - s.len()) as nat, |i: int| c) + s
    }
}

/// `s` filled up on the left with `c` to `w` characters.
pub fn pad_left_chars(s: &[char], w: usize, c: char) -> (r: Vec<char>)
    ensures
        r@ == pad_left(s@, w as nat, c),
{
    let mut r: Vec<char> = Vec::new();
    let mut i: usize = s.len();
    while i < w
        invariant
            s.len() <= i,
            i <= w || w <= s.len(),
            w <= s.len() ==> i == s.len(),
            r@ == Seq::new((i - s.len()) as nat, |k: int| c),
        decreases w - i,
    {
        r.push(c);
        i = i + 1;
        proof {
            assert(r@ =~= Seq::new((i - s.len()) as nat, |k: int| c));
        }
    }
    append_chars(&mut r, s);
    proof {
        assert(r@ =~= pad_left(s@, w as nat, c));
    }
    r
}

// ---------------------------------------------------------------------------
// Order
// ---------------------------------------------------------------------------

/// The order of strings: by the first character in which they differ, a proper
/// prefix before what it begins.
pub open spec fn lex_lt(a: Seq<char>, b: Seq<char>) -> bool
    decreases a.len(),
{
    if b.len() == 0 {
        false
    } else if a.len() == 0 {
        true
    } else if a[0] != b[0] {
        (a[0] as int) < (b[0] as int)
    } else {
        lex_lt(a.drop_first(), b.drop_first())
    }
}

/// The code point of a character.
pub fn code(c: char) -> (n: u32)
    ensures
        n as int == c as int,
{
    c as u32
}

/// Whether `a` stands before `b` in the order of strings.
pub fn chars_lt(a: &[char], b: &[char]) -> (r: bool)
    ensures
        r == lex_lt(a@, b@),
{
    let mut i: usize = 0;
    proof {
        assert(a@.skip(0) =~= a@);
        assert(b@.skip(0) =~= b@);
    }
    while i < a.len() && i < b.len() && a[i] == b[i]
        invariant
            i <= a.len(),
            i <= b.len(),
            lex_lt(a@, b@) == lex_lt(a@.skip(i as int), b@.skip(i as int)),
        decreases a.len() - i,
    {
        proof {
            assert(a@.skip(i as int).drop_first() =~= a@.skip(i + 1));
            assert(b@.skip(i as int).drop_first() =~= b@.skip(i + 1));
        }
        i = i + 1;
    }
    proof {
        let x = a@.skip(i as int);
        let y = b@.skip(i as int);
        assert(i < a.len() ==> x[0] == a@[i as int]);
        assert(i < b.len() ==> y[0] == b@[i as int]);
        assert(lex_lt(a@, b@) == lex_lt(x, y));
    }
    if i >= b.len() {
        false
    } else if i >= a.len() {
        true
    } else {
        code(a[i]) < code(b[i])
    }
}

/// No string is before itself, nor two before each other.
pub proof fn lemma_lex_asym(a: Seq<char>, b: Seq<char>)
    ensures
        lex_lt(a, b) ==> !lex_lt(b, a),
        !lex_lt(a, a),
    decreases a.len(),
{
    if a.len() > 0 {
        lemma_lex_asym(a.drop_first(), a.drop_first());
        if b.len() > 0 {
            lemma_lex_asym(a.drop_first(), b.drop_first());
        }
    }
}

/// Of two different strings one is before the other.
pub proof fn lemma_lex_total(a: Seq<char>, b: Seq<char>)
    ensures
        a == b || lex_lt(a, b) || lex_lt(b, a),
    decreases a.len(),
{
    if a.len() == 0 || b.len() == 0 {
        if a.len() == 0 && b.len() == 0 {
            assert(a =~= b);
        }
    } else if a[0] == b[0] {
        lemma_lex_total(a.drop_first(), b.drop_first());
        if a.drop_first() == b.drop_first() {
            assert(a =~= seq![a[0]] + a.drop_first());
            assert(b =~= seq![b[0]] + b.drop_first());
        }
    }
}

/// What is before a third is before every other or has it before the third.
pub proof fn lemma_lex_split(a: Seq<char>, b: Seq<char>, c: Seq<char>)
    requires
        lex_lt(a, c),
    ensures
        lex_lt(a, b) || lex_lt(b, c),
    decreases a.len(),
{
    if a.len() > 0 && b.len() > 0 && a[0] == b[0] && b[0] == c[0] {
        lemma_lex_split(a.drop_first(), b.drop_first(), c.drop_first());
    }
}

// ---------------------------------------------------------------------------
// Words
// ---------------------------------------------------------------------------

/// The length of the word that `s` begins with.
pub open spec fn word_len(s: Seq<char>) -> nat
    decreases s.len(),
{
    if s.len() == 0 || is_space_char(s[0]) {
        0
    } else {
        1 + word_len(s.drop_first())
    }
}

pub proof fn lemma_word_len(s: Seq<char>)
    ensures
        word_len(s) <= s.len(),
        s.len() > 0 && !is_space_char(s[0]) ==> word_len(s) >= 1,
        forall|i: int| 0 <= i < word_len(s) ==> !is_space_char(#[trigger] s[i]),
        word_len(s) < s.len() ==> is_space_char(s[word_len(s) as int]),
    decreases s.len(),
{
    if s.len() > 0 && !is_space_char(s[0]) {
        let t = s.drop_first();
        lemma_word_len(t);
        assert forall|i: int| 0 <= i < word_len(s) implies !is_space_char(#[trigger] s[i]) by {
            if i > 0 {
                assert(s[i] == t[i - 1]);
            }
        }
    }
}

pub proof fn lemma_trim_start(s: Seq<char>)
    ensures
        trim_start(s).len() <= s.len(),
        trim_start(s).len() > 0 ==> !is_space_char(trim_start(s)[0]),
    decreases s.len(),
{
    if s.len() > 0 && is_space_char(s[0]) {
        lemma_trim_start(s.drop_first());
    }
}

/// What ends without white space ends so, and begins as it did.
pub proof fn lemma_trim_end(s: Seq<char>)
    ensures
        trim_end(s).len() <= s.len(),
        trim_end(s) == s.take(trim_end(s).len() as int),
        trim_end(s).len() > 0 ==> !is_space_char(trim_end(s).last()),
    decreases s.len(),
{
    if s.len() > 0 && is_space_char(s.last()) {
        lemma_trim_end(s.drop_last());
        let n = trim_end(s).len() as int;
        assert(s.drop_last().take(n) =~= s.take(n));
    } else {
        assert(s.take(s.len() as int) =~= s);
    }
}

/// Trimming twice is trimming once.
pub proof fn lemma_trim_idempotent(s: Seq<char>)
    ensures
        trim(trim(s)) == trim(s),
{
    lemma_trim_start(s);
    lemma_trim_end(trim_start(s));
    let t = trim(s);
    if t.len() > 0 {
        assert(t[0] == trim_start(s)[0]);
    }
}

/// The words of a text: what stands between white space.
pub open spec fn words(s: Seq<char>) -> Seq<Seq<char>>
    decreases s.len(),
{
    let t = trim_start(s);
    let n = word_len(t) as int;
    if t.len() == 0 || t.len() > s.len() || n == 0 || n > t.len() {
        Seq::empty()
    } else {
        seq![t.take(n)] + words(t.skip(n))
    }
}

/// The words of a text.
pub fn word_list(s: &[char]) -> (r: Vec<Vec<char>>)
    ensures
        rows(r@) == words(s@),
{
    let mut r: Vec<Vec<char>> = Vec::new();
    let mut pos: usize = 0;
    proof {
        assert(s@.skip(0) =~= s@);
        assert(rows(r@) + words(s@) =~= words(s@));
    }
    loop
        invariant_except_break
            pos <= s.len(),
            rows(r@) + words(s@.skip(pos as int)) == words(s@),
        ensures
            rows(r@) == words(s@),
        decreases s.len() - pos,
    {
        let ghost rest = s@.skip(pos as int);
        let start: usize = pos;
        let mut i: usize = pos;
        while i < s.len() && is_space(s[i])
            invariant
                start <= i <= s.len(),
                rest == s@.skip(start as int),
                trim_start(rest) == trim_start(s@.skip(i as int)),
            decreases s.len() - i,
        {
            proof {
                assert(s@.skip(i as int)[0] == s@[i as int]);
                assert(s@.skip(i as int).drop_first() =~= s@.skip(i + 1));
            }
            i = i + 1;
        }
        let ghost t = s@.skip(i as int);
        proof {
            assert(trim_start(t) == t) by {
                if i < s.len() {
                    assert(t[0] == s@[i as int]);
                }
            }
            lemma_word_len(t);
        }
        if i >= s.len() {
            proof {
                assert(words(rest) =~= Seq::<Seq<char>>::empty());
                assert(rows(r@) + Seq::<Seq<char>>::empty() =~= rows(r@));
            }
            break;
        }
        let mut j: usize = i;
        while j < s.len() && !is_space(s[j])
            invariant
                i <= j <= s.len(),
                t == s@.skip(i as int),
                word_len(t) == (j - i) + word_len(s@.skip(j as int)),
            decreases s.len() - j,
        {
            proof {
                assert(s@.skip(j as int)[0] == s@[j as int]);
                assert(s@.skip(j as int).drop_first() =~= s@.skip(j + 1));
            }
            j = j + 1;
        }
        proof {
            if j < s.len() {
                assert(s@.skip(j as int)[0] == s@[j as int]);
            }
            assert(word_len(t) == j - i);
            assert(t[0] == s@[i as int]);
        }
        let piece = slice_to_vec(slice_subrange(s, i, j));
        let ghost before = rows(r@);
        r.push(piece);
        proof {
            assert(piece@ =~= t.take(j - i));
            assert(rows(r@) =~= before.push(piece@));
            assert(t.skip(j - i) =~= s@.skip(j as int));
            assert(before + (seq![piece@] + words(s@.skip(j as int))) =~= rows(r@) + words(
                s@.skip(j as int),
            ));
        }
        pos = j;
    }
    r
}

/// Whether `s` is one of the strings.
pub fn has_string(v: &Vec<String>, s: &str) -> (r: bool)
    ensures
        r == strs(v@).contains(s@),
{
    let mut i: usize = 0;
    while i < v.len()
        invariant
            i <= v@.len(),
            forall|k: int| 0 <= k < i ==> (#[trigger] v@[k])@ != s@,
        decreases v@.len() - i,
    {
        if str_eq(v[i].as_str(), s) {
            proof {
                assert(strs(v@)[i as int] == s@);
            }
            return true;
        }
        i = i + 1;
    }
    proof {
        if strs(v@).contains(s@) {
            let k = choose|k: int| 0 <= k < strs(v@).len() && strs(v@)[k] == s@;
            assert(v@[k]@ == s@);
        }
    }
    false
}

/// The place of the first string equal to `s`, or the length where none is.
pub open spec fn place(v: Seq<Seq<char>>, s: Seq<char>) -> int
    decreases v.len(),
{
    if v.len() == 0 || v[0] == s {
        0
    } else {
        1 + place(v.drop_first(), s)
    }
}

pub proof fn lemma_place(v: Seq<Seq<char>>, s: Seq<char>)
    ensures
        0 <= place(v, s) <= v.len(),
        place(v, s) < v.len() ==> v[place(v, s)] == s,
        forall|k: int| 0 <= k < place(v, s) ==> #[trigger] v[k] != s,
        v.contains(s) <==> place(v, s) < v.len(),
    decreases v.len(),
{
    if v.len() > 0 && v[0] != s {
        lemma_place(v.drop_first(), s);
        let rest = v.drop_first();
        assert forall|k: int| 0 <= k < place(v, s) implies #[trigger] v[k] != s by {
            if k > 0 {
                assert(rest[k - 1] == v[k]);
            }
        }
        if v.contains(s) {
            let k = choose|k: int| 0 <= k < v.len() && v[k] == s;
            assert(rest[k - 1] == s);
        }
    }
}

pub proof fn lemma_place_unique(v: Seq<Seq<char>>, s: Seq<char>, i: int)
    requires
        0 <= i <= v.len(),
        forall|k: int| 0 <= k < i ==> #[trigger] v[k] != s,
        i < v.len() ==> v[i] == s,
    ensures
        place(v, s) == i,
    decreases v.len(),
{
    if v.len() > 0 && i > 0 {
        let rest = v.drop_first();
        assert forall|k: int| 0 <= k < i - 1 implies #[trigger] rest[k] != s by {
            assert(v[k + 1] != s);
        }
        assert(v[0] != s);
        lemma_place_unique(rest, s, i - 1);
    }
}

/// Two texts in a row.
pub fn cat2(a: &str, b: &str) -> (r: String)
    ensures
        r@ == a@ + b@,
{
    let mut v = to_chars(a);
    let w = to_chars(b);
    append_chars(&mut v, &w);
    from_chars(&v)
}

/// Three texts in a row.
pub fn cat3(a: &str, b: &str, c: &str) -> (r: String)
    ensures
        r@ == a@ + b@ + c@,
{
    let mut v = to_chars(a);
    let w = to_chars(b);
    append_chars(&mut v, &w);
    let w = to_chars(c);
    append_chars(&mut v, &w);
    from_chars(&v)
}

/// Four texts in a row.
pub fn cat4(a: &str, b: &str, c: &str, d: &str) -> (r: String)
    ensures
        r@ == a@ + b@ + c@ + d@,
{
    let s = cat3(a, b, c);
    let mut v = to_chars(s.as_str());
    let w = to_chars(d);
    append_chars(&mut v, &w);
    from_chars(&v)
}

/// Five texts in a row.
pub fn cat5(a: &str, b: &str, c: &str, d: &str, e: &str) -> (r: String)
    ensures
        r@ == a@ + b@ + c@ + d@ + e@,
{
    let s = cat3(a, b, c);
    cat3(s.as_str(), d, e)
}

/// The text of an optional string.
pub open spec fn opt(s: Option<String>) -> Option<Seq<char>> {
    match s {
        Some(t) => Some(t@),
        None => None,
    }
}

/// A copy of an optional string.
pub fn copy_opt(s: &Option<String>) -> (r: Option<String>)
    ensures
        opt(r) == opt(*s),
{
    match s {
        Some(t) => Some(t.clone()),
        None => None,
    }
}

/// A copy of a list of strings.
pub fn copy_strings(v: &Vec<String>) -> (r: Vec<String>)
    ensures
        strs(r@) == strs(v@),
{
    let mut out: Vec<String> = Vec::new();
    let mut i: usize = 0;
    while i < v.len()
        invariant
            i <= v.len(),
            out@.len() == i,
            forall|k: int| 0 <= k < i ==> (#[trigger] out@[k])@ == v@[k]@,
        decreases v.len() - i,
    {
        out.push(v[i].clone());
        i = i + 1;
    }
    assert(strs(out@) =~= strs(v@));
    out
}

/// `s` filled up on the right with blanks to `w` characters.
pub open spec fn pad_right(s: Seq<char>, w: nat) -> Seq<char> {
    if s.len() >= w {
        s
    } else {
        s + Seq::new((w - s.len()) as nat, |i: int| ' ')
    }
}

/// `s` filled up on the right with blanks to `w` characters.
pub fn pad_right_chars(s: &[char], w: usize) -> (r: Vec<char>)
    ensures
        r@ == pad_right(s@, w as nat),
{
    let mut r = slice_to_vec(s);
    let n: usize = s.len();
    while r.len() < w
        invariant
            n == s.len(),
            n <= r.len(),
            r.len() <= w || r.len() == n,
            r@ == s@ + Seq::new((r.len() - n) as nat, |i: int| ' '),
        decreases w - r.len(),
    {
        let ghost before = r@;
        r.push(' ');
        assert(r@ =~= s@ + Seq::new((r.len() - n) as nat, |i: int| ' '));
    }
    assert(r@ =~= pad_right(s@, w as nat));
    r
}

/// Adds `s` unless it is there.
pub fn push_new(v: &mut Vec<String>, s: &str)
    ensures
        strs(final(v)@) == (if strs(old(v)@).contains(s@) {
            strs(old(v)@)
        } else {
            strs(old(v)@).push(s@)
        }),
{
    if !has_string(v, s) {
        v.push(s.to_string());
        assert(strs(v@) =~= strs(old(v)@).push(s@));
    }
}

/// Adds the copies of the strings of a list.
pub fn append_strings(v: &mut Vec<String>, w: &Vec<String>)
    ensures
        strs(final(v)@) == strs(old(v)@) + strs(w@),
{
    let mut i: usize = 0;
    let ghost start = strs(v@);
    assert(start + strs(w@).take(0) =~= start);
    while i < w.len()
        invariant
            i <= w.len(),
            strs(v@) == start + strs(w@).take(i as int),
        decreases w.len() - i,
    {
        let ghost before = strs(v@);
        v.push(w[i].clone());
        proof {
            assert(strs(v@) =~= before.push(w@[i as int]@));
            assert(strs(w@).take(i + 1) =~= strs(w@).take(i as int).push(w@[i as int]@));
            assert(strs(v@) =~= start + strs(w@).take(i + 1));
        }
        i = i + 1;
    }
    assert(strs(w@).take(i as int) =~= strs(w@));
}

/// Adds the copy of a string.
pub fn push_text(v: &mut Vec<String>, s: &str)
    ensures
        strs(final(v)@) == strs(old(v)@).push(s@),
{
    v.push(s.to_string());
    assert(strs(v@) =~= strs(old(v)@).push(s@));
}

// ---------------------------------------------------------------------------
// Maps from text
// ---------------------------------------------------------------------------

/// What each text leads to; the first pair of a text counts.
pub open spec fn pairs_map<V>(pairs: Seq<(String, V)>) -> Map<Seq<char>, V>
    decreases pairs.len(),
{
    if pairs.len() == 0 {
        Map::empty()
    } else {
        pairs_map(pairs.drop_first()).insert(pairs[0].0@, pairs[0].1)
    }
}

/// What each text leads to.
pub fn map_of<V>(pairs: Vec<(String, V)>) -> (r: StringHashMap<V>)
    ensures
        r@ == pairs_map(pairs@),
{
    let ghost all = pairs@;
    let mut left = pairs;
    let mut out: StringHashMap<V> = StringHashMap::new();
    assert(all.skip(all.len() as int) =~= Seq::empty());
    while left.len() > 0
        invariant
            left@.len() <= all.len(),
            left@ == all.take(left@.len() as int),
            out@ == pairs_map(all.skip(left@.len() as int)),
        decreases left@.len(),
    {
        let ghost n = left@.len() as int;
        if let Some((k, v)) = left.pop() {
            proof {
                assert(all.skip(n - 1).drop_first() =~= all.skip(n));
                assert(left@ =~= all.take(n - 1));
            }
            out.insert(k, v);
        }
    }
    assert(all.skip(0) =~= all);
    out
}

/// Grouping puts a comma before the last three characters of what is longer, and groups
/// what stands before them; what is not longer stays.
pub proof fn law_grouped_by_three(a: Seq<char>, x: char, y: char, z: char)
    ensures
        a.len() > 0 ==> group3(a + seq![x, y, z]) == group3(a) + seq![',', x, y, z],
        a.len() <= 3 ==> group3(a) == a,
{
    let s = a + seq![x, y, z];
    assert(s.take(s.len() - 3) =~= a);
    assert(s.skip(s.len() - 3) =~= seq![x, y, z]);
    if a.len() > 0 {
        assert(group3(s) =~= group3(a) + seq![',', x, y, z]);
    }
}

} // verus!
