//! Rows that wait on disk: the files of a user with their paths, and the same
//! rows with numbers in the place of the strings.

use crate::events::FILE_PART_RECORDS;
use crate::events;
use crate::paths;
use crate::text;
use dashmap::DashMap;
use lz4_flex::frame::FrameDecoder;
use lz4_flex::frame::FrameEncoder;
use std::io::Read;
use std::io::Write;
use vstd::bytes::u16_from_le_bytes;
use vstd::bytes::u16_to_le_bytes;
use vstd::bytes::u32_from_le_bytes;
use vstd::bytes::u32_to_le_bytes;
use vstd::bytes::u64_from_le_bytes;
use vstd::bytes::u64_to_le_bytes;
use vstd::hash_map::StringHashMap;
use vstd::prelude::*;
use vstd::slice::slice_subrange;
use vstd::string::*;

verus! {

// ---------------------------------------------------------------------------
// Compression
// ---------------------------------------------------------------------------

/// What `lz4_flex` makes of bytes that are written to a frame and flushed.
pub uninterp spec fn lz4_frame(bytes: Seq<u8>) -> Option<Seq<u8>>;

/// What `lz4_flex` reads from the bytes of a frame, up to their end or to where
/// they are cut off.
pub uninterp spec fn lz4_content(bytes: Seq<u8>) -> Option<Seq<u8>>;

/// `lz4_flex::frame::FrameEncoder`: the bytes of a frame with the given
/// content. The decoder reads the content back from them.
#[verifier::external_body]
pub(crate) fn compress(bytes: &[u8]) -> (r: Option<Vec<u8>>)
    ensures
        r is Some <==> lz4_frame(bytes@) is Some,
        r matches Some(v) ==> lz4_frame(bytes@) == Some(v@) && lz4_content(v@) == Some(bytes@),
{
    let mut encoder = FrameEncoder::new(Vec::new());
    encoder.write_all(bytes).ok()?;
    encoder.flush().ok()?;
    Some(encoder.into_inner())
}

/// `lz4_flex::frame::FrameDecoder`: the content of a frame, if the bytes are one.
/// Where they end early, what stands before that is the content.
#[verifier::external_body]
pub(crate) fn decompress(bytes: &[u8]) -> (r: Option<Vec<u8>>)
    ensures
        r is Some <==> lz4_content(bytes@) is Some,
        r matches Some(v) ==> lz4_content(bytes@) == Some(v@),
{
    let mut content: Vec<u8> = Vec::new();
    match FrameDecoder::new(bytes).read_to_end(&mut content) {
        Ok(_) => Some(content),
        Err(e) if e.kind() == std::io::ErrorKind::UnexpectedEof => Some(content),
        Err(_) => None,
    }
}

// ---------------------------------------------------------------------------
// Rows with paths
// ---------------------------------------------------------------------------

/// A file of a user.
pub struct SpillRow {
    pub size: u64,
    pub path: String,
    pub ext: String,
}

#[verifier::ext_equal]
pub struct RowModel {
    pub size: u64,
    pub path: Seq<char>,
    pub ext: Seq<char>,
}

impl View for SpillRow {
    type V = RowModel;

    open spec fn view(&self) -> RowModel {
        RowModel { size: self.size, path: self.path@, ext: self.ext@ }
    }
}

pub open spec fn row_views(v: Seq<SpillRow>) -> Seq<RowModel> {
    v.map_values(|r: SpillRow| r@)
}

/// The first `n` bytes, or all where there are fewer.
pub open spec fn at_most(bytes: Seq<u8>, n: int) -> Seq<u8> {
    if bytes.len() <= n {
        bytes
    } else {
        bytes.take(n)
    }
}

/// A row as it is written: the size, the path with its length before it and
/// the extension with its length before it. What is too long for its length
/// field is cut.
pub open spec fn row_bytes(r: RowModel) -> Seq<u8> {
    let path = at_most(vstd::utf8::encode_utf8(r.path), u32::MAX as int);
    let ext = at_most(vstd::utf8::encode_utf8(r.ext), u16::MAX as int);
    vstd::bytes::spec_u64_to_le_bytes(r.size) + vstd::bytes::spec_u32_to_le_bytes(path.len() as u32)
        + path + vstd::bytes::spec_u16_to_le_bytes(ext.len() as u16) + ext
}

/// Rows, one after the other.
pub open spec fn rows_bytes(rows: Seq<RowModel>) -> Seq<u8>
    decreases rows.len(),
{
    if rows.len() == 0 {
        Seq::empty()
    } else {
        rows_bytes(rows.drop_last()) + row_bytes(rows.last())
    }
}

/// The rows that bytes hold; none where a row is cut off after its size.
pub open spec fn rows_of_bytes(b: Seq<u8>) -> Option<Seq<RowModel>>
    decreases b.len(),
{
    if b.len() < 8 {
        Some(Seq::empty())
    } else if b.len() < 12 {
        None
    } else {
        let plen = vstd::bytes::spec_u32_from_le_bytes(b.subrange(8, 12)) as int;
        if b.len() < 12 + plen + 2 {
            None
        } else {
            let elen = vstd::bytes::spec_u16_from_le_bytes(
                b.subrange(12 + plen, 12 + plen + 2),
            ) as int;
            let end = 12 + plen + 2 + elen;
            if b.len() < end {
                None
            } else {
                match rows_of_bytes(b.skip(end)) {
                    Some(rest) => Some(
                        seq![
                            RowModel {
                                size: vstd::bytes::spec_u64_from_le_bytes(b.subrange(0, 8)),
                                path: events::text_of(b.subrange(12, 12 + plen)),
                                ext: events::text_of(b.subrange(12 + plen + 2, end)),
                            },
                        ] + rest,
                    ),
                    None => None,
                }
            }
        }
    }
}

fn push_row(out: &mut Vec<u8>, r: &SpillRow)
    ensures
        final(out)@ == old(out)@ + row_bytes(r@),
{
    let path = r.path.as_str().as_bytes();
    let plen: usize = if path.len() > u32::MAX as usize {
        u32::MAX as usize
    } else {
        path.len()
    };
    let ext = r.ext.as_str().as_bytes();
    let elen: usize = if ext.len() > 65535 {
        65535
    } else {
        ext.len()
    };
    let size_field = u64_to_le_bytes(r.size);
    let path_field = u32_to_le_bytes(plen as u32);
    let ext_field = u16_to_le_bytes(elen as u16);
    events::push_bytes(out, &size_field);
    events::push_bytes(out, &path_field);
    events::push_bytes(out, slice_subrange(path, 0, plen));
    events::push_bytes(out, &ext_field);
    events::push_bytes(out, slice_subrange(ext, 0, elen));
    proof {
        assert(path@.subrange(0, plen as int) =~= at_most(path@, u32::MAX as int));
        assert(ext@.subrange(0, elen as int) =~= at_most(ext@, u16::MAX as int));
        assert(out@ =~= old(out)@ + row_bytes(r@));
    }
}

/// The bytes of the rows from `from` up to `to`.
pub fn encode_rows(rows: &Vec<SpillRow>, from: usize, to: usize) -> (out: Vec<u8>)
    requires
        from <= to <= rows@.len(),
    ensures
        out@ == rows_bytes(row_views(rows@).subrange(from as int, to as int)),
{
    let mut out: Vec<u8> = Vec::new();
    let mut i: usize = from;
    let ghost all = row_views(rows@);
    while i < to
        invariant
            from <= i <= to,
            to <= rows@.len(),
            all == row_views(rows@),
            out@ == rows_bytes(all.subrange(from as int, i as int)),
        decreases to - i,
    {
        push_row(&mut out, &rows[i]);
        proof {
            let s = all.subrange(from as int, i + 1);
            assert(s.drop_last() =~= all.subrange(from as int, i as int));
            assert(s.last() == rows@[i as int]@);
        }
        i = i + 1;
    }
    out
}

/// Reads rows back.
pub fn decode_rows(b: &[u8]) -> (r: Option<Vec<SpillRow>>)
    ensures
        r is Some <==> rows_of_bytes(b@) is Some,
        r matches Some(v) ==> rows_of_bytes(b@) == Some(row_views(v@)),
{
    let mut out: Vec<SpillRow> = Vec::new();
    let mut pos: usize = 0;
    proof {
        assert(b@.skip(0) =~= b@);
        assert(rows_of_bytes(b@) matches Some(all) ==> row_views(out@) + all =~= all);
    }
    while b.len() - pos >= 8
        invariant
            pos <= b.len(),
            rows_of_bytes(b@) is Some <==> rows_of_bytes(b@.skip(pos as int)) is Some,
            rows_of_bytes(b@) matches Some(all) ==> all == row_views(out@) + rows_of_bytes(
                b@.skip(pos as int),
            )->0,
        decreases b.len() - pos,
    {
        let rest = slice_subrange(b, pos, b.len());
        proof {
            assert(rest@ =~= b@.skip(pos as int));
        }
        if rest.len() < 12 {
            return None;
        }
        let plen: usize = u32_from_le_bytes(slice_subrange(rest, 8, 12)) as usize;
        if rest.len() - 12 < plen || rest.len() - 12 - plen < 2 {
            return None;
        }
        let elen: usize = u16_from_le_bytes(slice_subrange(rest, 12 + plen, 12 + plen + 2)) as usize;
        if rest.len() - 12 - plen - 2 < elen {
            return None;
        }
        let end: usize = 12 + plen + 2 + elen;
        let row = SpillRow {
            size: u64_from_le_bytes(slice_subrange(rest, 0, 8)),
            path: events::text_from_bytes(slice_subrange(rest, 12, 12 + plen)),
            ext: events::text_from_bytes(slice_subrange(rest, 12 + plen + 2, end)),
        };
        let ghost before = row_views(out@);
        out.push(row);
        proof {
            assert(row_views(out@) =~= before.push(row@));
            assert(rest@.skip(end as int) =~= b@.skip(pos + end));
            match rows_of_bytes(rest@.skip(end as int)) {
                Some(tail) => {
                    assert(rows_of_bytes(rest@) matches Some(x) && x == seq![row@] + tail);
                    assert(before + (seq![row@] + tail) =~= row_views(out@) + tail);
                },
                None => {},
            }
        }
        pos = pos + end;
    }
    proof {
        assert(row_views(out@) + Seq::<RowModel>::empty() =~= row_views(out@));
    }
    Some(out)
}

/// Whether nothing of a row is cut when it is written.
pub open spec fn row_fits(r: RowModel) -> bool {
    &&& vstd::utf8::encode_utf8(r.path).len() <= u32::MAX
    &&& vstd::utf8::encode_utf8(r.ext).len() <= u16::MAX
}

proof fn lemma_read_row(r: RowModel, tail: Seq<u8>)
    requires
        row_fits(r),
        rows_of_bytes(tail) is Some,
    ensures
        rows_of_bytes(row_bytes(r) + tail) == Some(seq![r] + rows_of_bytes(tail)->0),
{
    vstd::bytes::lemma_auto_spec_u16_to_from_le_bytes();
    vstd::bytes::lemma_auto_spec_u32_to_from_le_bytes();
    vstd::bytes::lemma_auto_spec_u64_to_from_le_bytes();
    let path = vstd::utf8::encode_utf8(r.path);
    let ext = vstd::utf8::encode_utf8(r.ext);
    events::lemma_text_of_encoded(r.path);
    events::lemma_text_of_encoded(r.ext);
    let b = row_bytes(r) + tail;
    let n = path.len() as int;
    let m = ext.len() as int;
    assert(b.subrange(0, 8) =~= vstd::bytes::spec_u64_to_le_bytes(r.size));
    assert(b.subrange(8, 12) =~= vstd::bytes::spec_u32_to_le_bytes(path.len() as u32));
    assert(b.subrange(12, 12 + n) =~= path);
    assert(b.subrange(12 + n, 12 + n + 2) =~= vstd::bytes::spec_u16_to_le_bytes(ext.len() as u16));
    assert(b.subrange(12 + n + 2, 12 + n + 2 + m) =~= ext);
    assert(b.skip(12 + n + 2 + m) =~= tail);
}

proof fn lemma_read_rows(rows: Seq<RowModel>, tail: Seq<u8>)
    requires
        forall|i: int| 0 <= i < rows.len() ==> row_fits(#[trigger] rows[i]),
        rows_of_bytes(tail) is Some,
    ensures
        rows_of_bytes(rows_bytes(rows) + tail) == Some(rows + rows_of_bytes(tail)->0),
    decreases rows.len(),
{
    if rows.len() == 0 {
        assert(rows_bytes(rows) + tail =~= tail);
        assert(rows + rows_of_bytes(tail)->0 =~= rows_of_bytes(tail)->0);
    } else {
        let r = rows.last();
        let head = rows.drop_last();
        lemma_read_row(r, tail);
        lemma_read_rows(head, row_bytes(r) + tail);
        assert(rows_bytes(rows) + tail =~= rows_bytes(head) + (row_bytes(r) + tail));
        assert(head + (seq![r] + rows_of_bytes(tail)->0) =~= rows + rows_of_bytes(tail)->0);
    }
}

/// Reading rows gives back the rows that were written.
pub proof fn law_read_of_written_rows(rows: Seq<RowModel>)
    requires
        forall|i: int| 0 <= i < rows.len() ==> row_fits(#[trigger] rows[i]),
    ensures
        rows_of_bytes(rows_bytes(rows)) == Some(rows),
{
    let none = Seq::<u8>::empty();
    lemma_read_rows(rows, none);
    assert(rows_bytes(rows) + none =~= rows_bytes(rows));
    assert(rows + Seq::<RowModel>::empty() =~= rows);
}

// ---------------------------------------------------------------------------
// Spill files
// ---------------------------------------------------------------------------

/// A file to be written.
pub struct SpillFile {
    pub name: String,
    pub bytes: Vec<u8>,
}

#[verifier::ext_equal]
pub struct SpillFileModel {
    pub name: Seq<char>,
    pub bytes: Seq<u8>,
}

impl View for SpillFile {
    type V = SpillFileModel;

    open spec fn view(&self) -> SpillFileModel {
        SpillFileModel { name: self.name@, bytes: self.bytes@ }
    }
}

pub open spec fn spill_file_views(v: Seq<SpillFile>) -> Seq<SpillFileModel> {
    v.map_values(|f: SpillFile| f@)
}

/// The name of a user's spill file.
pub open spec fn spill_name(username: Seq<char>, id: int) -> Seq<char> {
    username.map_values(|c: char| paths::file_char(c)) + seq!['_'] + text::dec(id as nat) + ".rows"@
}

/// The name of a user's spill file.
pub fn spill_file_name(username: &str, id: u64) -> (r: String)
    ensures
        r@ == spill_name(username@, id as int),
{
    let mut r = paths::sanitize_filename(username);
    r.push('_');
    r.append(text::dec_string(id).as_str());
    r.append(".rows");
    proof {
        assert(r@ =~= spill_name(username@, id as int));
    }
    r
}

/// The name of the file that takes the place of a spill file once its strings
/// are numbered.
pub fn compact_file_name(username: &str, id: u64) -> (r: String)
    ensures
        r@ == spill_name(username@, id as int) + ".compact"@,
{
    let mut r = spill_file_name(username, id);
    r.append(".compact");
    r
}

/// The number of spill files that `n` rows take.
pub open spec fn part_count(n: int) -> int {
    (n + FILE_PART_RECORDS - 1) / (FILE_PART_RECORDS as int)
}

/// The rows of the `k`-th spill file.
pub open spec fn part_rows(rows: Seq<RowModel>, k: int) -> Seq<RowModel> {
    let from = k * FILE_PART_RECORDS;
    let to = if from + FILE_PART_RECORDS < rows.len() {
        from + FILE_PART_RECORDS
    } else {
        rows.len() as int
    };
    rows.subrange(from, to)
}

/// The spill files of a user's rows, numbered from `first`: each holds the next
/// `FILE_PART_RECORDS` rows, compressed. One that cannot be compressed is left out,
/// and its number with it.
pub open spec fn spilled(
    username: Seq<char>,
    rows: Seq<RowModel>,
    first: int,
    parts: int,
) -> Seq<SpillFileModel>
    decreases parts,
{
    if parts <= 0 {
        Seq::empty()
    } else {
        let before = spilled(username, rows, first, parts - 1);
        match lz4_frame(rows_bytes(part_rows(rows, parts - 1))) {
            Some(bytes) => before.push(
                SpillFileModel { name: spill_name(username, first + parts - 1), bytes },
            ),
            None => before,
        }
    }
}

/// The spill files of a user's rows, numbered from `first`, and the number that
/// follows the last one.
pub fn spill_rows_to_disk(username: &str, rows: &Vec<SpillRow>, first: u64) -> (r: (
    Vec<SpillFile>,
    u64,
))
    requires
        first + rows@.len() <= u64::MAX,
    ensures
        spill_file_views(r.0@) == spilled(
            username@,
            row_views(rows@),
            first as int,
            part_count(rows@.len() as int),
        ),
        r.1 == first + part_count(rows@.len() as int),
{
    let mut out: Vec<SpillFile> = Vec::new();
    let mut from: usize = 0;
    let mut k: u64 = 0;
    let ghost all = row_views(rows@);
    while from < rows.len()
        invariant
            from <= rows@.len(),
            all == row_views(rows@),
            all.len() == rows@.len(),
            first + rows@.len() <= u64::MAX,
            k * FILE_PART_RECORDS >= from,
            from < rows@.len() ==> k * FILE_PART_RECORDS == from,
            from == rows@.len() ==> k == part_count(rows@.len() as int),
            k <= from,
            spill_file_views(out@) == spilled(username@, all, first as int, k as int),
        decreases rows@.len() - from,
    {
        let to: usize = if rows.len() - from <= FILE_PART_RECORDS {
            rows.len()
        } else {
            from + FILE_PART_RECORDS
        };
        let plain = encode_rows(rows, from, to);
        let name = spill_file_name(username, first + k);
        proof {
            assert(all.subrange(from as int, to as int) =~= part_rows(all, k as int));
        }
        match compress(&plain) {
            Some(bytes) => {
                let ghost before = spill_file_views(out@);
                let f = SpillFile { name, bytes };
                out.push(f);
                proof {
                    assert(spill_file_views(out@) =~= before.push(f@));
                }
            },
            None => {},
        }
        k = k + 1;
        from = to;
    }
    (out, first + k)
}

// ---------------------------------------------------------------------------
// Numbers for strings
// ---------------------------------------------------------------------------

/// The concurrent map of `dashmap`.
#[verifier::external_type_specification]
#[verifier::external_body]
#[verifier::reject_recursive_types(K)]
#[verifier::reject_recursive_types(V)]
#[verifier::reject_recursive_types(S)]
pub struct ExDashMap<K, V, S>(DashMap<K, V, S>);

/// What a `DashMap` from strings to numbers holds.
pub uninterp spec fn id_map(m: DashMap<String, u32>) -> Map<Seq<char>, u32>;

/// `DashMap::new`: a map that holds nothing.
#[verifier::external_body]
fn ids_new() -> (r: DashMap<String, u32>)
    ensures
        id_map(r).is_empty(),
{
    DashMap::new()
}

/// `DashMap::get`: the value of a key, if the map holds it.
#[verifier::external_body]
fn ids_get(m: &DashMap<String, u32>, key: &str) -> (r: Option<u32>)
    ensures
        r is Some <==> id_map(*m).contains_key(key@),
        r matches Some(v) ==> id_map(*m)[key@] == v,
{
    m.get(key).map(|e| *e)
}

/// `DashMap::insert`: the key has the value from now on.
#[verifier::external_body]
fn ids_insert(m: &mut DashMap<String, u32>, key: String, value: u32)
    ensures
        id_map(*final(m)) == id_map(*old(m)).insert(key@, value),
{
    m.insert(key, value);
}

/// `DashMap::iter`: each key with its value, once, in no order that could be
/// relied on.
#[verifier::external_body]
fn ids_entries(m: &DashMap<String, u32>) -> (r: Vec<(String, u32)>)
    ensures
        forall|i: int|
            0 <= i < r@.len() ==> id_map(*m).contains_key((#[trigger] r@[i]).0@) && id_map(
                *m,
            )[r@[i].0@] == r@[i].1,
        forall|k: Seq<char>| #[trigger]
            id_map(*m).contains_key(k) ==> exists|i: int|
                0 <= i < r@.len() && (#[trigger] r@[i]).0@ == k,
        forall|i: int, j: int|
            0 <= i < j < r@.len() ==> (#[trigger] r@[i]).0@ != (#[trigger] r@[j]).0@,
{
    m.iter().map(|e| (e.key().clone(), *e.value())).collect()
}

/// Strings numbered from zero in the order in which they first appear.
pub struct NameIds {
    map: DashMap<String, u32>,
    next: u32,
    names: Ghost<Seq<Seq<char>>>,
}

impl View for NameIds {
    type V = Seq<Seq<char>>;

    closed spec fn view(&self) -> Seq<Seq<char>> {
        self.names@
    }
}

impl NameIds {
    /// No string has two numbers, and the map knows the number of each.
    pub closed spec fn wf(&self) -> bool {
        &&& self.next == self@.len()
        &&& self@.no_duplicates()
        &&& forall|s: Seq<char>| #[trigger] id_map(self.map).contains_key(s) <==> self@.contains(s)
        &&& forall|s: Seq<char>| #[trigger]
            id_map(self.map).contains_key(s) ==> id_map(self.map)[s] < self@.len()
                && self@[id_map(self.map)[s] as int] == s
    }

    pub fn new() -> (r: Self)
        ensures
            r.wf(),
            r@ == Seq::<Seq<char>>::empty(),
    {
        NameIds { map: ids_new(), next: 0, names: Ghost(Seq::empty()) }
    }

    /// Whether `s` can be numbered: it has a number, or there is one left.
    pub fn has_room(&self, s: &str, most: u32) -> (r: bool)
        requires
            self.wf(),
        ensures
            r == (self@.contains(s@) || self@.len() < most),
    {
        self.next < most || ids_get(&self.map, s).is_some()
    }

    /// The number of `s`; a new string gets the next one.
    pub fn intern(&mut self, s: &str) -> (r: u32)
        requires
            old(self).wf(),
            old(self)@.contains(s@) || old(self)@.len() < u32::MAX,
        ensures
            final(self).wf(),
            final(self)@ == (if old(self)@.contains(s@) {
                old(self)@
            } else {
                old(self)@.push(s@)
            }),
            r < final(self)@.len(),
            final(self)@[r as int] == s@,
    {
        match ids_get(&self.map, s) {
            Some(id) => {
                return id;
            },
            None => {},
        }
        let id: u32 = self.next;
        let ghost before = self@;
        ids_insert(&mut self.map, s.to_owned(), id);
        self.next = id + 1;
        self.names = Ghost(before.push(s@));
        proof {
            assert(self@[id as int] == s@);
            assert forall|x: Seq<char>| #[trigger]
                id_map(self.map).contains_key(x) <==> self@.contains(x) by {
                if before.contains(x) {
                    let k = choose|k: int| 0 <= k < before.len() && before[k] == x;
                    assert(self@[k] == x);
                }
                if self@.contains(x) && x != s@ {
                    let k = choose|k: int| 0 <= k < self@.len() && self@[k] == x;
                    assert(before[k] == x);
                }
            }
        }
        id
    }

    /// The strings by number.
    pub fn table(&self) -> (r: Vec<String>)
        requires
            self.wf(),
        ensures
            text::strs(r@) == self@,
    {
        let entries = ids_entries(&self.map);
        let mut out: Vec<String> = Vec::new();
        let mut k: u32 = 0;
        while k < self.next
            invariant
                k <= self.next,
                out@.len() == k,
            decreases self.next - k,
        {
            out.push(String::new());
            k = k + 1;
        }
        let mut i: usize = 0;
        while i < entries.len()
            invariant
                i <= entries@.len(),
                self.wf(),
                out@.len() == self@.len(),
                forall|j: int|
                    0 <= j < entries@.len() ==> id_map(self.map).contains_key(
                        (#[trigger] entries@[j]).0@,
                    ) && id_map(self.map)[entries@[j].0@] == entries@[j].1,
                forall|j: int|
                    0 <= j < i ==> out@[(#[trigger] entries@[j]).1 as int]@ == entries@[j].0@,
            decreases entries@.len() - i,
        {
            let id: usize = entries[i].1 as usize;
            let ghost before = out@;
            let mut s: String = entries[i].0.clone();
            out.set(id, s);
            proof {
                assert forall|j: int| 0 <= j < i + 1 implies out@[(
                #[trigger] entries@[j]).1 as int]@ == entries@[j].0@ by {
                    if j < i && entries@[j].1 == entries@[i as int].1 {
                        assert(self@[entries@[j].1 as int] == entries@[j].0@);
                        assert(self@[entries@[i as int].1 as int] == entries@[i as int].0@);
                    }
                }
            }
            i = i + 1;
        }
        proof {
            assert forall|k: int| 0 <= k < self@.len() implies (#[trigger] out@[k])@ == self@[k] by {
                let s = self@[k];
                assert(self@.contains(s));
                assert(id_map(self.map).contains_key(s));
                let j = choose|j: int| 0 <= j < entries@.len() && (#[trigger] entries@[j]).0@ == s;
                assert(id_map(self.map)[s] == entries@[j].1);
                assert(self@[entries@[j].1 as int] == s);
            }
            assert(text::strs(out@) =~= self@);
        }
        out
    }
}

// ---------------------------------------------------------------------------
// Rows with numbers
// ---------------------------------------------------------------------------

/// A file of a user, with the numbers of its directory, name and extension.
#[derive(Clone, Copy, PartialEq, Eq, Structural, Debug)]
pub struct CompactRow {
    pub size: u64,
    pub dir_id: u32,
    pub name_id: u32,
    pub ext_id: u16,
}

/// A numbered row as it is written.
pub open spec fn compact_bytes(r: CompactRow) -> Seq<u8> {
    vstd::bytes::spec_u64_to_le_bytes(r.size) + vstd::bytes::spec_u32_to_le_bytes(r.dir_id)
        + vstd::bytes::spec_u32_to_le_bytes(r.name_id) + vstd::bytes::spec_u16_to_le_bytes(r.ext_id)
}

/// Numbered rows, one after the other.
pub open spec fn compacts_bytes(rows: Seq<CompactRow>) -> Seq<u8>
    decreases rows.len(),
{
    if rows.len() == 0 {
        Seq::empty()
    } else {
        compacts_bytes(rows.drop_last()) + compact_bytes(rows.last())
    }
}

/// The numbered rows that bytes hold; none where a row is cut off after its size.
pub open spec fn compacts_of_bytes(b: Seq<u8>) -> Option<Seq<CompactRow>>
    decreases b.len(),
{
    if b.len() < 8 {
        Some(Seq::empty())
    } else if b.len() < 18 {
        None
    } else {
        match compacts_of_bytes(b.skip(18)) {
            Some(rest) => Some(
                seq![
                    CompactRow {
                        size: vstd::bytes::spec_u64_from_le_bytes(b.subrange(0, 8)),
                        dir_id: vstd::bytes::spec_u32_from_le_bytes(b.subrange(8, 12)),
                        name_id: vstd::bytes::spec_u32_from_le_bytes(b.subrange(12, 16)),
                        ext_id: vstd::bytes::spec_u16_from_le_bytes(b.subrange(16, 18)),
                    },
                ] + rest,
            ),
            None => None,
        }
    }
}

/// Appends a numbered row.
pub fn write_compact_row(out: &mut Vec<u8>, r: CompactRow)
    ensures
        final(out)@ == old(out)@ + compact_bytes(r),
{
    let size = u64_to_le_bytes(r.size);
    let dir = u32_to_le_bytes(r.dir_id);
    let name = u32_to_le_bytes(r.name_id);
    let ext = u16_to_le_bytes(r.ext_id);
    events::push_bytes(out, &size);
    events::push_bytes(out, &dir);
    events::push_bytes(out, &name);
    events::push_bytes(out, &ext);
    proof {
        assert(out@ =~= old(out)@ + compact_bytes(r));
    }
}

/// Reads numbered rows back.
pub fn decode_compacts(b: &[u8]) -> (r: Option<Vec<CompactRow>>)
    ensures
        r is Some <==> compacts_of_bytes(b@) is Some,
        r matches Some(v) ==> compacts_of_bytes(b@) == Some(v@),
{
    let mut out: Vec<CompactRow> = Vec::new();
    let mut pos: usize = 0;
    proof {
        assert(b@.skip(0) =~= b@);
        assert(compacts_of_bytes(b@) matches Some(all) ==> out@ + all =~= all);
    }
    while b.len() - pos >= 8
        invariant
            pos <= b.len(),
            compacts_of_bytes(b@) is Some <==> compacts_of_bytes(b@.skip(pos as int)) is Some,
            compacts_of_bytes(b@) matches Some(all) ==> all == out@ + compacts_of_bytes(
                b@.skip(pos as int),
            )->0,
        decreases b.len() - pos,
    {
        let rest = slice_subrange(b, pos, b.len());
        proof {
            assert(rest@ =~= b@.skip(pos as int));
        }
        if rest.len() < 18 {
            return None;
        }
        let row = CompactRow {
            size: u64_from_le_bytes(slice_subrange(rest, 0, 8)),
            dir_id: u32_from_le_bytes(slice_subrange(rest, 8, 12)),
            name_id: u32_from_le_bytes(slice_subrange(rest, 12, 16)),
            ext_id: u16_from_le_bytes(slice_subrange(rest, 16, 18)),
        };
        let ghost before = out@;
        out.push(row);
        proof {
            assert(rest@.skip(18) =~= b@.skip(pos + 18));
            match compacts_of_bytes(rest@.skip(18)) {
                Some(tail) => {
                    assert(compacts_of_bytes(rest@) matches Some(x) && x == seq![row] + tail);
                    assert(before + (seq![row] + tail) =~= out@ + tail);
                },
                None => {},
            }
        }
        pos = pos + 18;
    }
    proof {
        assert(out@ + Seq::<CompactRow>::empty() =~= out@);
    }
    Some(out)
}

/// The numbered rows of a compressed file.
pub open spec fn compacts_of_file(file: Seq<u8>) -> Option<Seq<CompactRow>> {
    match lz4_content(file) {
        Some(content) => compacts_of_bytes(content),
        None => None,
    }
}

/// The numbered rows of a compressed file; none where the file is damaged.
pub fn read_compact_spill(file: &[u8]) -> (r: Option<Vec<CompactRow>>)
    ensures
        r is Some <==> compacts_of_file(file@) is Some,
        r matches Some(v) ==> compacts_of_file(file@) == Some(v@),
{
    match decompress(file) {
        Some(content) => decode_compacts(&content),
        None => None,
    }
}

proof fn lemma_read_compact(r: CompactRow, tail: Seq<u8>)
    requires
        compacts_of_bytes(tail) is Some,
    ensures
        compacts_of_bytes(compact_bytes(r) + tail) == Some(seq![r] + compacts_of_bytes(tail)->0),
{
    vstd::bytes::lemma_auto_spec_u16_to_from_le_bytes();
    vstd::bytes::lemma_auto_spec_u32_to_from_le_bytes();
    vstd::bytes::lemma_auto_spec_u64_to_from_le_bytes();
    let b = compact_bytes(r) + tail;
    assert(b.subrange(0, 8) =~= vstd::bytes::spec_u64_to_le_bytes(r.size));
    assert(b.subrange(8, 12) =~= vstd::bytes::spec_u32_to_le_bytes(r.dir_id));
    assert(b.subrange(12, 16) =~= vstd::bytes::spec_u32_to_le_bytes(r.name_id));
    assert(b.subrange(16, 18) =~= vstd::bytes::spec_u16_to_le_bytes(r.ext_id));
    assert(b.skip(18) =~= tail);
}

proof fn lemma_read_compacts(rows: Seq<CompactRow>, tail: Seq<u8>)
    requires
        compacts_of_bytes(tail) is Some,
    ensures
        compacts_of_bytes(compacts_bytes(rows) + tail) == Some(
            rows + compacts_of_bytes(tail)->0,
        ),
    decreases rows.len(),
{
    if rows.len() == 0 {
        assert(compacts_bytes(rows) + tail =~= tail);
        assert(rows + compacts_of_bytes(tail)->0 =~= compacts_of_bytes(tail)->0);
    } else {
        let r = rows.last();
        let head = rows.drop_last();
        lemma_read_compact(r, tail);
        lemma_read_compacts(head, compact_bytes(r) + tail);
        assert(compacts_bytes(rows) + tail =~= compacts_bytes(head) + (compact_bytes(r) + tail));
        assert(head + (seq![r] + compacts_of_bytes(tail)->0) =~= rows + compacts_of_bytes(tail)->0);
    }
}

/// Reading numbered rows gives back the rows that were written.
pub proof fn law_read_of_written_compacts(rows: Seq<CompactRow>)
    ensures
        compacts_of_bytes(compacts_bytes(rows)) == Some(rows),
{
    let none = Seq::<u8>::empty();
    lemma_read_compacts(rows, none);
    assert(compacts_bytes(rows) + none =~= compacts_bytes(rows));
    assert(rows + Seq::<CompactRow>::empty() =~= rows);
}

// ---------------------------------------------------------------------------
// Numbering the rows of a file
// ---------------------------------------------------------------------------

/// The numbers of base names and of extensions. The empty extension is number
/// zero.
pub struct Numbering {
    pub names: NameIds,
    pub exts: NameIds,
}

/// The strings that are numbered.
#[verifier::ext_equal]
pub struct NumberingModel {
    pub names: Seq<Seq<char>>,
    pub exts: Seq<Seq<char>>,
}

impl View for Numbering {
    type V = NumberingModel;

    open spec fn view(&self) -> NumberingModel {
        NumberingModel { names: self.names@, exts: self.exts@ }
    }
}

/// `s` with `x` at the end where it is new.
pub open spec fn with_name(s: Seq<Seq<char>>, x: Seq<char>) -> Seq<Seq<char>> {
    if s.contains(x) {
        s
    } else {
        s.push(x)
    }
}

/// The strings that are numbered once a row's are.
pub open spec fn numbered(m: NumberingModel, r: RowModel) -> NumberingModel {
    NumberingModel { names: with_name(m.names, paths::base_name(r.path)), exts: with_name(m.exts, r.ext) }
}

/// The directory of a row: that of its parent, and the root where the tree
/// does not know it.
pub open spec fn row_dir(
    ids: Map<Seq<char>, usize>,
    root: Seq<char>,
    path: Seq<char>,
) -> int {
    let parent = match paths::named_parent(path) {
        Some(p) => p,
        None => root,
    };
    if ids.contains_key(parent) {
        ids[parent] as int
    } else {
        0
    }
}

/// `c` is the row `r` with the numbers of its strings.
pub open spec fn is_compact(
    c: CompactRow,
    r: RowModel,
    m: NumberingModel,
    ids: Map<Seq<char>, usize>,
    root: Seq<char>,
) -> bool {
    &&& c.size == r.size
    &&& c.dir_id == row_dir(ids, root, r.path)
    &&& c.name_id < m.names.len()
    &&& m.names[c.name_id as int] == paths::base_name(r.path)
    &&& c.ext_id < m.exts.len()
    &&& m.exts[c.ext_id as int] == r.ext
}

/// The row `r` with the numbers of its strings.
pub open spec fn compact_of(
    r: RowModel,
    m: NumberingModel,
    ids: Map<Seq<char>, usize>,
    root: Seq<char>,
) -> CompactRow {
    CompactRow {
        size: r.size,
        dir_id: row_dir(ids, root, r.path) as u32,
        name_id: m.names.index_of(paths::base_name(r.path)) as u32,
        ext_id: m.exts.index_of(r.ext) as u16,
    }
}

/// The rows with the numbers of their strings.
pub open spec fn compacts_of(
    rows: Seq<RowModel>,
    m: NumberingModel,
    ids: Map<Seq<char>, usize>,
    root: Seq<char>,
) -> Seq<CompactRow> {
    rows.map_values(|r: RowModel| compact_of(r, m, ids, root))
}

/// A row has its numbers in one way only.
proof fn lemma_compact_of(
    c: CompactRow,
    r: RowModel,
    m: NumberingModel,
    ids: Map<Seq<char>, usize>,
    root: Seq<char>,
)
    requires
        is_compact(c, r, m, ids, root),
        m.names.no_duplicates(),
        m.exts.no_duplicates(),
    ensures
        c == compact_of(r, m, ids, root),
{
    let base = paths::base_name(r.path);
    assert(m.names.contains(base));
    assert(m.exts.contains(r.ext));
    assert(m.names[m.names.index_of(base)] == base);
    assert(m.exts[m.exts.index_of(r.ext)] == r.ext);
}

impl Numbering {
    /// No string has two numbers.
    pub proof fn lemma_wf(&self)
        requires
            self.wf(),
        ensures
            self@.names.no_duplicates(),
            self@.exts.no_duplicates(),
    {
    }

    pub open spec fn wf(&self) -> bool {
        &&& self.names.wf()
        &&& self.exts.wf()
        &&& self.exts@.len() >= 1
        &&& self.exts@[0] == Seq::<char>::empty()
        &&& self.exts@.len() <= 65536
    }

    pub fn new() -> (r: Self)
        ensures
            r.wf(),
            r@.names == Seq::<Seq<char>>::empty(),
            r@.exts == seq![Seq::<char>::empty()],
    {
        let mut exts = NameIds::new();
        let _z: u32 = exts.intern("");
        proof {
            reveal_strlit("");
            assert(""@ =~= Seq::<char>::empty());
            assert(exts@ =~= seq![Seq::<char>::empty()]);
        }
        Numbering { names: NameIds::new(), exts }
    }

    /// Whether a row can be numbered.
    pub fn has_room(&self, r: &SpillRow) -> (b: bool)
        requires
            self.wf(),
        ensures
            b == room(self@, r@),
    {
        let base = paths::tm_basename(r.path.as_str());
        self.names.has_room(base.as_str(), u32::MAX) && self.exts.has_room(r.ext.as_str(), 65536)
    }

    /// The numbers of a row.
    pub fn compact_row(
        &mut self,
        r: &SpillRow,
        ids: &StringHashMap<usize>,
        root: &str,
    ) -> (c: CompactRow)
        requires
            old(self).wf(),
            room(old(self)@, r@),
            forall|p: Seq<char>| #[trigger] ids@.contains_key(p) ==> ids@[p] <= u32::MAX,
        ensures
            final(self).wf(),
            final(self)@ == numbered(old(self)@, r@),
            is_compact(c, r@, final(self)@, ids@, root@),
    {
        let parent = match paths::parent_path(r.path.as_str()) {
            Some(p) => p,
            None => root.to_owned(),
        };
        let dir_id: u32 = match ids.get(parent.as_str()) {
            Some(id) => *id as u32,
            None => 0,
        };
        let base = paths::tm_basename(r.path.as_str());
        let ghost before = self@;
        let name_id: u32 = self.names.intern(base.as_str());
        let ext_id: u32 = self.exts.intern(r.ext.as_str());
        proof {
            assert(self@ =~= numbered(before, r@));
        }
        CompactRow { size: r.size, dir_id, name_id, ext_id: ext_id as u16 }
    }
}

/// The bytes of numbered rows.
pub fn encode_compacts(rows: &Vec<CompactRow>) -> (out: Vec<u8>)
    ensures
        out@ == compacts_bytes(rows@),
{
    let mut out: Vec<u8> = Vec::new();
    let mut i: usize = 0;
    proof {
        assert(rows@.take(0) =~= Seq::<CompactRow>::empty());
    }
    while i < rows.len()
        invariant
            i <= rows@.len(),
            out@ == compacts_bytes(rows@.take(i as int)),
        decreases rows@.len() - i,
    {
        write_compact_row(&mut out, rows[i]);
        proof {
            assert(rows@.take(i + 1).drop_last() =~= rows@.take(i as int));
        }
        i = i + 1;
    }
    proof {
        assert(rows@.take(i as int) =~= rows@);
    }
    out
}

/// The strings that are numbered once those of all rows are.
pub open spec fn numbered_all(m: NumberingModel, rows: Seq<RowModel>) -> NumberingModel
    decreases rows.len(),
{
    if rows.len() == 0 {
        m
    } else {
        numbered(numbered_all(m, rows.drop_last()), rows.last())
    }
}

/// Whether a row can be numbered: its name and its extension have a number, or
/// there is one left for what is new.
pub open spec fn room(m: NumberingModel, r: RowModel) -> bool {
    &&& m.names.contains(paths::base_name(r.path)) || m.names.len() < u32::MAX
    &&& m.exts.contains(r.ext) || m.exts.len() < 65536
}

/// Whether the rows can be numbered one after the other.
pub open spec fn room_for(m: NumberingModel, rows: Seq<RowModel>) -> bool {
    forall|k: int|
        0 <= k < rows.len() ==> room(#[trigger] numbered_all(m, rows.take(k)), rows[k])
}

/// Numbers stay when more strings are numbered.
proof fn lemma_compact_stays(
    c: CompactRow,
    r: RowModel,
    m: NumberingModel,
    x: RowModel,
    ids: Map<Seq<char>, usize>,
    root: Seq<char>,
)
    requires
        is_compact(c, r, m, ids, root),
    ensures
        is_compact(c, r, numbered(m, x), ids, root),
{
}

/// The rows with numbers in the place of their strings; none where the numbers
/// run out.
pub fn number_rows(
    rows: &Vec<SpillRow>,
    ids: &StringHashMap<usize>,
    root: &str,
    n: &mut Numbering,
) -> (r: Option<Vec<CompactRow>>)
    requires
        old(n).wf(),
        forall|p: Seq<char>| #[trigger] ids@.contains_key(p) ==> ids@[p] <= u32::MAX,
    ensures
        final(n).wf(),
        r is Some <==> room_for(old(n)@, row_views(rows@)),
        r is None ==> exists|k: int|
            0 <= k < rows@.len() && final(n)@ == #[trigger] numbered_all(
                old(n)@,
                row_views(rows@).take(k),
            ) && !room(final(n)@, rows@[k]@),
        r matches Some(v) ==> {
            &&& final(n)@ == numbered_all(old(n)@, row_views(rows@))
            &&& v@ == compacts_of(row_views(rows@), final(n)@, ids@, root@)
            &&& v@.len() == rows@.len()
            &&& forall|i: int|
                0 <= i < v@.len() ==> is_compact(
                    #[trigger] v@[i],
                    rows@[i]@,
                    final(n)@,
                    ids@,
                    root@,
                )
        },
{
    let ghost all = row_views(rows@);
    let mut out: Vec<CompactRow> = Vec::new();
    let mut i: usize = 0;
    proof {
        assert(all.take(0) =~= Seq::<RowModel>::empty());
    }
    while i < rows.len()
        invariant
            i <= rows@.len(),
            all == row_views(rows@),
            n.wf(),
            n@ == numbered_all(old(n)@, all.take(i as int)),
            forall|k: int|
                0 <= k < i ==> room(#[trigger] numbered_all(old(n)@, all.take(k)), all[k]),
            forall|p: Seq<char>| #[trigger] ids@.contains_key(p) ==> ids@[p] <= u32::MAX,
            out@.len() == i,
            forall|k: int|
                0 <= k < i ==> is_compact(#[trigger] out@[k], rows@[k]@, n@, ids@, root@),
        decreases rows@.len() - i,
    {
        if !n.has_room(&rows[i]) {
            proof {
                assert(!room(numbered_all(old(n)@, all.take(i as int)), all[i as int]));
            }
            return None;
        }
        let ghost before = n@;
        let ghost done = out@;
        let c = n.compact_row(&rows[i], ids, root);
        out.push(c);
        proof {
            assert(all.take(i + 1).drop_last() =~= all.take(i as int));
            assert(all.take(i + 1).last() == rows@[i as int]@);
            assert forall|k: int| 0 <= k < i + 1 implies is_compact(
                #[trigger] out@[k],
                rows@[k]@,
                n@,
                ids@,
                root@,
            ) by {
                if k < i {
                    assert(out@[k] == done[k]);
                    lemma_compact_stays(done[k], rows@[k]@, before, rows@[i as int]@, ids@, root@);
                }
            }
        }
        i = i + 1;
    }
    proof {
        assert(all.take(i as int) =~= all);
        n.lemma_wf();
        assert forall|k: int| 0 <= k < out@.len() implies #[trigger] out@[k] == compact_of(
            all[k],
            n@,
            ids@,
            root@,
        ) by {
            lemma_compact_of(out@[k], rows@[k]@, n@, ids@, root@);
        }
        assert(out@ =~= compacts_of(all, n@, ids@, root@));
    }
    Some(out)
}

/// Why a spill file could not be numbered.
#[derive(Clone, Copy, PartialEq, Eq, Structural, Debug)]
pub enum NumberError {
    /// The file does not hold rows.
    Damaged,
    /// The numbers for names or extensions ran out.
    Full,
    /// The numbered rows could not be compressed.
    Write,
}

/// The rows of a compressed spill file.
pub open spec fn rows_of_file(file: Seq<u8>) -> Option<Seq<RowModel>> {
    match lz4_content(file) {
        Some(content) => rows_of_bytes(content),
        None => None,
    }
}

/// The rows of a compressed spill file; none where the file is damaged.
pub fn read_spill(file: &[u8]) -> (r: Option<Vec<SpillRow>>)
    ensures
        r is Some <==> rows_of_file(file@) is Some,
        r matches Some(v) ==> rows_of_file(file@) == Some(row_views(v@)),
{
    match decompress(file) {
        Some(content) => decode_rows(&content),
        None => None,
    }
}

/// A compressed file of numbered rows that reads back as `rows`.
pub fn pack_compacts(rows: &Vec<CompactRow>) -> (r: Option<Vec<u8>>)
    ensures
        r is Some <==> lz4_frame(compacts_bytes(rows@)) is Some,
        r matches Some(v) ==> lz4_frame(compacts_bytes(rows@)) == Some(v@) && compacts_of_file(v@)
            == Some(rows@),
{
    let plain = encode_compacts(rows);
    proof {
        law_read_of_written_compacts(rows@);
    }
    compress(&plain)
}

/// How the numbering of a spill file ends: with the rows `compacts_of` as a
/// compressed file, without where they cannot be compressed, where the numbers run
/// out, or where the file is damaged, which then leaves the numbering as it was.
pub open spec fn renumbered(
    r: Result<Seq<u8>, NumberError>,
    file: Seq<u8>,
    before: NumberingModel,
    after: NumberingModel,
    ids: Map<Seq<char>, usize>,
    root: Seq<char>,
) -> bool {
    match rows_of_file(file) {
        None => r == Err::<Seq<u8>, NumberError>(NumberError::Damaged) && after == before,
        Some(rows) => if !room_for(before, rows) {
            &&& r == Err::<Seq<u8>, NumberError>(NumberError::Full)
            &&& exists|k: int|
                0 <= k < rows.len() && after == #[trigger] numbered_all(before, rows.take(k))
                    && !room(after, rows[k])
        } else {
            let cs = compacts_of(rows, after, ids, root);
            &&& after == numbered_all(before, rows)
            &&& match lz4_frame(compacts_bytes(cs)) {
                Some(v) => r == Ok::<Seq<u8>, NumberError>(v) && compacts_of_file(v) == Some(cs),
                None => r == Err::<Seq<u8>, NumberError>(NumberError::Write),
            }
        },
    }
}

/// The bytes of a file, or why there is none.
pub open spec fn bytes_view(r: Result<Vec<u8>, NumberError>) -> Result<Seq<u8>, NumberError> {
    match r {
        Ok(v) => Ok(v@),
        Err(e) => Err(e),
    }
}

/// Turns a spill file into one whose rows have numbers in the place of their
/// strings.
pub fn reencode_file(
    file: &[u8],
    ids: &StringHashMap<usize>,
    root: &str,
    n: &mut Numbering,
) -> (r: Result<Vec<u8>, NumberError>)
    requires
        old(n).wf(),
        forall|p: Seq<char>| #[trigger] ids@.contains_key(p) ==> ids@[p] <= u32::MAX,
    ensures
        final(n).wf(),
        renumbered(bytes_view(r), file@, old(n)@, final(n)@, ids@, root@),
        rows_of_file(file@) matches Some(rows) ==> (r is Ok ==> forall|i: int|
            0 <= i < rows.len() ==> is_compact(
                #[trigger] compacts_of(rows, final(n)@, ids@, root@)[i],
                rows[i],
                final(n)@,
                ids@,
                root@,
            )),
{
    match read_spill(file) {
        None => Err(NumberError::Damaged),
        Some(rows) => {
            match number_rows(&rows, ids, root, n) {
                None => Err(NumberError::Full),
                Some(cs) => {
                    match pack_compacts(&cs) {
                        None => Err(NumberError::Write),
                        Some(v) => Ok(v),
                    }
                },
            }
        },
    }
}

proof fn lemma_spilled_back(rows: Seq<RowModel>, parts: int)
    requires
        0 <= parts,
        forall|i: int| 0 <= i < rows.len() ==> row_fits(#[trigger] rows[i]),
    ensures
        forall|k: int|
            0 <= k < parts && 0 <= k * FILE_PART_RECORDS <= rows.len() ==> rows_of_bytes(
                rows_bytes(#[trigger] part_rows(rows, k)),
            ) == Some(part_rows(rows, k)),
{
    assert forall|k: int|
        0 <= k < parts && 0 <= k * FILE_PART_RECORDS <= rows.len() implies rows_of_bytes(
        rows_bytes(#[trigger] part_rows(rows, k)),
    ) == Some(part_rows(rows, k)) by {
        let p = part_rows(rows, k);
        assert forall|i: int| 0 <= i < p.len() implies row_fits(#[trigger] p[i]) by {
            assert(p[i] == rows[k * FILE_PART_RECORDS + i]);
        }
        law_read_of_written_rows(p);
    }
}

/// Each part of a user's rows reads back from the bytes that are written for it.
pub proof fn law_spilled_parts_read_back(rows: Seq<RowModel>, k: int)
    requires
        forall|i: int| 0 <= i < rows.len() ==> row_fits(#[trigger] rows[i]),
        0 <= k < part_count(rows.len() as int),
    ensures
        rows_of_bytes(rows_bytes(part_rows(rows, k))) == Some(part_rows(rows, k)),
{
    lemma_spilled_back(rows, k + 1);
}

/// The parts of a user's rows, one after the other, are the rows.
pub proof fn law_parts_make_up_rows(rows: Seq<RowModel>, k: int)
    requires
        0 <= k <= part_count(rows.len() as int),
    ensures
        joined_parts(rows, k) == rows.take(if k * FILE_PART_RECORDS < rows.len() {
            k * FILE_PART_RECORDS
        } else {
            rows.len() as int
        }),
    decreases k,
{
    if k > 0 {
        law_parts_make_up_rows(rows, k - 1);
        let from = (k - 1) * FILE_PART_RECORDS;
        assert(from < rows.len());
        let to = if from + FILE_PART_RECORDS < rows.len() {
            from + FILE_PART_RECORDS
        } else {
            rows.len() as int
        };
        assert(rows.take(from) + rows.subrange(from, to) =~= rows.take(to));
    } else {
        assert(rows.take(0) =~= Seq::<RowModel>::empty());
    }
}

/// The first `k` parts, one after the other.
pub open spec fn joined_parts(rows: Seq<RowModel>, k: int) -> Seq<RowModel>
    decreases k,
{
    if k <= 0 {
        Seq::empty()
    } else {
        joined_parts(rows, k - 1) + part_rows(rows, k - 1)
    }
}

/// The layout of a numbered row: eight bytes of its size, four of its directory, four of
/// its name and two of its extension, each with the least byte first.
pub proof fn law_layout_of_numbered_rows(r: CompactRow)
    ensures
        compact_bytes(r).len() == 18,
        compact_bytes(r).subrange(0, 8) == vstd::bytes::spec_u64_to_le_bytes(r.size),
        compact_bytes(r).subrange(8, 12) == vstd::bytes::spec_u32_to_le_bytes(r.dir_id),
        compact_bytes(r).subrange(12, 16) == vstd::bytes::spec_u32_to_le_bytes(r.name_id),
        compact_bytes(r).subrange(16, 18) == vstd::bytes::spec_u16_to_le_bytes(r.ext_id),
{
    vstd::bytes::lemma_auto_spec_u16_to_from_le_bytes();
    vstd::bytes::lemma_auto_spec_u32_to_from_le_bytes();
    vstd::bytes::lemma_auto_spec_u64_to_from_le_bytes();
    let b = compact_bytes(r);
    assert(b.subrange(0, 8) =~= vstd::bytes::spec_u64_to_le_bytes(r.size));
    assert(b.subrange(8, 12) =~= vstd::bytes::spec_u32_to_le_bytes(r.dir_id));
    assert(b.subrange(12, 16) =~= vstd::bytes::spec_u32_to_le_bytes(r.name_id));
    assert(b.subrange(16, 18) =~= vstd::bytes::spec_u16_to_le_bytes(r.ext_id));
}

} // verus!
