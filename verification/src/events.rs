//! The event files of a scan: binary records of files, directory sizes and
//! directory owners, and the lines of permission issues.

use crate::text;
use std::collections::HashMap;
use vstd::bytes::u32_from_le_bytes;
use vstd::bytes::u32_to_le_bytes;
use vstd::bytes::u64_from_le_bytes;
use vstd::bytes::u64_to_le_bytes;
use vstd::prelude::*;
use vstd::slice::slice_subrange;
use vstd::slice::slice_to_vec;
use vstd::string::*;

verus! {

/// The number of rows that one spill file holds at most.
pub const FILE_PART_RECORDS: usize = 100_000;

/// The length of the mark that opens a binary event file.
pub const BIN_MAGIC_LEN: usize = 8;

/// What a user's report holds besides the rows.
pub struct UserOutputMeta {
    pub team_id: String,
    pub total_dirs: i64,
    pub total_used: i64,
}

/// The totals of one user's report.
pub struct UserBuildResult {
    pub username: String,
    pub team_id: String,
    pub total_dirs: i64,
    pub total_files: i64,
    pub total_used: i64,
}

/// An entry that could not be read.
pub struct PermissionEvent {
    pub uid: u32,
    pub kind: String,
    pub errcode: String,
    pub path: String,
}

/// A file that was counted.
pub struct ScanEvent {
    pub uid: u32,
    pub size: u64,
    pub path: String,
}

/// What a user's files take directly in a directory.
pub struct DirAggEvent {
    pub uid: u32,
    pub size: i64,
    pub path: String,
}

/// The owner of a directory.
pub struct DirOwnerEvent {
    pub uid: u32,
    pub path: String,
}

impl Default for UserOutputMeta {
    fn default() -> (r: Self)
        ensures
            r.team_id@.len() == 0,
            r.total_dirs == 0,
            r.total_used == 0,
    {
        UserOutputMeta { team_id: String::new(), total_dirs: 0, total_used: 0 }
    }
}

#[verifier::ext_equal]
pub struct PermissionModel {
    pub uid: u32,
    pub kind: Seq<char>,
    pub errcode: Seq<char>,
    pub path: Seq<char>,
}

#[verifier::ext_equal]
pub struct ScanModel {
    pub uid: u32,
    pub size: u64,
    pub path: Seq<char>,
}

#[verifier::ext_equal]
pub struct DirAggModel {
    pub uid: u32,
    pub size: i64,
    pub path: Seq<char>,
}

#[verifier::ext_equal]
pub struct DirOwnerModel {
    pub uid: u32,
    pub path: Seq<char>,
}

impl View for PermissionEvent {
    type V = PermissionModel;

    open spec fn view(&self) -> PermissionModel {
        PermissionModel {
            uid: self.uid,
            kind: self.kind@,
            errcode: self.errcode@,
            path: self.path@,
        }
    }
}

impl View for ScanEvent {
    type V = ScanModel;

    open spec fn view(&self) -> ScanModel {
        ScanModel { uid: self.uid, size: self.size, path: self.path@ }
    }
}

impl View for DirAggEvent {
    type V = DirAggModel;

    open spec fn view(&self) -> DirAggModel {
        DirAggModel { uid: self.uid, size: self.size, path: self.path@ }
    }
}

impl View for DirOwnerEvent {
    type V = DirOwnerModel;

    open spec fn view(&self) -> DirOwnerModel {
        DirOwnerModel { uid: self.uid, path: self.path@ }
    }
}

pub open spec fn permission_views(v: Seq<PermissionEvent>) -> Seq<PermissionModel> {
    v.map_values(|e: PermissionEvent| e@)
}

pub open spec fn scan_views(v: Seq<ScanEvent>) -> Seq<ScanModel> {
    v.map_values(|e: ScanEvent| e@)
}

pub open spec fn dir_agg_views(v: Seq<DirAggEvent>) -> Seq<DirAggModel> {
    v.map_values(|e: DirAggEvent| e@)
}

pub open spec fn dir_owner_views(v: Seq<DirOwnerEvent>) -> Seq<DirOwnerModel> {
    v.map_values(|e: DirOwnerEvent| e@)
}

// ---------------------------------------------------------------------------
// Bytes to text
// ---------------------------------------------------------------------------

/// The text of arbitrary bytes, as `String::from_utf8_lossy` reads them.
pub uninterp spec fn utf8_lossy(bytes: Seq<u8>) -> Seq<char>;

/// `String::from_utf8_lossy` is a function of the bytes; valid UTF-8 is read as
/// what it encodes.
#[verifier::external_body]
pub(crate) fn lossy_text(bytes: &[u8]) -> (r: String)
    ensures
        r@ == utf8_lossy(bytes@),
        vstd::utf8::valid_utf8(bytes@) ==> r@ == vstd::utf8::decode_utf8(bytes@),
{
    String::from_utf8_lossy(bytes).into_owned()
}

/// What `lossy_text` gives for bytes: the text that they encode where they are
/// valid UTF-8, else the lossy reading.
pub open spec fn text_of(bytes: Seq<u8>) -> Seq<char> {
    if vstd::utf8::valid_utf8(bytes) {
        vstd::utf8::decode_utf8(bytes)
    } else {
        utf8_lossy(bytes)
    }
}

/// The text of arbitrary bytes.
pub fn text_from_bytes(bytes: &[u8]) -> (r: String)
    ensures
        r@ == text_of(bytes@),
{
    lossy_text(bytes)
}

/// A text survives the way through its bytes.
pub proof fn lemma_text_of_encoded(s: Seq<char>)
    ensures
        text_of(vstd::utf8::encode_utf8(s)) == s,
{
    vstd::utf8::encode_utf8_valid_utf8(s);
    vstd::utf8::encode_utf8_decode_utf8(s);
}

// ---------------------------------------------------------------------------
// Records
// ---------------------------------------------------------------------------

/// The mark of a file of scan events.
pub open spec fn scan_magic() -> Seq<u8> {
    seq![67u8, 68u8, 83u8, 75u8, 83u8, 69u8, 86u8, 49u8]
}

/// The mark of a file of directory sizes.
pub open spec fn dir_agg_magic() -> Seq<u8> {
    seq![67u8, 68u8, 83u8, 75u8, 68u8, 65u8, 86u8, 49u8]
}

/// The mark of a file of directory owners.
pub open spec fn dir_owner_magic() -> Seq<u8> {
    seq![67u8, 68u8, 83u8, 75u8, 68u8, 79u8, 86u8, 49u8]
}

/// The mark of a file of scan events: `CDSKSEV1`.
pub fn scan_event_bin_magic() -> (r: Vec<u8>)
    ensures
        r@ == scan_magic(),
{
    vec![67u8, 68u8, 83u8, 75u8, 83u8, 69u8, 86u8, 49u8]
}

/// The mark of a file of directory sizes: `CDSKDAV1`.
pub fn dir_agg_bin_magic() -> (r: Vec<u8>)
    ensures
        r@ == dir_agg_magic(),
{
    vec![67u8, 68u8, 83u8, 75u8, 68u8, 65u8, 86u8, 49u8]
}

/// The mark of a file of directory owners: `CDSKDOV1`.
pub fn dir_owner_bin_magic() -> (r: Vec<u8>)
    ensures
        r@ == dir_owner_magic(),
{
    vec![67u8, 68u8, 83u8, 75u8, 68u8, 79u8, 86u8, 49u8]
}

/// What follows the mark; the whole file where the mark is missing.
pub open spec fn after_magic(bytes: Seq<u8>, magic: Seq<u8>) -> Seq<u8> {
    if magic.is_prefix_of(bytes) {
        bytes.skip(magic.len() as int)
    } else {
        bytes
    }
}

/// One record: a header that ends with the length of the path, and the path.
pub struct RawRecord {
    pub head: Vec<u8>,
    pub path: Vec<u8>,
}

#[verifier::ext_equal]
pub struct RawModel {
    pub head: Seq<u8>,
    pub path: Seq<u8>,
}

impl View for RawRecord {
    type V = RawModel;

    open spec fn view(&self) -> RawModel {
        RawModel { head: self.head@, path: self.path@ }
    }
}

pub open spec fn raw_views(v: Seq<RawRecord>) -> Seq<RawModel> {
    v.map_values(|e: RawRecord| e@)
}

/// The length of the path that a header of `h` bytes announces.
pub open spec fn path_len(bytes: Seq<u8>, h: int) -> int {
    vstd::bytes::spec_u32_from_le_bytes(bytes.subrange(h - 4, h)) as int
}

/// The records of a file with headers of `h` bytes. A header that is cut off
/// ends the file.
pub open spec fn records(bytes: Seq<u8>, h: int) -> Seq<RawModel>
    decreases bytes.len(),
{
    if h < 4 || bytes.len() < h || bytes.len() - h < path_len(bytes, h) {
        Seq::empty()
    } else {
        let n = path_len(bytes, h);
        seq![RawModel { head: bytes.take(h), path: bytes.subrange(h, h + n) }] + records(
            bytes.skip(h + n),
            h,
        )
    }
}

/// Whether no record of the file has its path cut off.
pub open spec fn whole_records(bytes: Seq<u8>, h: int) -> bool
    decreases bytes.len(),
{
    if h < 4 || bytes.len() < h {
        true
    } else if bytes.len() - h < path_len(bytes, h) {
        false
    } else {
        whole_records(bytes.skip(h + path_len(bytes, h)), h)
    }
}

fn bytes_eq(a: &[u8], b: &[u8]) -> (r: bool)
    ensures
        r == (a@ == b@),
{
    if a.len() != b.len() {
        return false;
    }
    let mut i: usize = 0;
    while i < a.len()
        invariant
            i <= a.len(),
            a.len() == b.len(),
            forall|j: int| 0 <= j < i ==> a@[j] == b@[j],
        decreases a.len() - i,
    {
        if a[i] != b[i] {
            return false;
        }
        i = i + 1;
    }
    proof {
        assert(a@ =~= b@);
    }
    true
}

fn body_of<'a>(bytes: &'a [u8], magic: &[u8]) -> (r: &'a [u8])
    ensures
        r@ == after_magic(bytes@, magic@),
{
    if bytes.len() >= magic.len() && bytes_eq(slice_subrange(bytes, 0, magic.len()), magic) {
        let r = slice_subrange(bytes, magic.len(), bytes.len());
        proof {
            assert(r@ =~= bytes@.skip(magic@.len() as int));
        }
        r
    } else {
        bytes
    }
}

/// The records of a file, and whether none of them is cut off.
fn read_records(bytes: &[u8], h: usize) -> (r: (Vec<RawRecord>, bool))
    requires
        4 <= h <= 64,
    ensures
        raw_views(r.0@) == records(bytes@, h as int),
        r.1 == whole_records(bytes@, h as int),
{
    let mut out: Vec<RawRecord> = Vec::new();
    let mut pos: usize = 0;
    proof {
        assert(bytes@.skip(0) =~= bytes@);
        assert(raw_views(out@) + records(bytes@.skip(0), h as int) =~= records(bytes@, h as int));
    }
    while bytes.len() - pos >= h
        invariant
            4 <= h <= 64,
            pos <= bytes.len(),
            raw_views(out@) + records(bytes@.skip(pos as int), h as int) == records(
                bytes@,
                h as int,
            ),
            whole_records(bytes@.skip(pos as int), h as int) == whole_records(bytes@, h as int),
        decreases bytes.len() - pos,
    {
        let ghost rest = bytes@.skip(pos as int);
        let head = slice_subrange(bytes, pos, pos + h);
        let n: usize = u32_from_le_bytes(slice_subrange(head, h - 4, h)) as usize;
        proof {
            assert(head@ =~= rest.take(h as int));
            assert(head@.subrange(h - 4, h as int) =~= rest.subrange(h - 4, h as int));
        }
        if bytes.len() - pos - h < n {
            proof {
                assert(raw_views(out@) + Seq::empty() =~= raw_views(out@));
            }
            return (out, false);
        }
        let path = slice_subrange(bytes, pos + h, pos + h + n);
        let ghost before = raw_views(out@);
        let rec = RawRecord { head: slice_to_vec(head), path: slice_to_vec(path) };
        out.push(rec);
        proof {
            assert(path@ =~= rest.subrange(h as int, h + n));
            assert(raw_views(out@) =~= before.push(rec@));
            assert(rest.skip(h + n) =~= bytes@.skip(pos + h + n));
            assert(before + (seq![rec@] + records(rest.skip(h + n), h as int)) =~= raw_views(out@)
                + records(bytes@.skip(pos + h + n), h as int));
        }
        pos = pos + h + n;
    }
    proof {
        assert(raw_views(out@) + Seq::empty() =~= raw_views(out@));
    }
    (out, true)
}

/// The scan event of a record.
pub open spec fn scan_event_of(r: RawModel) -> ScanModel {
    ScanModel {
        uid: vstd::bytes::spec_u32_from_le_bytes(r.head.subrange(0, 4)),
        size: vstd::bytes::spec_u64_from_le_bytes(r.head.subrange(4, 12)),
        path: text_of(r.path),
    }
}

/// The directory size of a record.
pub open spec fn dir_agg_of(r: RawModel) -> DirAggModel {
    DirAggModel {
        uid: vstd::bytes::spec_u32_from_le_bytes(r.head.subrange(0, 4)),
        size: vstd::bytes::spec_u64_from_le_bytes(r.head.subrange(4, 12)) as i64,
        path: text_of(r.path),
    }
}

/// The directory owner of a record.
pub open spec fn dir_owner_of(r: RawModel) -> DirOwnerModel {
    DirOwnerModel {
        uid: vstd::bytes::spec_u32_from_le_bytes(r.head.subrange(0, 4)),
        path: text_of(r.path),
    }
}

/// The scan events of a file.
pub open spec fn scan_events_of(bytes: Seq<u8>) -> Seq<ScanModel> {
    records(after_magic(bytes, scan_magic()), 16).map_values(|r: RawModel| scan_event_of(r))
}

/// The directory sizes of a file.
pub open spec fn dir_aggs_of(bytes: Seq<u8>) -> Seq<DirAggModel> {
    records(after_magic(bytes, dir_agg_magic()), 16).map_values(|r: RawModel| dir_agg_of(r))
}

/// The directory owners of a file.
pub open spec fn dir_owners_of(bytes: Seq<u8>) -> Seq<DirOwnerModel> {
    records(after_magic(bytes, dir_owner_magic()), 8).map_values(|r: RawModel| dir_owner_of(r))
}

proof fn lemma_record_heads(bytes: Seq<u8>, h: int)
    requires
        4 <= h,
    ensures
        forall|i: int|
            0 <= i < records(bytes, h).len() ==> (#[trigger] records(bytes, h)[i]).head.len() == h,
    decreases bytes.len(),
{
    if bytes.len() >= h && bytes.len() - h >= path_len(bytes, h) {
        let rest = bytes.skip(h + path_len(bytes, h));
        lemma_record_heads(rest, h);
        assert forall|i: int| 0 <= i < records(bytes, h).len() implies (#[trigger] records(
            bytes,
            h,
        )[i]).head.len() == h by {
            if i > 0 {
                assert(records(bytes, h)[i] == records(rest, h)[i - 1]);
            }
        }
    }
}

/// The scan events of a file's bytes, in order, up to the first record whose
/// path is cut off, and whether there was none such.
pub fn for_each_scan_event_in_file(bytes: &[u8]) -> (r: (Vec<ScanEvent>, bool))
    ensures
        scan_views(r.0@) == scan_events_of(bytes@),
        r.1 == whole_records(after_magic(bytes@, scan_magic()), 16),
{
    let magic = scan_event_bin_magic();
    let (raw, whole) = read_records(body_of(bytes, &magic), 16);
    let mut out: Vec<ScanEvent> = Vec::new();
    let mut i: usize = 0;
    let ghost all = scan_events_of(bytes@);
    proof {
        lemma_record_heads(after_magic(bytes@, scan_magic()), 16);
        assert(all.len() == raw_views(raw@).len());
        assert(raw_views(raw@).len() == raw@.len());
    }
    while i < raw.len()
        invariant
            i <= raw.len(),
            raw_views(raw@) == records(after_magic(bytes@, scan_magic()), 16),
            all == scan_events_of(bytes@),
            all.len() == raw@.len(),
            forall|j: int|
                0 <= j < raw_views(raw@).len() ==> (#[trigger] raw_views(raw@)[j]).head.len() == 16,
            scan_views(out@) == all.take(i as int),
        decreases raw.len() - i,
    {
        let rec = &raw[i];
        proof {
            assert(raw_views(raw@)[i as int] == rec@);
        }
        let e = ScanEvent {
            uid: u32_from_le_bytes(slice_subrange(rec.head.as_slice(), 0, 4)),
            size: u64_from_le_bytes(slice_subrange(rec.head.as_slice(), 4, 12)),
            path: text_from_bytes(rec.path.as_slice()),
        };
        let ghost before = scan_views(out@);
        out.push(e);
        proof {
            assert(e@ == all[i as int]);
            assert(scan_views(out@) =~= before.push(e@));
            assert(all.take(i + 1) =~= all.take(i as int).push(all[i as int]));
        }
        i = i + 1;
    }
    proof {
        assert(all.take(all.len() as int) =~= all);
    }
    (out, whole)
}

/// The directory sizes of a file's bytes, in order, up to the first record
/// whose path is cut off, and whether there was none such.
pub fn for_each_dir_agg_in_file(bytes: &[u8]) -> (r: (Vec<DirAggEvent>, bool))
    ensures
        dir_agg_views(r.0@) == dir_aggs_of(bytes@),
        r.1 == whole_records(after_magic(bytes@, dir_agg_magic()), 16),
{
    let magic = dir_agg_bin_magic();
    let (raw, whole) = read_records(body_of(bytes, &magic), 16);
    let mut out: Vec<DirAggEvent> = Vec::new();
    let mut i: usize = 0;
    let ghost all = dir_aggs_of(bytes@);
    proof {
        lemma_record_heads(after_magic(bytes@, dir_agg_magic()), 16);
        assert(all.len() == raw_views(raw@).len());
        assert(raw_views(raw@).len() == raw@.len());
    }
    while i < raw.len()
        invariant
            i <= raw.len(),
            raw_views(raw@) == records(after_magic(bytes@, dir_agg_magic()), 16),
            all == dir_aggs_of(bytes@),
            all.len() == raw@.len(),
            forall|j: int|
                0 <= j < raw_views(raw@).len() ==> (#[trigger] raw_views(raw@)[j]).head.len() == 16,
            dir_agg_views(out@) == all.take(i as int),
        decreases raw.len() - i,
    {
        let rec = &raw[i];
        proof {
            assert(raw_views(raw@)[i as int] == rec@);
        }
        let e = DirAggEvent {
            uid: u32_from_le_bytes(slice_subrange(rec.head.as_slice(), 0, 4)),
            size: u64_from_le_bytes(slice_subrange(rec.head.as_slice(), 4, 12)) as i64,
            path: text_from_bytes(rec.path.as_slice()),
        };
        let ghost before = dir_agg_views(out@);
        out.push(e);
        proof {
            assert(e@ == all[i as int]);
            assert(dir_agg_views(out@) =~= before.push(e@));
            assert(all.take(i + 1) =~= all.take(i as int).push(all[i as int]));
        }
        i = i + 1;
    }
    proof {
        assert(all.take(all.len() as int) =~= all);
    }
    (out, whole)
}

/// The directory owners of a file's bytes, in order, up to the first record
/// whose path is cut off, and whether there was none such.
pub fn for_each_dir_owner_in_file(bytes: &[u8]) -> (r: (Vec<DirOwnerEvent>, bool))
    ensures
        dir_owner_views(r.0@) == dir_owners_of(bytes@),
        r.1 == whole_records(after_magic(bytes@, dir_owner_magic()), 8),
{
    let magic = dir_owner_bin_magic();
    let (raw, whole) = read_records(body_of(bytes, &magic), 8);
    let mut out: Vec<DirOwnerEvent> = Vec::new();
    let mut i: usize = 0;
    let ghost all = dir_owners_of(bytes@);
    proof {
        lemma_record_heads(after_magic(bytes@, dir_owner_magic()), 8);
        assert(all.len() == raw_views(raw@).len());
        assert(raw_views(raw@).len() == raw@.len());
    }
    while i < raw.len()
        invariant
            i <= raw.len(),
            raw_views(raw@) == records(after_magic(bytes@, dir_owner_magic()), 8),
            all == dir_owners_of(bytes@),
            all.len() == raw@.len(),
            forall|j: int|
                0 <= j < raw_views(raw@).len() ==> (#[trigger] raw_views(raw@)[j]).head.len() == 8,
            dir_owner_views(out@) == all.take(i as int),
        decreases raw.len() - i,
    {
        let rec = &raw[i];
        proof {
            assert(raw_views(raw@)[i as int] == rec@);
        }
        let e = DirOwnerEvent {
            uid: u32_from_le_bytes(slice_subrange(rec.head.as_slice(), 0, 4)),
            path: text_from_bytes(rec.path.as_slice()),
        };
        let ghost before = dir_owner_views(out@);
        out.push(e);
        proof {
            assert(e@ == all[i as int]);
            assert(dir_owner_views(out@) =~= before.push(e@));
            assert(all.take(i + 1) =~= all.take(i as int).push(all[i as int]));
        }
        i = i + 1;
    }
    proof {
        assert(all.take(all.len() as int) =~= all);
    }
    (out, whole)
}

// ---------------------------------------------------------------------------
// Writing records
// ---------------------------------------------------------------------------

/// A record whose header begins with `head`.
pub open spec fn encoded_record(head: Seq<u8>, path: Seq<u8>) -> Seq<u8> {
    head + vstd::bytes::spec_u32_to_le_bytes(path.len() as u32) + path
}

/// A scan event as it is written.
pub open spec fn scan_record(e: ScanModel) -> Seq<u8> {
    encoded_record(
        vstd::bytes::spec_u32_to_le_bytes(e.uid) + vstd::bytes::spec_u64_to_le_bytes(e.size),
        vstd::utf8::encode_utf8(e.path),
    )
}

/// A directory size as it is written.
pub open spec fn dir_agg_record(e: DirAggModel) -> Seq<u8> {
    encoded_record(
        vstd::bytes::spec_u32_to_le_bytes(e.uid) + vstd::bytes::spec_u64_to_le_bytes(e.size as u64),
        vstd::utf8::encode_utf8(e.path),
    )
}

/// A directory owner as it is written.
pub open spec fn dir_owner_record(e: DirOwnerModel) -> Seq<u8> {
    encoded_record(
        vstd::bytes::spec_u32_to_le_bytes(e.uid),
        vstd::utf8::encode_utf8(e.path),
    )
}

/// Whether the length of a path fits its field.
pub open spec fn path_fits(path: Seq<char>) -> bool {
    vstd::utf8::encode_utf8(path).len() <= u32::MAX
}

/// Scan events, one after the other.
pub open spec fn scan_body(events: Seq<ScanModel>) -> Seq<u8>
    decreases events.len(),
{
    if events.len() == 0 {
        Seq::empty()
    } else {
        scan_record(events[0]) + scan_body(events.drop_first())
    }
}

/// Directory sizes, one after the other.
pub open spec fn dir_agg_body(events: Seq<DirAggModel>) -> Seq<u8>
    decreases events.len(),
{
    if events.len() == 0 {
        Seq::empty()
    } else {
        dir_agg_record(events[0]) + dir_agg_body(events.drop_first())
    }
}

/// Directory owners, one after the other.
pub open spec fn dir_owner_body(events: Seq<DirOwnerModel>) -> Seq<u8>
    decreases events.len(),
{
    if events.len() == 0 {
        Seq::empty()
    } else {
        dir_owner_record(events[0]) + dir_owner_body(events.drop_first())
    }
}

proof fn lemma_encoded_record(head: Seq<u8>, path: Seq<u8>, rest: Seq<u8>, h: int)
    requires
        head.len() + 4 == h,
        path.len() <= u32::MAX,
    ensures
        ({
            let all = encoded_record(head, path) + rest;
            &&& records(all, h) == seq![
                RawModel {
                    head: head + vstd::bytes::spec_u32_to_le_bytes(path.len() as u32),
                    path: path,
                },
            ] + records(rest, h)
            &&& whole_records(all, h) == whole_records(rest, h)
        }),
{
    vstd::bytes::lemma_auto_spec_u32_to_from_le_bytes();
    let field = vstd::bytes::spec_u32_to_le_bytes(path.len() as u32);
    let all = encoded_record(head, path) + rest;
    assert(field.len() == 4);
    assert(all.subrange(h - 4, h) =~= field);
    assert(path_len(all, h) == path.len());
    assert(all.take(h) =~= head + field);
    assert(all.subrange(h, h + path.len()) =~= path);
    assert(all.skip(h + path.len()) =~= rest);
}

/// Appends a record.
fn push_record(out: &mut Vec<u8>, head: &[u8], path: &str)
    requires
        path_fits(path@),
    ensures
        final(out)@ == old(out)@ + encoded_record(head@, vstd::utf8::encode_utf8(path@)),
{
    let bytes = path.as_bytes();
    let field = u32_to_le_bytes(bytes.len() as u32);
    push_bytes(out, head);
    push_bytes(out, &field);
    push_bytes(out, bytes);
    proof {
        assert(out@ =~= old(out)@ + encoded_record(head@, vstd::utf8::encode_utf8(path@)));
    }
}

/// Appends bytes.
pub(crate) fn push_bytes(out: &mut Vec<u8>, bytes: &[u8])
    ensures
        final(out)@ == old(out)@ + bytes@,
{
    let mut i: usize = 0;
    while i < bytes.len()
        invariant
            i <= bytes.len(),
            out@ == old(out)@ + bytes@.take(i as int),
        decreases bytes.len() - i,
    {
        out.push(bytes[i]);
        proof {
            assert(bytes@.take(i + 1) =~= bytes@.take(i as int).push(bytes@[i as int]));
        }
        i = i + 1;
    }
    proof {
        assert(bytes@.take(bytes@.len() as int) =~= bytes@);
    }
}

/// Appends a scan event to the bytes of its file.
pub fn push_scan_event(out: &mut Vec<u8>, e: &ScanEvent)
    requires
        path_fits(e.path@),
    ensures
        final(out)@ == old(out)@ + scan_record(e@),
{
    let mut head = u32_to_le_bytes(e.uid);
    let size = u64_to_le_bytes(e.size);
    push_bytes(&mut head, &size);
    push_record(out, &head, e.path.as_str());
}

/// Appends a directory size to the bytes of its file.
pub fn push_dir_agg(out: &mut Vec<u8>, e: &DirAggEvent)
    requires
        path_fits(e.path@),
    ensures
        final(out)@ == old(out)@ + dir_agg_record(e@),
{
    let mut head = u32_to_le_bytes(e.uid);
    let size = u64_to_le_bytes(e.size as u64);
    push_bytes(&mut head, &size);
    push_record(out, &head, e.path.as_str());
}

/// Appends a directory owner to the bytes of its file.
pub fn push_dir_owner(out: &mut Vec<u8>, e: &DirOwnerEvent)
    requires
        path_fits(e.path@),
    ensures
        final(out)@ == old(out)@ + dir_owner_record(e@),
{
    let head = u32_to_le_bytes(e.uid);
    push_record(out, &head, e.path.as_str());
}

proof fn lemma_read_scan_body(events: Seq<ScanModel>)
    requires
        forall|i: int| 0 <= i < events.len() ==> path_fits((#[trigger] events[i]).path),
    ensures
        records(scan_body(events), 16).map_values(|r: RawModel| scan_event_of(r)) == events,
        whole_records(scan_body(events), 16),
    decreases events.len(),
{
    let f = |r: RawModel| scan_event_of(r);
    if events.len() == 0 {
        assert(records(scan_body(events), 16).map_values(f) =~= events);
    } else {
        let e = events[0];
        let rest = events.drop_first();
        lemma_read_scan_body(rest);
        vstd::bytes::lemma_auto_spec_u32_to_from_le_bytes();
        vstd::bytes::lemma_auto_spec_u64_to_from_le_bytes();
        let u = vstd::bytes::spec_u32_to_le_bytes(e.uid);
        let z = vstd::bytes::spec_u64_to_le_bytes(e.size);
        let path = vstd::utf8::encode_utf8(e.path);
        lemma_encoded_record(u + z, path, scan_body(rest), 16);
        lemma_text_of_encoded(e.path);
        let head = u + z + vstd::bytes::spec_u32_to_le_bytes(path.len() as u32);
        assert(head.subrange(0, 4) =~= u);
        assert(head.subrange(4, 12) =~= z);
        let first = RawModel { head: head, path: path };
        assert(f(first) =~= e);
        assert(records(scan_body(events), 16) == seq![first] + records(scan_body(rest), 16));
        assert((seq![first] + records(scan_body(rest), 16)).map_values(f) =~= seq![e] + records(
            scan_body(rest),
            16,
        ).map_values(f));
        assert(seq![e] + rest =~= events);
    }
}

/// Reading a file of scan events gives back the events that were written.
pub proof fn law_read_of_written_scan_events(events: Seq<ScanModel>)
    requires
        forall|i: int| 0 <= i < events.len() ==> path_fits((#[trigger] events[i]).path),
    ensures
        scan_events_of(scan_magic() + scan_body(events)) == events,
        whole_records(after_magic(scan_magic() + scan_body(events), scan_magic()), 16),
{
    let file = scan_magic() + scan_body(events);
    assert(scan_magic().is_prefix_of(file)) by {
        assert(file.subrange(0, 8) =~= scan_magic());
    }
    assert(file.skip(8) =~= scan_body(events));
    lemma_read_scan_body(events);
}

proof fn lemma_i64_roundtrip(x: i64)
    ensures
        (x as u64) as i64 == x,
{
    assert((x as u64) as i64 == x) by (bit_vector);
}

proof fn lemma_read_dir_agg_body(events: Seq<DirAggModel>)
    requires
        forall|i: int| 0 <= i < events.len() ==> path_fits((#[trigger] events[i]).path),
    ensures
        records(dir_agg_body(events), 16).map_values(|r: RawModel| dir_agg_of(r)) == events,
        whole_records(dir_agg_body(events), 16),
    decreases events.len(),
{
    let f = |r: RawModel| dir_agg_of(r);
    if events.len() == 0 {
        assert(records(dir_agg_body(events), 16).map_values(f) =~= events);
    } else {
        let e = events[0];
        let rest = events.drop_first();
        lemma_read_dir_agg_body(rest);
        vstd::bytes::lemma_auto_spec_u32_to_from_le_bytes();
        vstd::bytes::lemma_auto_spec_u64_to_from_le_bytes();
        lemma_i64_roundtrip(e.size);
        let u = vstd::bytes::spec_u32_to_le_bytes(e.uid);
        let z = vstd::bytes::spec_u64_to_le_bytes(e.size as u64);
        let path = vstd::utf8::encode_utf8(e.path);
        lemma_encoded_record(u + z, path, dir_agg_body(rest), 16);
        lemma_text_of_encoded(e.path);
        let head = u + z + vstd::bytes::spec_u32_to_le_bytes(path.len() as u32);
        assert(head.subrange(0, 4) =~= u);
        assert(head.subrange(4, 12) =~= z);
        let first = RawModel { head: head, path: path };
        assert(f(first) =~= e);
        assert(records(dir_agg_body(events), 16) == seq![first] + records(dir_agg_body(rest), 16));
        assert((seq![first] + records(dir_agg_body(rest), 16)).map_values(f) =~= seq![e] + records(
            dir_agg_body(rest),
            16,
        ).map_values(f));
        assert(seq![e] + rest =~= events);
    }
}

/// Reading a file of directory sizes gives back the sizes that were written.
pub proof fn law_read_of_written_dir_aggs(events: Seq<DirAggModel>)
    requires
        forall|i: int| 0 <= i < events.len() ==> path_fits((#[trigger] events[i]).path),
    ensures
        dir_aggs_of(dir_agg_magic() + dir_agg_body(events)) == events,
        whole_records(after_magic(dir_agg_magic() + dir_agg_body(events), dir_agg_magic()), 16),
{
    let file = dir_agg_magic() + dir_agg_body(events);
    assert(dir_agg_magic().is_prefix_of(file)) by {
        assert(file.subrange(0, 8) =~= dir_agg_magic());
    }
    assert(file.skip(8) =~= dir_agg_body(events));
    lemma_read_dir_agg_body(events);
}

proof fn lemma_read_dir_owner_body(events: Seq<DirOwnerModel>)
    requires
        forall|i: int| 0 <= i < events.len() ==> path_fits((#[trigger] events[i]).path),
    ensures
        records(dir_owner_body(events), 8).map_values(|r: RawModel| dir_owner_of(r)) == events,
        whole_records(dir_owner_body(events), 8),
    decreases events.len(),
{
    let f = |r: RawModel| dir_owner_of(r);
    if events.len() == 0 {
        assert(records(dir_owner_body(events), 8).map_values(f) =~= events);
    } else {
        let e = events[0];
        let rest = events.drop_first();
        lemma_read_dir_owner_body(rest);
        vstd::bytes::lemma_auto_spec_u32_to_from_le_bytes();
        let u = vstd::bytes::spec_u32_to_le_bytes(e.uid);
        let path = vstd::utf8::encode_utf8(e.path);
        lemma_encoded_record(u, path, dir_owner_body(rest), 8);
        lemma_text_of_encoded(e.path);
        let head = u + vstd::bytes::spec_u32_to_le_bytes(path.len() as u32);
        assert(head.subrange(0, 4) =~= u);
        let first = RawModel { head: head, path: path };
        assert(f(first) =~= e);
        assert(records(dir_owner_body(events), 8) == seq![first] + records(
            dir_owner_body(rest),
            8,
        ));
        assert((seq![first] + records(dir_owner_body(rest), 8)).map_values(f) =~= seq![e]
            + records(dir_owner_body(rest), 8).map_values(f));
        assert(seq![e] + rest =~= events);
    }
}

/// Reading a file of directory owners gives back the owners that were written.
pub proof fn law_read_of_written_dir_owners(events: Seq<DirOwnerModel>)
    requires
        forall|i: int| 0 <= i < events.len() ==> path_fits((#[trigger] events[i]).path),
    ensures
        dir_owners_of(dir_owner_magic() + dir_owner_body(events)) == events,
        whole_records(
            after_magic(dir_owner_magic() + dir_owner_body(events), dir_owner_magic()),
            8,
        ),
{
    let file = dir_owner_magic() + dir_owner_body(events);
    assert(dir_owner_magic().is_prefix_of(file)) by {
        assert(file.subrange(0, 8) =~= dir_owner_magic());
    }
    assert(file.skip(8) =~= dir_owner_body(events));
    lemma_read_dir_owner_body(events);
}

// ---------------------------------------------------------------------------
// Permission issues
// ---------------------------------------------------------------------------

/// The fields of a line: at most `n` pieces between tabs, the last with the
/// tabs that are left.
pub open spec fn fields(s: Seq<char>, n: nat) -> Seq<Seq<char>>
    decreases n,
{
    let f = text::find(s, '\t');
    if n <= 1 || f < 0 || f >= s.len() {
        seq![s]
    } else {
        seq![s.take(f)] + fields(s.skip(f + 1), (n - 1) as nat)
    }
}

fn split_fields(s: &[char], n: usize) -> (r: Vec<Vec<char>>)
    requires
        n >= 1,
    ensures
        text::rows(r@) == fields(s@, n as nat),
{
    let mut r: Vec<Vec<char>> = Vec::new();
    let mut start: usize = 0;
    let mut left: usize = n;
    proof {
        assert(s@.skip(0) =~= s@);
        assert(text::rows(r@) + fields(s@.skip(0), n as nat) =~= fields(s@, n as nat));
    }
    loop
        invariant_except_break
            1 <= left <= n,
            start <= s.len(),
            text::rows(r@) + fields(s@.skip(start as int), left as nat) == fields(s@, n as nat),
        ensures
            text::rows(r@) == fields(s@, n as nat),
        decreases left,
    {
        let rest = slice_subrange(s, start, s.len());
        proof {
            assert(rest@ =~= s@.skip(start as int));
            text::lemma_find(rest@, '\t');
        }
        let ghost before = text::rows(r@);
        let f: usize = text::find_char(rest, '\t');
        if left == 1 || f >= rest.len() {
            let piece = slice_to_vec(rest);
            r.push(piece);
            proof {
                assert(text::rows(r@) =~= before + seq![rest@]);
            }
            break;
        }
        let piece = slice_to_vec(slice_subrange(rest, 0, f));
        r.push(piece);
        proof {
            assert(piece@ =~= rest@.take(f as int));
            assert(text::rows(r@) =~= before.push(rest@.take(f as int)));
            assert(rest@.skip(f + 1) =~= s@.skip(start + f + 1));
            assert(before + (seq![rest@.take(f as int)] + fields(
                rest@.skip(f + 1),
                (left - 1) as nat,
            )) =~= text::rows(r@) + fields(s@.skip(start + f + 1), (left - 1) as nat));
        }
        start = start + f + 1;
        left = left - 1;
    }
    r
}

/// The permission issue of a line: `P`, the uid, the kind, the error and the
/// path, with tabs between; the path may be missing.
pub open spec fn permission_of_line(line: Seq<char>) -> Option<PermissionModel> {
    let parts = fields(line, 5);
    if parts.len() < 4 || parts[0] != seq!['P'] {
        None
    } else {
        match text::parse_unsigned(text::trim(parts[1]), u32::MAX as nat) {
            Some(uid) => Some(
                PermissionModel {
                    uid: uid as u32,
                    kind: parts[2],
                    errcode: parts[3],
                    path: if parts.len() == 5 {
                        parts[4]
                    } else {
                        Seq::empty()
                    },
                },
            ),
            None => None,
        }
    }
}

/// A line has at most as many fields as it may have.
proof fn lemma_fields_len(s: Seq<char>, n: nat)
    requires
        n >= 1,
    ensures
        1 <= fields(s, n).len() <= n,
    decreases n,
{
    let f = text::find(s, '\t');
    text::lemma_find(s, '\t');
    if n > 1 && f < s.len() {
        lemma_fields_len(s.skip(f + 1), (n - 1) as nat);
    }
}

/// The permission issue of a line.
pub fn parse_permission_line(line: &str) -> (r: Option<PermissionEvent>)
    ensures
        r is Some <==> permission_of_line(line@) is Some,
        r matches Some(e) ==> permission_of_line(line@) == Some(e@),
{
    let s = text::to_chars(line);
    let parts = split_fields(&s, 5);
    proof {
        lemma_fields_len(line@, 5);
        assert(text::rows(parts@).len() == parts@.len());
        assert(forall|i: int|
            0 <= i < parts@.len() ==> (#[trigger] text::rows(parts@)[i]) == parts@[i]@);
    }
    if parts.len() < 4 {
        return None;
    }
    let tag = &parts[0];
    if !(tag.len() == 1 && tag[0] == 'P') {
        proof {
            if tag@ == seq!['P'] {
                assert(tag@.len() == 1 && tag@[0] == 'P');
            }
        }
        return None;
    }
    proof {
        assert(tag@ =~= seq!['P']);
    }
    match text::read_unsigned(text::trim_chars(&parts[1]), u32::MAX as u64) {
        None => None,
        Some(uid) => {
            let path = if parts.len() == 5 {
                text::from_chars(&parts[4])
            } else {
                String::new()
            };
            let e = PermissionEvent {
                uid: uid as u32,
                kind: text::from_chars(&parts[2]),
                errcode: text::from_chars(&parts[3]),
                path,
            };
            proof {
                assert(permission_of_line(line@) matches Some(m) && m =~= e@);
            }
            Some(e)
        },
    }
}

/// The permission issues of a file's lines; other lines are passed over.
pub open spec fn permissions_of(file: Seq<char>) -> Seq<PermissionModel> {
    text::lines(file).filter_map(|l: Seq<char>| permission_of_line(l))
}

/// The permission issues of a file's text.
pub fn read_permission_events(file: &str) -> (r: Vec<PermissionEvent>)
    ensures
        permission_views(r@) == permissions_of(file@),
{
    let s = text::to_chars(file);
    let ls = text::line_chars(&s);
    let mut out: Vec<PermissionEvent> = Vec::new();
    let mut i: usize = 0;
    let ghost f = |l: Seq<char>| permission_of_line(l);
    let ghost all = text::lines(file@);
    proof {
        assert(text::rows(ls@).len() == ls@.len());
        assert(all.take(0).filter_map(f) =~= Seq::empty());
    }
    while i < ls.len()
        invariant
            i <= ls.len(),
            text::rows(ls@) == all,
            all.len() == ls@.len(),
            f == (|l: Seq<char>| permission_of_line(l)),
            permission_views(out@) == all.take(i as int).filter_map(f),
        decreases ls.len() - i,
    {
        proof {
            assert(all[i as int] == ls@[i as int]@);
            all.lemma_filter_map_take_succ(f, i as int);
        }
        let line = text::from_chars(&ls[i]);
        match parse_permission_line(line.as_str()) {
            Some(e) => {
                let ghost before = permission_views(out@);
                out.push(e);
                proof {
                    assert(permission_views(out@) =~= before.push(e@));
                }
            },
            None => {},
        }
        i = i + 1;
    }
    proof {
        assert(all.take(all.len() as int) =~= all);
    }
    out
}

/// A permission issue as it is written: one line without its line feed.
pub open spec fn permission_line_of(e: PermissionModel) -> Seq<char> {
    seq!['P', '\t'] + text::dec(e.uid as nat) + seq!['\t'] + e.kind + seq!['\t'] + e.errcode
        + seq!['\t'] + e.path
}

/// A permission issue as it is written.
pub fn permission_line(e: &PermissionEvent) -> (r: String)
    ensures
        r@ == permission_line_of(e@),
{
    let mut r: String = String::new();
    r.push('P');
    r.push('\t');
    r.append(text::dec_string(e.uid as u64).as_str());
    r.push('\t');
    r.append(e.kind.as_str());
    r.push('\t');
    r.append(e.errcode.as_str());
    r.push('\t');
    r.append(e.path.as_str());
    proof {
        assert(r@ =~= permission_line_of(e@));
    }
    r
}

proof fn lemma_first_field(a: Seq<char>, rest: Seq<char>, n: nat)
    requires
        n > 1,
        !a.contains('\t'),
    ensures
        fields(a + seq!['\t'] + rest, n) == seq![a] + fields(rest, (n - 1) as nat),
{
    let s = a + seq!['\t'] + rest;
    assert forall|j: int| 0 <= j < a.len() implies s[j] != '\t' by {
        assert(s[j] == a[j]);
        assert(a.contains(a[j]));
    }
    assert(s[a.len() as int] == '\t');
    text::lemma_find_unique(s, '\t', a.len() as int);
    assert(s.take(a.len() as int) =~= a);
    assert(s.skip(a.len() as int + 1) =~= rest);
}

/// Reading a written permission issue gives it back, where its kind and its
/// error hold no tab.
pub proof fn law_read_of_written_permission(e: PermissionModel)
    requires
        !e.kind.contains('\t'),
        !e.errcode.contains('\t'),
    ensures
        permission_of_line(permission_line_of(e)) == Some(e),
{
    let d = text::dec(e.uid as nat);
    text::lemma_dec_digits(e.uid as nat);
    assert(!d.contains('\t')) by {
        if d.contains('\t') {
            let k = choose|k: int| 0 <= k < d.len() && d[k] == '\t';
            assert(text::is_digit_char(d[k]));
        }
    }
    let p = seq!['P'];
    assert(!p.contains('\t'));
    let t = seq!['\t'];
    let r4 = e.path;
    let r3 = e.errcode + t + r4;
    let r2 = e.kind + t + r3;
    let r1 = d + t + r2;
    assert(permission_line_of(e) =~= p + t + r1);
    lemma_first_field(p, r1, 5);
    lemma_first_field(d, r2, 4);
    lemma_first_field(e.kind, r3, 3);
    lemma_first_field(e.errcode, r4, 2);
    assert(fields(r4, 1) =~= seq![r4]);
    assert(fields(permission_line_of(e), 5) =~= seq![p, d, e.kind, e.errcode, e.path]);
    text::lemma_trim_of_digits(d);
    text::law_read_of_written_number(e.uid as nat, u32::MAX as nat);
}

/// The owner that a permission issue is listed under.
pub open spec fn issue_owner(uid: u32, uids: Map<u32, Seq<char>>) -> Seq<char> {
    if uids.contains_key(uid) {
        uids[uid]
    } else if uid == 0 {
        "__unknown__"@
    } else {
        uid_name(uid as int)
    }
}

/// The name of a user that no map knows.
pub open spec fn uid_name(uid: int) -> Seq<char> {
    "uid-"@ + text::dec_int(uid)
}

/// The names of a map from uids.
pub open spec fn names_of(m: Map<u32, String>) -> Map<u32, Seq<char>> {
    m.map_values(|s: String| s@)
}

/// The name of a user that no map knows.
pub fn unknown_user(uid: i64) -> (r: String)
    ensures
        r@ == uid_name(uid as int),
{
    let mut r: String = "uid-".to_owned();
    r.append(text::dec_int_string(uid).as_str());
    r
}

/// The name of a user: the one that the map gives, else one made of the uid.
pub open spec fn user_name(uid: u32, uids: Map<u32, Seq<char>>) -> Seq<char> {
    if uids.contains_key(uid) {
        uids[uid]
    } else {
        uid_name(uid as int)
    }
}

/// The name of a user.
pub fn name_of_uid(uid: u32, uids: &HashMap<u32, String>) -> (r: String)
    ensures
        r@ == user_name(uid, names_of(uids@)),
{
    broadcast use vstd::std_specs::hash::group_hash_axioms;

    match uids.get(&uid) {
        Some(name) => name.clone(),
        None => unknown_user(uid as i64),
    }
}

/// A row of the table of permission issues.
pub struct IssueRow {
    pub user: String,
    pub item_type: String,
    pub error: String,
    pub path: String,
}

#[verifier::ext_equal]
pub struct IssueModel {
    pub user: Seq<char>,
    pub item_type: Seq<char>,
    pub error: Seq<char>,
    pub path: Seq<char>,
}

impl View for IssueRow {
    type V = IssueModel;

    open spec fn view(&self) -> IssueModel {
        IssueModel {
            user: self.user@,
            item_type: self.item_type@,
            error: self.error@,
            path: self.path@,
        }
    }
}

/// The row of a permission issue.
pub open spec fn issue_of(e: PermissionModel, uids: Map<u32, Seq<char>>) -> IssueModel {
    IssueModel {
        user: issue_owner(e.uid, uids),
        item_type: e.kind,
        error: e.errcode,
        path: e.path,
    }
}

/// The row of a permission issue.
pub fn issue_row(e: &PermissionEvent, uids: &HashMap<u32, String>) -> (r: IssueRow)
    ensures
        r@ == issue_of(e@, names_of(uids@)),
{
    broadcast use vstd::std_specs::hash::group_hash_axioms;

    let user = match uids.get(&e.uid) {
        Some(name) => name.clone(),
        None => if e.uid == 0 {
            "__unknown__".to_owned()
        } else {
            unknown_user(e.uid as i64)
        },
    };
    IssueRow {
        user,
        item_type: e.kind.clone(),
        error: e.errcode.clone(),
        path: e.path.clone(),
    }
}

/// The layout of a scan event: four bytes of its uid, eight of its size and four of the
/// length of its path, each with the least byte first, and then the path.
pub proof fn law_layout_of_scan_events(e: ScanModel)
    requires
        path_fits(e.path),
    ensures
        scan_record(e).len() == 16 + vstd::utf8::encode_utf8(e.path).len(),
        scan_record(e).subrange(0, 4) == vstd::bytes::spec_u32_to_le_bytes(e.uid),
        scan_record(e).subrange(4, 12) == vstd::bytes::spec_u64_to_le_bytes(e.size),
        scan_record(e).subrange(12, 16) == vstd::bytes::spec_u32_to_le_bytes(
            vstd::utf8::encode_utf8(e.path).len() as u32,
        ),
        scan_record(e).skip(16) == vstd::utf8::encode_utf8(e.path),
{
    vstd::bytes::lemma_auto_spec_u32_to_from_le_bytes();
    vstd::bytes::lemma_auto_spec_u64_to_from_le_bytes();
    let r = scan_record(e);
    assert(r.subrange(0, 4) =~= vstd::bytes::spec_u32_to_le_bytes(e.uid));
    assert(r.subrange(4, 12) =~= vstd::bytes::spec_u64_to_le_bytes(e.size));
    assert(r.subrange(12, 16) =~= vstd::bytes::spec_u32_to_le_bytes(
        vstd::utf8::encode_utf8(e.path).len() as u32,
    ));
    assert(r.skip(16) =~= vstd::utf8::encode_utf8(e.path));
}

/// The layout of a directory size is that of a scan event, and the layout of an owner is
/// that without the size.
pub proof fn law_layout_of_directory_records(a: DirAggModel, o: DirOwnerModel)
    requires
        path_fits(a.path),
        path_fits(o.path),
    ensures
        dir_agg_record(a).len() == 16 + vstd::utf8::encode_utf8(a.path).len(),
        dir_agg_record(a).subrange(0, 4) == vstd::bytes::spec_u32_to_le_bytes(a.uid),
        dir_agg_record(a).subrange(4, 12) == vstd::bytes::spec_u64_to_le_bytes(a.size as u64),
        dir_agg_record(a).skip(16) == vstd::utf8::encode_utf8(a.path),
        dir_owner_record(o).len() == 8 + vstd::utf8::encode_utf8(o.path).len(),
        dir_owner_record(o).subrange(0, 4) == vstd::bytes::spec_u32_to_le_bytes(o.uid),
        dir_owner_record(o).subrange(4, 8) == vstd::bytes::spec_u32_to_le_bytes(
            vstd::utf8::encode_utf8(o.path).len() as u32,
        ),
        dir_owner_record(o).skip(8) == vstd::utf8::encode_utf8(o.path),
{
    vstd::bytes::lemma_auto_spec_u32_to_from_le_bytes();
    vstd::bytes::lemma_auto_spec_u64_to_from_le_bytes();
    let r = dir_agg_record(a);
    let q = dir_owner_record(o);
    assert(r.subrange(0, 4) =~= vstd::bytes::spec_u32_to_le_bytes(a.uid));
    assert(r.subrange(4, 12) =~= vstd::bytes::spec_u64_to_le_bytes(a.size as u64));
    assert(r.skip(16) =~= vstd::utf8::encode_utf8(a.path));
    assert(q.subrange(0, 4) =~= vstd::bytes::spec_u32_to_le_bytes(o.uid));
    assert(q.subrange(4, 8) =~= vstd::bytes::spec_u32_to_le_bytes(
        vstd::utf8::encode_utf8(o.path).len() as u32,
    ));
    assert(q.skip(8) =~= vstd::utf8::encode_utf8(o.path));
}

/// The mark at the start of each kind of file is eight letters that name the kind, and no
/// two kinds share one.
pub proof fn law_marks_of_files()
    ensures
        scan_magic() == seq!['C' as u8, 'D' as u8, 'S' as u8, 'K' as u8, 'S' as u8, 'E' as u8,
            'V' as u8, '1' as u8],
        dir_agg_magic() == seq!['C' as u8, 'D' as u8, 'S' as u8, 'K' as u8, 'D' as u8, 'A' as u8,
            'V' as u8, '1' as u8],
        dir_owner_magic() == seq!['C' as u8, 'D' as u8, 'S' as u8, 'K' as u8, 'D' as u8, 'O' as u8,
            'V' as u8, '1' as u8],
        scan_magic() != dir_agg_magic(),
        scan_magic() != dir_owner_magic(),
        dir_agg_magic() != dir_owner_magic(),
{
    assert(scan_magic()[4] != dir_agg_magic()[4]);
    assert(scan_magic()[4] != dir_owner_magic()[4]);
    assert(dir_agg_magic()[5] != dir_owner_magic()[5]);
}

/// A user that has a name goes by it; any other goes by `uid-` and the number.
pub proof fn law_names_of_uids(uid: u32, uids: Map<u32, Seq<char>>)
    ensures
        uids.contains_key(uid) ==> user_name(uid, uids) == uids[uid] && issue_owner(uid, uids)
            == uids[uid],
        !uids.contains_key(uid) ==> user_name(uid, uids) == seq!['u', 'i', 'd', '-'] + text::dec(
            uid as nat,
        ),
        !uids.contains_key(uid) && uid != 0 ==> issue_owner(uid, uids) == user_name(uid, uids),
{
    reveal_strlit("uid-");
    assert("uid-"@ =~= seq!['u', 'i', 'd', '-']);
}

} // verus!
