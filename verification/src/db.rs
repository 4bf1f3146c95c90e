//! The rows of the report databases, and the text of the statements that write
//! them.

use crate::text;
use vstd::prelude::*;
use vstd::string::*;

verus! {

/// The format mark of a treemap database, as SQLite stores it.
pub const TREEMAP_APP_ID: i32 = -1059252800;

/// The format mark of a detail database, as SQLite stores it.
pub const DETAIL_APP_ID: i32 = -1059252783;

/// The format mark of a merged report, as SQLite stores it.
pub const MERGED_APP_ID: i32 = -1059252782;

pub const SCHEMA_VERSION: i32 = 1;

pub const PAGE_SIZE: i32 = 16384;

/// The number of file rows that are inserted together.
pub const FILE_INSERT_CHUNK: usize = 200_000;

/// The number of rows in one statement.
pub const PACK_ROWS: usize = 100;

/// A database smaller than this is not repacked: 100 MiB.
pub const VACUUM_SIZE_MIN_BYTES: u64 = 104_857_600;

/// A database larger than this is not repacked: 1 GiB.
pub const VACUUM_SIZE_MAX_BYTES: u64 = 1_073_741_824;

// ---------------------------------------------------------------------------
// Rows
// ---------------------------------------------------------------------------

/// A directory of the treemap.
#[derive(Clone, Copy, PartialEq, Eq, Structural, Debug)]
pub struct DirRow {
    pub id: i64,
    pub parent_id: Option<i64>,
    pub name_id: i64,
    pub total_size: i64,
    pub file_count: i64,
    pub dir_count: i64,
    pub owner_uid: i64,
    pub has_files: i64,
}

/// An owner of the treemap.
pub struct OwnerRow {
    pub uid: i64,
    pub username: String,
}

/// What a treemap database is built from.
pub struct TreemapInput {
    pub names: Vec<String>,
    pub owners: Vec<OwnerRow>,
    pub dirs: Vec<DirRow>,
    pub meta: Vec<(String, String)>,
}

/// A user of the detail report.
pub struct UserRow {
    pub uid: i64,
    pub username: String,
    pub team_id: String,
    pub total_files: i64,
    pub total_dirs: i64,
    pub total_size: i64,
    pub permission_issues: i64,
    pub is_target: i64,
    /// The directories that the user owns.
    pub owned_dirs: i64,
}

/// A file of the detail report.
pub struct FileRow {
    pub dir_id: i64,
    pub name_id: i64,
    pub ext: String,
    pub uid: i64,
    pub size: i64,
}

/// What a user has in a directory of the detail report.
pub struct DetailDirRow {
    pub id: i64,
    pub uid: i64,
    pub parent_id: Option<i64>,
    pub path: String,
    pub owner_uid: i64,
    pub size: i64,
    pub files: i64,
}

#[verifier::ext_equal]
pub struct UserRowModel {
    pub uid: i64,
    pub username: Seq<char>,
    pub team_id: Seq<char>,
    pub total_files: int,
    pub total_dirs: int,
    pub total_size: int,
    pub permission_issues: int,
    pub is_target: int,
    pub owned_dirs: int,
}

#[verifier::ext_equal]
pub struct FileRowModel {
    pub dir_id: int,
    pub name_id: int,
    pub ext: Seq<char>,
    pub uid: i64,
    pub size: int,
}

#[verifier::ext_equal]
pub struct DetailDirModel {
    pub id: int,
    pub uid: i64,
    pub parent_id: Option<int>,
    pub path: Seq<char>,
    pub owner_uid: i64,
    pub size: int,
    pub files: int,
}

#[verifier::ext_equal]
pub struct OwnerModel {
    pub uid: i64,
    pub username: Seq<char>,
}

impl View for UserRow {
    type V = UserRowModel;

    open spec fn view(&self) -> UserRowModel {
        UserRowModel {
            uid: self.uid,
            username: self.username@,
            team_id: self.team_id@,
            total_files: self.total_files as int,
            total_dirs: self.total_dirs as int,
            total_size: self.total_size as int,
            permission_issues: self.permission_issues as int,
            is_target: self.is_target as int,
            owned_dirs: self.owned_dirs as int,
        }
    }
}

impl View for FileRow {
    type V = FileRowModel;

    open spec fn view(&self) -> FileRowModel {
        FileRowModel {
            dir_id: self.dir_id as int,
            name_id: self.name_id as int,
            ext: self.ext@,
            uid: self.uid,
            size: self.size as int,
        }
    }
}

impl View for DetailDirRow {
    type V = DetailDirModel;

    open spec fn view(&self) -> DetailDirModel {
        DetailDirModel {
            id: self.id as int,
            uid: self.uid,
            parent_id: match self.parent_id {
                Some(p) => Some(p as int),
                None => None,
            },
            path: self.path@,
            owner_uid: self.owner_uid,
            size: self.size as int,
            files: self.files as int,
        }
    }
}

impl View for OwnerRow {
    type V = OwnerModel;

    open spec fn view(&self) -> OwnerModel {
        OwnerModel { uid: self.uid, username: self.username@ }
    }
}

pub open spec fn user_views(v: Seq<UserRow>) -> Seq<UserRowModel> {
    v.map_values(|r: UserRow| r@)
}

pub open spec fn detail_dir_views(v: Seq<DetailDirRow>) -> Seq<DetailDirModel> {
    v.map_values(|r: DetailDirRow| r@)
}

/// The keys and values of a `meta` table.
pub open spec fn meta_views(v: Seq<(String, String)>) -> Seq<(Seq<char>, Seq<char>)> {
    v.map_values(|p: (String, String)| (p.0@, p.1@))
}

// ---------------------------------------------------------------------------
// Statements
// ---------------------------------------------------------------------------

/// `n` times `piece`, with commas between.
pub open spec fn repeated(piece: Seq<char>, n: int) -> Seq<char> {
    text::join(Seq::new(n as nat, |i: int| piece), seq![','])
}

/// The placeholders of one row.
pub open spec fn placeholders(cols: int) -> Seq<char> {
    seq!['('] + repeated(seq!['?'], cols) + seq![')']
}

proof fn lemma_repeated_step(piece: Seq<char>, n: int)
    requires
        n >= 0,
    ensures
        repeated(piece, n + 1) == (if n == 0 {
            piece
        } else {
            repeated(piece, n) + seq![','] + piece
        }),
        n == 0 ==> repeated(piece, n) == Seq::<char>::empty(),
{
    let a = Seq::new(n as nat, |i: int| piece);
    let b = Seq::new((n + 1) as nat, |i: int| piece);
    assert(b.drop_last() =~= a);
    assert(b.last() == piece);
}

/// `n` times `piece`, with commas between.
fn repeat_chars(piece: &[char], n: usize) -> (r: Vec<char>)
    ensures
        r@ == repeated(piece@, n as int),
{
    let mut r: Vec<char> = Vec::new();
    let mut i: usize = 0;
    proof {
        lemma_repeated_step(piece@, 0);
    }
    while i < n
        invariant
            i <= n,
            r@ == repeated(piece@, i as int),
        decreases n - i,
    {
        proof {
            lemma_repeated_step(piece@, i as int);
        }
        let ghost before = r@;
        if i > 0 {
            r.push(',');
        }
        text::append_chars(&mut r, piece);
        proof {
            if i == 0 {
                assert(r@ =~= piece@);
            } else {
                assert(r@ =~= before + seq![','] + piece@);
            }
        }
        i = i + 1;
    }
    r
}

/// The placeholders of one row: `(?,?,?)`.
pub fn placeholder_group(cols: usize) -> (r: String)
    ensures
        r@ == placeholders(cols as int),
{
    let mut one: Vec<char> = Vec::new();
    one.push('?');
    proof {
        assert(one@ =~= seq!['?']);
    }
    let inner = repeat_chars(&one, cols);
    let mut r: Vec<char> = Vec::new();
    r.push('(');
    text::append_chars(&mut r, &inner);
    r.push(')');
    proof {
        assert(r@ =~= placeholders(cols as int));
    }
    text::from_chars(&r)
}

/// The statement that inserts `rows` rows of `cols` columns.
pub open spec fn insert_sql(
    table: Seq<char>,
    columns: Seq<char>,
    cols: int,
    rows: int,
) -> Seq<char> {
    "INSERT INTO "@ + table + seq!['('] + columns + ") VALUES "@ + repeated(
        placeholders(cols),
        rows,
    )
}

/// The statement that inserts `rows` rows of `cols` columns.
pub fn packed_insert_sql(table: &str, columns: &str, cols: usize, rows: usize) -> (r: String)
    ensures
        r@ == insert_sql(table@, columns@, cols as int, rows as int),
{
    let group = placeholder_group(cols);
    let g = text::to_chars(group.as_str());
    let values = repeat_chars(&g, rows);
    let mut r: String = "INSERT INTO ".to_owned();
    r.append(table);
    r.push('(');
    r.append(columns);
    r.append(") VALUES ");
    let v = text::from_chars(&values);
    r.append(v.as_str());
    proof {
        assert(r@ =~= insert_sql(table@, columns@, cols as int, rows as int));
    }
    r
}

/// How many rows the `k`-th statement inserts.
pub open spec fn pack_size(rows: int, k: int) -> int {
    if (k + 1) * PACK_ROWS <= rows {
        PACK_ROWS as int
    } else {
        rows - k * PACK_ROWS
    }
}

/// A list's sum.
pub open spec fn sum_sizes(s: Seq<usize>) -> int
    decreases s.len(),
{
    if s.len() == 0 {
        0
    } else {
        sum_sizes(s.drop_last()) + s.last()
    }
}

/// How many rows each statement inserts: `PACK_ROWS` as long as there are so
/// many, then the rest.
pub fn packed_insert(rows_len: usize) -> (r: Vec<usize>)
    ensures
        r@.len() == (rows_len + PACK_ROWS - 1) / (PACK_ROWS as int),
        forall|k: int| 0 <= k < r@.len() ==> #[trigger] r@[k] == pack_size(rows_len as int, k),
        forall|k: int| 0 <= k < r@.len() ==> 1 <= #[trigger] r@[k] <= PACK_ROWS,
        sum_sizes(r@) == rows_len,
{
    let mut out: Vec<usize> = Vec::new();
    let mut left: usize = rows_len;
    while left > 0
        invariant
            left <= rows_len,
            left > 0 ==> left == rows_len - out@.len() * PACK_ROWS,
            left == 0 ==> out@.len() == (rows_len + PACK_ROWS - 1) / (PACK_ROWS as int),
            forall|k: int|
                0 <= k < out@.len() ==> #[trigger] out@[k] == pack_size(rows_len as int, k),
            forall|k: int| 0 <= k < out@.len() ==> 1 <= #[trigger] out@[k] <= PACK_ROWS,
            sum_sizes(out@) == rows_len - left,
        decreases left,
    {
        let n: usize = if left >= PACK_ROWS {
            PACK_ROWS
        } else {
            left
        };
        let ghost before = out@;
        out.push(n);
        proof {
            assert(out@.drop_last() =~= before);
        }
        left = left - n;
    }
    out
}

/// The columns of `target` that `source` has too, in the order of `target`.
pub open spec fn shared(target: Seq<Seq<char>>, source: Seq<Seq<char>>) -> Seq<Seq<char>> {
    target.filter(|c: Seq<char>| source.contains(c))
}

/// The columns of `target` that `source` has too, in the order of `target`.
pub fn shared_columns(target: &Vec<String>, source: &Vec<String>) -> (r: Vec<String>)
    ensures
        text::strs(r@) == shared(text::strs(target@), text::strs(source@)),
{
    let ghost f = |c: Seq<char>| text::strs(source@).contains(c);
    let ghost all = text::strs(target@);
    let mut out: Vec<String> = Vec::new();
    let mut i: usize = 0;
    proof {
        reveal(Seq::filter);
        assert(all.take(0).filter(f) =~= Seq::<Seq<char>>::empty());
    }
    while i < target.len()
        invariant
            i <= target@.len(),
            all == text::strs(target@),
            f == (|c: Seq<char>| text::strs(source@).contains(c)),
            text::strs(out@) == all.take(i as int).filter(f),
        decreases target@.len() - i,
    {
        proof {
            reveal(Seq::filter);
            assert(all.take(i + 1).drop_last() =~= all.take(i as int));
            assert(all.take(i + 1).last() == target@[i as int]@);
        }
        if text::has_string(source, target[i].as_str()) {
            let ghost before = text::strs(out@);
            let s = target[i].clone();
            out.push(s);
            proof {
                assert(text::strs(out@) =~= before.push(s@));
            }
        }
        i = i + 1;
    }
    proof {
        assert(all.take(i as int) =~= all);
    }
    out
}

/// The statement that carries a history table over, by the columns that both
/// sides have; none where they share no column.
pub open spec fn carry_sql(
    table: Seq<char>,
    target: Seq<Seq<char>>,
    source: Seq<Seq<char>>,
) -> Option<Seq<char>> {
    let cols = text::join(shared(target, source), ", "@);
    if shared(target, source).len() == 0 {
        None
    } else {
        Some(
            "INSERT OR IGNORE INTO "@ + table + " ("@ + cols + ") SELECT "@ + cols
                + " FROM srcreport."@ + table + ";"@,
        )
    }
}

/// The statement that carries a history table over.
pub fn carry_history_table(table: &str, target: &Vec<String>, source: &Vec<String>) -> (r: Option<
    String,
>)
    ensures
        r is Some <==> carry_sql(table@, text::strs(target@), text::strs(source@)) is Some,
        r matches Some(s) ==> carry_sql(table@, text::strs(target@), text::strs(source@)) == Some(s@),
{
    let cols = shared_columns(target, source);
    proof {
        assert(text::strs(cols@).len() == cols@.len());
    }
    if cols.len() == 0 {
        return None;
    }
    let list = text::join_strings(&cols, ", ");
    let mut r: String = "INSERT OR IGNORE INTO ".to_owned();
    r.append(table);
    r.append(" (");
    r.append(list.as_str());
    r.append(") SELECT ");
    r.append(list.as_str());
    r.append(" FROM srcreport.");
    r.append(table);
    r.append(";");
    Some(r)
}

/// A column is carried over exactly if both sides have it, whatever the order
/// in which they declare their columns.
pub proof fn law_carried_columns(
    target: Seq<Seq<char>>,
    source: Seq<Seq<char>>,
    column: Seq<char>,
)
    ensures
        shared(target, source).contains(column) <==> target.contains(column) && source.contains(
            column,
        ),
{
    let f = |c: Seq<char>| source.contains(c);
    if target.contains(column) && source.contains(column) {
        let k = choose|k: int| 0 <= k < target.len() && target[k] == column;
        assert(f(target[k]));
        target.lemma_filter_contains(f, k);
    }
    if shared(target, source).contains(column) {
        target.lemma_filter_contains_rev(f, column);
    }
}

// ---------------------------------------------------------------------------
// Finishing a database
// ---------------------------------------------------------------------------

/// What is done with a built database before it is moved into place.
#[derive(Clone, Copy, PartialEq, Eq, Structural, Debug)]
pub enum Repack {
    /// It is rewritten.
    Vacuum,
    /// It is left as it is: it will be merged and deleted.
    MergeInput,
    /// It is left as it is: it is too small.
    Small,
    /// It is left as it is: it is too large.
    Huge,
}

/// What becomes of a database that was built.
pub open spec fn repack_of(build_size: u64, skip_repack: bool) -> Repack {
    if skip_repack {
        Repack::MergeInput
    } else if build_size < VACUUM_SIZE_MIN_BYTES {
        Repack::Small
    } else if build_size > VACUUM_SIZE_MAX_BYTES {
        Repack::Huge
    } else {
        Repack::Vacuum
    }
}

/// What is done with a built database of `build_size` bytes.
pub fn finalize_db(build_size: u64, skip_repack: bool) -> (r: Repack)
    ensures
        r == repack_of(build_size, skip_repack),
        r == Repack::MergeInput <==> skip_repack,
        r == Repack::Small <==> !skip_repack && build_size < VACUUM_SIZE_MIN_BYTES,
        r == Repack::Huge <==> !skip_repack && build_size > VACUUM_SIZE_MAX_BYTES,
        r == Repack::Vacuum <==> !skip_repack && VACUUM_SIZE_MIN_BYTES <= build_size
            <= VACUUM_SIZE_MAX_BYTES,
{
    if skip_repack {
        Repack::MergeInput
    } else if build_size < VACUUM_SIZE_MIN_BYTES {
        Repack::Small
    } else if build_size > VACUUM_SIZE_MAX_BYTES {
        Repack::Huge
    } else {
        Repack::Vacuum
    }
}

/// A text as it stands between single quotes in a statement.
pub open spec fn doubled_quotes(s: Seq<char>) -> Seq<char>
    decreases s.len(),
{
    if s.len() == 0 {
        Seq::empty()
    } else if s.last() == '\'' {
        doubled_quotes(s.drop_last()).push('\'').push('\'')
    } else {
        doubled_quotes(s.drop_last()).push(s.last())
    }
}

/// A text as it stands between single quotes in a statement.
pub fn quote_text(s: &str) -> (r: String)
    ensures
        r@ == doubled_quotes(s@),
{
    let c = text::to_chars(s);
    let mut r: String = String::new();
    let mut i: usize = 0;
    proof {
        assert(c@.take(0) =~= Seq::<char>::empty());
    }
    while i < c.len()
        invariant
            i <= c@.len(),
            r@ == doubled_quotes(c@.take(i as int)),
        decreases c@.len() - i,
    {
        if c[i] == '\'' {
            r.push('\'');
        }
        r.push(c[i]);
        proof {
            assert(c@.take(i + 1).drop_last() =~= c@.take(i as int));
        }
        i = i + 1;
    }
    proof {
        assert(c@.take(i as int) =~= c@);
    }
    r
}

/// A text is quoted piece by piece: each single quote becomes two, and everything else
/// stays as it is.
pub proof fn law_quoted_piece_by_piece(a: Seq<char>, b: Seq<char>)
    ensures
        doubled_quotes(a + b) == doubled_quotes(a) + doubled_quotes(b),
        doubled_quotes(seq!['\'']) == seq!['\'', '\''],
        !a.contains('\'') ==> doubled_quotes(a) == a,
    decreases a.len() + b.len(),
{
    reveal_with_fuel(doubled_quotes, 2);
    assert(seq!['\''].drop_last() =~= Seq::<char>::empty());
    assert(doubled_quotes(seq!['\'']) =~= seq!['\'', '\'']);
    if b.len() == 0 {
        assert(a + b =~= a);
        assert(doubled_quotes(a) + doubled_quotes(b) =~= doubled_quotes(a));
    } else {
        law_quoted_piece_by_piece(a, b.drop_last());
        assert((a + b).drop_last() =~= a + b.drop_last());
        assert(doubled_quotes(a + b) =~= doubled_quotes(a) + doubled_quotes(b));
    }
    if !a.contains('\'') && a.len() > 0 {
        let rest = a.drop_last();
        assert(a[a.len() - 1] == a.last());
        assert forall|i: int| 0 <= i < rest.len() implies #[trigger] rest[i] != '\'' by {
            assert(rest[i] == a[i]);
        }
        law_quoted_piece_by_piece(rest, Seq::empty());
        assert(rest.push(a.last()) =~= a);
    }
}

/// A database is repacked where its size is within the two limits, the limits included,
/// and it is not one that others are merged from; a larger one is never taken for small.
pub proof fn law_databases_of_middle_size_are_repacked(size: u64, larger: u64)
    requires
        size <= larger,
    ensures
        repack_of(size, true) == Repack::MergeInput,
        repack_of(size, false) == Repack::Vacuum <==> 104_857_600 <= size <= 1_073_741_824,
        repack_of(larger, false) == Repack::Small ==> repack_of(size, false) == Repack::Small,
        repack_of(size, false) == Repack::Huge ==> repack_of(larger, false) == Repack::Huge,
{
}

} // verus!
