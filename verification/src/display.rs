//! Numbers, sizes and dates as the screens and reports show them.
//!
//! A size is divided in double precision and the quotient is shown with a
//! fixed number of decimals. Both roundings go to the nearest value and, on a
//! tie, to the even one; they are computed here in integers.

use crate::text;
use vstd::prelude::*;
use vstd::slice::slice_subrange;
use vstd::slice::slice_to_vec;

verus! {

/// What stands for cut text.
pub const ELLIPSIS: char = '\u{2026}';

// ---------------------------------------------------------------------------
// Rounding
// ---------------------------------------------------------------------------

/// `a / b` rounded to the nearest integer, a tie to the even one.
pub open spec fn nearest(a: nat, b: nat) -> nat {
    let q = a / b;
    let r = a % b;
    if 2 * r > b || (2 * r == b && q % 2 == 1) {
        q + 1
    } else {
        q
    }
}

/// The distance of neighbouring doubles at the integer `n`: the least power of
/// two of which fewer than 2^53 fit into `n`.
pub open spec fn spacing(n: nat) -> nat
    decreases n,
{
    if n < 0x20_0000_0000_0000 {
        1
    } else {
        2 * spacing(n / 2)
    }
}

/// The double nearest to the integer `n`.
pub open spec fn as_double(n: nat) -> nat {
    nearest(n, spacing(n)) * spacing(n)
}

/// The least power of two by which `a` is at least `2^52 * d`.
pub open spec fn scale(a: nat, d: nat) -> nat
    decreases
        (if a < 0x10_0000_0000_0000 * d {
            0x10_0000_0000_0000 * d - a
        } else {
            0
        }),
{
    if a == 0 || a >= 0x10_0000_0000_0000 * d {
        1
    } else {
        2 * scale(2 * a, d)
    }
}

/// The significand of the double nearest to `a / d`; the double is this over
/// `scale(a, d)`.
pub open spec fn quotient(a: nat, d: nat) -> nat {
    nearest(a * scale(a, d), d)
}

/// The power of ten.
pub open spec fn ten_to(k: nat) -> nat
    decreases k,
{
    if k == 0 {
        1
    } else {
        10 * ten_to((k - 1) as nat)
    }
}

/// `v / 10^k` in decimal, with `k` decimals.
pub open spec fn fixed(v: nat, k: nat) -> Seq<char> {
    if k == 0 {
        text::dec(v)
    } else {
        text::dec(v / ten_to(k)) + seq!['.'] + text::pad_left(text::dec(v % ten_to(k)), k, '0')
    }
}

/// `n / d`, computed in doubles, with `k` decimals.
pub open spec fn ratio_text(n: nat, d: nat, k: nat) -> Seq<char> {
    let a = as_double(n);
    fixed(nearest(quotient(a, d) * ten_to(k), scale(a, d)), k)
}

fn round_nearest(a: u128, b: u128) -> (r: u128)
    requires
        0 < b,
        a < 0x40_0000_0000_0000_0000_0000_0000_0000,
        b < 0x40_0000_0000_0000_0000_0000_0000_0000,
    ensures
        r == nearest(a as nat, b as nat),
        r <= a / b + 1,
{
    let q: u128 = a / b;
    let m: u128 = a % b;
    assert(q <= a) by (nonlinear_arith)
        requires
            q == a / b,
            b > 0,
    ;
    if 2 * m > b || (2 * m == b && q % 2 == 1) {
        q + 1
    } else {
        q
    }
}

proof fn lemma_spacing(n: nat)
    ensures
        1 <= spacing(n),
        spacing(n) == 1 || spacing(n) * 0x10_0000_0000_0000 <= n,
        n < spacing(n) * 0x20_0000_0000_0000,
    decreases n,
{
    if n >= 0x20_0000_0000_0000 {
        lemma_spacing(n / 2);
        let s = spacing(n / 2);
        assert(n < (2 * s) * 0x20_0000_0000_0000);
        if s == 1 {
            assert((2 * s) * 0x10_0000_0000_0000 <= n);
        }
    }
}

proof fn lemma_double_bound(n: nat)
    ensures
        as_double(n) <= 2 * n,
        n <= u64::MAX ==> as_double(n) <= 0x1_0000_0000_0000_0000,
        n < 0x20_0000_0000_0000 ==> as_double(n) == n,
{
    lemma_spacing(n);
    let q = spacing(n);
    let k = nearest(n, q);
    if q == 1 {
        assert(n / 1 == n);
        assert(n % 1 == 0);
        assert(k * q == k) by (nonlinear_arith)
            requires
                q == 1,
        ;
        assert(as_double(n) == n);
    } else {
        assert(k * q <= n + q) by (nonlinear_arith)
            requires
                k <= n / q + 1,
                q >= 1,
        {
            assert((n / q) * q <= n);
        }
        if n <= u64::MAX {
            assert(q <= 0x800) by {
                reveal_with_fuel(spacing, 13);
            }
            assert(n / q < 0x20_0000_0000_0000) by (nonlinear_arith)
                requires
                    n < q * 0x20_0000_0000_0000,
                    q >= 1,
            ;
            assert(k * q <= 0x20_0000_0000_0000 * 0x800) by (nonlinear_arith)
                requires
                    k <= 0x20_0000_0000_0000,
                    q <= 0x800,
            ;
        }
    }
}

/// A small number is a double, and the double nearest to a number is no further
/// from it than the doubles there are apart.
pub proof fn lemma_as_double(n: nat)
    ensures
        n < 0x20_0000_0000_0000 ==> as_double(n) == n,
        as_double(n) <= n + spacing(n),
        n <= as_double(n) + spacing(n),
        spacing(n) == 1 || spacing(n) * 0x10_0000_0000_0000 <= n,
{
    lemma_spacing(n);
    lemma_double_bound(n);
    let q = spacing(n);
    let k = nearest(n, q);
    assert(k * q <= n + q && n <= k * q + q) by (nonlinear_arith)
        requires
            k == n / q || k == n / q + 1,
            q >= 1,
    ;
}

/// The double nearest to `n`.
pub(crate) fn double_of(n: u128) -> (r: u128)
    requires
        n < 0x40_0000_0000_0000_0000_0000_0000_0000,
    ensures
        r == as_double(n as nat),
        r <= 2 * n,
        n <= u64::MAX ==> r <= 0x1_0000_0000_0000_0000,
{
    proof {
        lemma_spacing(n as nat);
        lemma_double_bound(n as nat);
    }
    let mut q: u128 = 1;
    let mut m: u128 = n;
    while m >= 0x20_0000_0000_0000
        invariant
            1 <= q,
            q * spacing(m as nat) == spacing(n as nat),
            spacing(n as nat) == 1 || spacing(n as nat) <= n,
            n < 0x40_0000_0000_0000_0000_0000_0000_0000,
        decreases m,
    {
        proof {
            assert(spacing(m as nat) == 2 * spacing((m / 2) as nat));
            lemma_spacing((m / 2) as nat);
            let s = spacing((m / 2) as nat);
            assert(q * (2 * s) == (2 * q) * s) by (nonlinear_arith);
            assert(2 * q <= (2 * q) * s) by (nonlinear_arith)
                requires
                    1 <= s,
                    1 <= q,
            ;
        }
        q = 2 * q;
        m = m / 2;
    }
    assert(q == spacing(n as nat)) by {
        assert(spacing(m as nat) == 1);
        assert(q * 1 == q) by (nonlinear_arith);
    }
    let k = round_nearest(n, q);
    assert(k * q == as_double(n as nat));
    k * q
}

proof fn lemma_scale(a: nat, d: nat)
    requires
        0 < d <= a,
    ensures
        1 <= scale(a, d) < 0x20_0000_0000_0000,
        scale(a, d) == 1 || a * scale(a, d) < 0x20_0000_0000_0000 * d,
        a * scale(a, d) >= 0x10_0000_0000_0000 * d,
    decreases
        (if a < 0x10_0000_0000_0000 * d {
            0x10_0000_0000_0000 * d - a
        } else {
            0
        }),
{
    if a < 0x10_0000_0000_0000 * d {
        lemma_scale(2 * a, d);
        let s = scale(2 * a, d);
        let p = scale(a, d);
        assert(p == 2 * s);
        assert(a * p == (2 * a) * s) by (nonlinear_arith)
            requires
                p == 2 * s,
        ;
        assert(a * p < 0x20_0000_0000_0000 * d) by {
            if s == 1 {
                assert((2 * a) * s == 2 * a) by (nonlinear_arith)
                    requires
                        s == 1,
                ;
            }
        }
        assert(p < 0x20_0000_0000_0000) by (nonlinear_arith)
            requires
                a * p < 0x20_0000_0000_0000 * d,
                0 < d <= a,
                p >= 1,
        ;
    } else {
        assert(a * scale(a, d) == a) by (nonlinear_arith)
            requires
                scale(a, d) == 1,
        ;
    }
}

/// The significand and the scale of the double nearest to `a / d`.
fn divide(a: u128, d: u64) -> (r: (u128, u128))
    requires
        1000 <= d <= a,
        d <= 0x100_0000_0000,
        a <= 0x1_0000_0000_0000_0000,
    ensures
        r.0 == quotient(a as nat, d as nat),
        r.1 == scale(a as nat, d as nat),
        r.0 <= 0x1_0000_0000_0000_0000,
        r.0 <= 0x100_0000_0000_0000 * r.1,
        1 <= r.1 < 0x20_0000_0000_0000,
{
    let limit: u128 = 0x10_0000_0000_0000 * (d as u128);
    let mut p: u128 = 1;
    let mut b: u128 = a;
    proof {
        lemma_scale(a as nat, d as nat);
        assert(a * 1 == a) by (nonlinear_arith);
    }
    while b < limit
        invariant
            limit == 0x10_0000_0000_0000 * d,
            d <= 0x100_0000_0000,
            1000 <= d <= a,
            a <= b,
            b <= 2 * limit || b == a,
            a <= 0x1_0000_0000_0000_0000,
            1 <= p,
            p * scale(b as nat, d as nat) == scale(a as nat, d as nat),
            scale(a as nat, d as nat) < 0x20_0000_0000_0000,
            b == a * p,
        decreases
            (if b < limit {
                limit - b
            } else {
                0
            }),
    {
        proof {
            let s = scale((2 * b) as nat, d as nat);
            assert(scale(b as nat, d as nat) == 2 * s);
            lemma_scale((2 * b) as nat, d as nat);
            assert(p * (2 * s) == (2 * p) * s) by (nonlinear_arith);
            assert(2 * p <= (2 * p) * s) by (nonlinear_arith)
                requires
                    1 <= s,
                    1 <= p,
            ;
            assert(2 * (a * p) == a * (2 * p)) by (nonlinear_arith);
        }
        p = 2 * p;
        b = 2 * b;
    }
    assert(p == scale(a as nat, d as nat)) by {
        assert(scale(b as nat, d as nat) == 1);
        assert(p * 1 == p) by (nonlinear_arith);
    }
    let m = round_nearest(b, d as u128);
    proof {
        assert(b as int / d as int <= 0x8000_0000_0000_0000) by (nonlinear_arith)
            requires
                b <= 0x20_0000_0000_0000 * d || b <= 0x1_0000_0000_0000_0000,
                2 <= d,
        ;
        assert(m <= 0x100_0000_0000_0000 * p) by (nonlinear_arith)
            requires
                m <= b as int / d as int + 1,
                b == a * p,
                1000 <= d <= a,
                a <= 0x1_0000_0000_0000_0000,
                1 <= p,
        {
            assert((b as int / d as int) * d <= b);
            assert(m * d <= b + d);
            assert(b >= d);
            assert(m * 1000 <= m * d);
            assert(b <= 0x1_0000_0000_0000_0000 * p);
            assert(m * 1000 <= 0x2_0000_0000_0000_0000 * p);
        }
    }
    (m, p)
}

/// `v / 10^k` in decimal, with `k` decimals.
fn fixed_chars(v: u128, k: usize) -> (r: Vec<char>)
    requires
        k <= 2,
        v <= 0xffff_ffff_ffff_ffff,
    ensures
        r@ == fixed(v as nat, k as nat),
{
    reveal_with_fuel(ten_to, 3);
    let v: u64 = v as u64;
    if k == 0 {
        text::dec_chars(v)
    } else {
        let t: u64 = if k == 1 {
            10
        } else {
            100
        };
        let mut r = text::dec_chars(v / t);
        r.push('.');
        let low = text::dec_chars(v % t);
        let low = text::pad_left_chars(&low, k, '0');
        text::append_chars(&mut r, &low);
        proof {
            assert(r@ =~= fixed(v as nat, k as nat));
        }
        r
    }
}

/// `n / d`, computed in doubles, with `k` decimals.
pub fn ratio_chars(n: u64, d: u64, k: usize) -> (r: Vec<char>)
    requires
        1000 <= d <= 0x100_0000_0000,
        d <= n,
        k <= 2,
    ensures
        r@ == ratio_text(n as nat, d as nat, k as nat),
{
    let a = double_of(n as u128);
    proof {
        lemma_double_at_least(n as nat, d as nat);
        reveal_with_fuel(ten_to, 3);
    }
    let (m, p) = divide(a, d);
    let t: u128 = if k == 0 {
        1
    } else if k == 1 {
        10
    } else {
        100
    };
    let v = round_nearest(m * t, p);
    proof {
        assert((m * t) as int / p as int <= 0x7000_0000_0000_0000) by (nonlinear_arith)
            requires
                m <= 0x100_0000_0000_0000 * p,
                1 <= p,
                t <= 100,
        {
            assert(m * t <= 0x7000_0000_0000_0000 * p);
        }
    }
    fixed_chars(v, k)
}

/// Rounding to a double does not cross a double.
proof fn lemma_double_at_least(n: nat, d: nat)
    requires
        n <= u64::MAX,
        d <= n,
        d < 0x10_0000_0000_0000,
    ensures
        as_double(n) >= d,
{
    lemma_spacing(n);
    let q = spacing(n);
    if q == 1 {
        assert(n / 1 == n);
        assert(as_double(n) >= n) by (nonlinear_arith)
            requires
                as_double(n) == nearest(n, 1) * 1,
                nearest(n, 1) >= n,
        ;
    } else {
        assert(n / q >= 0x10_0000_0000_0000) by (nonlinear_arith)
            requires
                q * 0x10_0000_0000_0000 <= n,
                q >= 1,
        ;
        assert(nearest(n, q) * q >= d) by (nonlinear_arith)
            requires
                nearest(n, q) >= d,
                q >= 1,
        ;
    }
}

// ---------------------------------------------------------------------------
// Sizes
// ---------------------------------------------------------------------------

/// Characters followed by a text.
fn with_unit(mut v: Vec<char>, unit: &str) -> (r: String)
    ensures
        r@ == v@ + unit@,
{
    let u = text::to_chars(unit);
    text::append_chars(&mut v, &u);
    text::from_chars(&v)
}

/// A size in thousands, up to gigabytes, with one decimal.
pub open spec fn size_text(sz: int) -> Seq<char> {
    if sz >= 1_000_000_000 {
        ratio_text(sz as nat, 1_000_000_000, 1) + " GB"@
    } else if sz >= 1_000_000 {
        ratio_text(sz as nat, 1_000_000, 1) + " MB"@
    } else if sz >= 1_000 {
        ratio_text(sz as nat, 1_000, 1) + " KB"@
    } else {
        text::dec_int(sz) + " B"@
    }
}

/// A size as the command line shows it.
pub fn fmt_size(sz: i64) -> (r: String)
    ensures
        r@ == size_text(sz as int),
{
    if sz >= 1_000_000_000 {
        with_unit(ratio_chars(sz as u64, 1_000_000_000, 1), " GB")
    } else if sz >= 1_000_000 {
        with_unit(ratio_chars(sz as u64, 1_000_000, 1), " MB")
    } else if sz >= 1_000 {
        with_unit(ratio_chars(sz as u64, 1_000, 1), " KB")
    } else {
        with_unit(text::dec_int_chars(sz), " B")
    }
}

/// A time in tenths of a second.
pub open spec fn seconds_text(tenths: nat) -> Seq<char> {
    text::dec(tenths / 10) + "."@ + text::dec(tenths % 10) + "s"@
}

/// A time in tenths of a second, in seconds with one decimal.
pub fn fmt_seconds(tenths: u64) -> (r: String)
    ensures
        r@ == seconds_text(tenths as nat),
{
    let whole = text::dec_string(tenths / 10);
    let rest = text::dec_string(tenths % 10);
    text::cat4(whole.as_str(), ".", rest.as_str(), "s")
}

/// A size in thousands, up to terabytes, with one decimal.
pub open spec fn screen_size_text(sz: int) -> Seq<char> {
    if sz >= 1_000_000_000_000 {
        ratio_text(sz as nat, 1_000_000_000_000, 1) + " TB"@
    } else {
        size_text(sz)
    }
}

/// A size as the configuration screen shows it.
pub fn fmt_size_tb(sz: i64) -> (r: String)
    ensures
        r@ == screen_size_text(sz as int),
{
    if sz >= 1_000_000_000_000 {
        with_unit(ratio_chars(sz as u64, 1_000_000_000_000, 1), " TB")
    } else {
        fmt_size(sz)
    }
}

/// A size as the scan screen shows it.
pub fn fmt_size_u64(sz: u64) -> (r: String)
    ensures
        r@ == screen_size_text(sz as int),
{
    if sz >= 1_000_000_000_000 {
        with_unit(ratio_chars(sz, 1_000_000_000_000, 1), " TB")
    } else {
        fmt_size(sz as i64)
    }
}

/// A size in units of 1024, up to terabytes, with two decimals.
pub open spec fn binary_size_text(sz: nat) -> Seq<char> {
    if sz >= 0x100_0000_0000 {
        ratio_text(sz, 0x100_0000_0000, 2) + " TB"@
    } else if sz >= 0x4000_0000 {
        ratio_text(sz, 0x4000_0000, 2) + " GB"@
    } else if sz >= 0x10_0000 {
        ratio_text(sz, 0x10_0000, 2) + " MB"@
    } else if sz >= 1024 {
        ratio_text(sz, 1024, 2) + " KB"@
    } else {
        text::dec(sz) + " B"@
    }
}

/// A size in units of 1024, as the scan's progress lines show it.
pub fn format_size(bytes: u64) -> (r: String)
    ensures
        r@ == binary_size_text(bytes as nat),
{
    if bytes >= 0x100_0000_0000 {
        with_unit(ratio_chars(bytes, 0x100_0000_0000, 2), " TB")
    } else if bytes >= 0x4000_0000 {
        with_unit(ratio_chars(bytes, 0x4000_0000, 2), " GB")
    } else if bytes >= 0x10_0000 {
        with_unit(ratio_chars(bytes, 0x10_0000, 2), " MB")
    } else if bytes >= 1024 {
        with_unit(ratio_chars(bytes, 1024, 2), " KB")
    } else {
        with_unit(text::dec_chars(bytes), " B")
    }
}

/// A size in an exported listing: fewer decimals the smaller the unit, and a
/// negative size counts as none.
pub open spec fn listing_size_text(sz: int) -> Seq<char> {
    if sz >= 1_000_000_000_000 {
        ratio_text(sz as nat, 1_000_000_000_000, 2) + " TB"@
    } else if sz >= 1_000_000_000 {
        ratio_text(sz as nat, 1_000_000_000, 1) + " GB"@
    } else if sz >= 1_000_000 {
        ratio_text(sz as nat, 1_000_000, 0) + " MB"@
    } else if sz >= 1_000 {
        ratio_text(sz as nat, 1_000, 0) + " KB"@
    } else if sz >= 0 {
        text::dec(sz as nat) + " B"@
    } else {
        text::dec(0) + " B"@
    }
}

/// A size in an exported listing.
pub fn listing_size(sz: i64) -> (r: String)
    ensures
        r@ == listing_size_text(sz as int),
{
    if sz >= 1_000_000_000_000 {
        with_unit(ratio_chars(sz as u64, 1_000_000_000_000, 2), " TB")
    } else if sz >= 1_000_000_000 {
        with_unit(ratio_chars(sz as u64, 1_000_000_000, 1), " GB")
    } else if sz >= 1_000_000 {
        with_unit(ratio_chars(sz as u64, 1_000_000, 0), " MB")
    } else if sz >= 1_000 {
        with_unit(ratio_chars(sz as u64, 1_000, 0), " KB")
    } else if sz >= 0 {
        with_unit(text::dec_chars(sz as u64), " B")
    } else {
        with_unit(text::dec_chars(0), " B")
    }
}

// ---------------------------------------------------------------------------
// Counts, dates, cut text
// ---------------------------------------------------------------------------

/// A count with its thousands separated.
pub fn fmt_count_u64(n: u64) -> (r: String)
    ensures
        r@ == text::group3(text::dec(n as nat)),
{
    let d = text::dec_chars(n);
    let g = text::group3_chars(&d);
    text::from_chars(&g)
}

/// A count with its thousands separated, as the scan's progress lines show it.
pub fn format_num(n: u64) -> (r: String)
    ensures
        r@ == text::group3(text::dec(n as nat)),
{
    fmt_count_u64(n)
}

/// A count with its thousands separated, as the configuration screen shows it.
pub fn fmt_count(n: u64) -> (r: String)
    ensures
        r@ == text::group3(text::dec(n as nat)),
{
    fmt_count_u64(n)
}

/// The magnitude of a part of a date, with the date's sign, zero-filled to `w`
/// characters.
pub open spec fn signed_fill(negative: bool, part: nat, w: nat) -> Seq<char> {
    if negative && part != 0 {
        seq!['-'] + text::pad_left(text::dec(part), (w - 1) as nat, '0')
    } else {
        text::pad_left(text::dec(part), w, '0')
    }
}

/// The magnitude of an integer.
pub open spec fn magnitude(d: int) -> nat {
    if d < 0 {
        (-d) as nat
    } else {
        d as nat
    }
}

/// `yyyymmdd` as `YYYY-MM-DD`.
pub open spec fn date_text(d: int) -> Seq<char> {
    let m = magnitude(d);
    signed_fill(d < 0, m / 10000, 4) + seq!['-'] + short_date_text(d)
}

/// `yyyymmdd` as `MM-DD`.
pub open spec fn short_date_text(d: int) -> Seq<char> {
    let m = magnitude(d);
    signed_fill(d < 0, (m / 100) % 100, 2) + seq!['-'] + signed_fill(d < 0, m % 100, 2)
}

fn push_part(v: &mut Vec<char>, negative: bool, part: u64, w: usize)
    requires
        1 <= w,
    ensures
        final(v)@ == old(v)@ + signed_fill(negative, part as nat, w as nat),
{
    let d = text::dec_chars(part);
    if negative && part != 0 {
        v.push('-');
        let p = text::pad_left_chars(&d, w - 1, '0');
        text::append_chars(v, &p);
        assert(v@ =~= old(v)@ + signed_fill(negative, part as nat, w as nat));
    } else {
        let p = text::pad_left_chars(&d, w, '0');
        text::append_chars(v, &p);
    }
}

fn magnitude_of(d: i64) -> (m: u64)
    ensures
        m == magnitude(d as int),
{
    if d < 0 {
        (-(d as i128)) as u64
    } else {
        d as u64
    }
}

/// `yyyymmdd` as `MM-DD`, a compact column header.
pub fn fmt_date_short(d: i64) -> (r: String)
    ensures
        r@ == short_date_text(d as int),
{
    let m = magnitude_of(d);
    let mut v: Vec<char> = Vec::new();
    push_part(&mut v, d < 0, (m / 100) % 100, 2);
    v.push('-');
    push_part(&mut v, d < 0, m % 100, 2);
    assert(v@ =~= short_date_text(d as int));
    text::from_chars(&v)
}

/// `yyyymmdd` as `YYYY-MM-DD`.
pub fn fmt_date(d: i64) -> (r: String)
    ensures
        r@ == date_text(d as int),
{
    let m = magnitude_of(d);
    let mut v: Vec<char> = Vec::new();
    push_part(&mut v, d < 0, m / 10000, 4);
    v.push('-');
    let s = fmt_date_short(d);
    let t = text::to_chars(&s);
    text::append_chars(&mut v, &t);
    assert(v@ =~= date_text(d as int));
    text::from_chars(&v)
}

/// `s`, or its first `max - 1` characters and an ellipsis where it is longer
/// than `max`.
pub open spec fn truncated(s: Seq<char>, max: nat) -> Seq<char> {
    if s.len() <= max {
        s
    } else if max == 0 {
        seq![ELLIPSIS]
    } else {
        s.take(max - 1).push(ELLIPSIS)
    }
}

/// Cut to `max` characters, with an ellipsis when cut.
pub fn truncate_str(s: &str, max: usize) -> (r: String)
    ensures
        r@ == truncated(s@, max as nat),
{
    let v = text::to_chars(s);
    if v.len() <= max {
        return text::from_chars(&v);
    }
    let keep: usize = if max == 0 {
        0
    } else {
        max - 1
    };
    let mut head = slice_to_vec(slice_subrange(&v, 0, keep));
    head.push(ELLIPSIS);
    assert(head@ =~= truncated(s@, max as nat));
    text::from_chars(&head)
}

/// Cut to `max` characters, as the configuration screen does.
pub fn truncate(s: &str, max: usize) -> (r: String)
    ensures
        r@ == truncated(s@, max as nat),
{
    truncate_str(s, max)
}

/// Cut text is never longer than asked for, but for the lone ellipsis.
pub proof fn law_truncated_fits(s: Seq<char>, max: nat)
    requires
        max >= 1,
    ensures
        truncated(s, max).len() <= max,
        s.len() <= max ==> truncated(s, max) == s,
{
}

// ---------------------------------------------------------------------------
// Laws
// ---------------------------------------------------------------------------

/// `v` tenths or hundredths, or whole ones, in digits: the whole part, and after a point
/// as many digits as there are decimals.
pub open spec fn reads(s: Seq<char>, v: nat, k: nat) -> bool {
    &&& k == 0 ==> s == text::dec(v)
    &&& k == 1 ==> s == text::dec(v / 10) + seq!['.'] + text::dec(v % 10)
    &&& k == 2 ==> s == text::dec(v / 100) + seq!['.'] + text::dec((v / 10) % 10) + text::dec(
        v % 10,
    )
}

/// Whether a text shows `n` bytes in units of `d`, with `k` decimals: the number before
/// the unit is that of the units, rounded to the last decimal. The roundings of the
/// division may make up a thousandth of that decimal.
pub open spec fn shows(s: Seq<char>, n: int, unit: Seq<char>, d: int, k: nat, power: int) -> bool {
    exists|number: Seq<char>, v: nat|
        s == number + unit && #[trigger] reads(number, v, k) && 2000 * (v * d) <= 2000 * (n * power)
            + 1002 * d && 2000 * (n * power) <= 2000 * (v * d) + 1002 * d
}

proof fn lemma_fixed_reads(v: nat, k: nat)
    requires
        k <= 2,
    ensures
        reads(fixed(v, k), v, k),
{
    reveal_with_fuel(ten_to, 3);
    reveal_with_fuel(text::dec, 3);
    if k == 1 {
        let low = v % 10;
        assert(text::pad_left(text::dec(low), 1, '0') =~= text::dec(low));
    }
    if k == 2 {
        let low = v % 100;
        assert(low / 10 == (v / 10) % 10);
        assert(low % 10 == v % 10);
        if low < 10 {
            assert(text::pad_left(text::dec(low), 2, '0') =~= text::dec(low / 10) + text::dec(
                low % 10,
            ));
        } else {
            assert(text::dec(low) =~= text::dec(low / 10) + text::dec(low % 10));
        }
        assert(fixed(v, k) =~= text::dec(v / 100) + seq!['.'] + text::dec((v / 10) % 10)
            + text::dec(v % 10));
    }
}

proof fn lemma_nearest(a: nat, b: nat)
    requires
        b >= 1,
    ensures
        2 * (nearest(a, b) * b) <= 2 * a + b,
        2 * a <= 2 * (nearest(a, b) * b) + b,
{
    let q = a / b;
    let r = a % b;
    assert(a == q * b + r && r < b) by (nonlinear_arith)
        requires
            q == a / b,
            r == a % b,
            b >= 1,
    ;
    assert((q + 1) * b == q * b + b) by (nonlinear_arith);
}

proof fn lemma_two_roundings(a: int, s: int, d: int, q: int, t: int, v: int)
    requires
        0 <= a,
        1 <= s,
        1 <= d,
        0 <= q,
        1 <= t <= 100,
        1000 * t <= s,
        0 <= v,
        2 * (q * d) <= 2 * (a * s) + d,
        2 * (a * s) <= 2 * (q * d) + d,
        2 * (v * s) <= 2 * (q * t) + s,
        2 * (q * t) <= 2 * (v * s) + s,
    ensures
        2000 * (v * d) <= 2000 * (a * t) + 1001 * d,
        2000 * (a * t) <= 2000 * (v * d) + 1001 * d,
{
    let x = v * d;
    let y = a * t;
    assert((v * s) * d == x * s) by (nonlinear_arith)
        requires
            x == v * d,
    ;
    assert((q * t) * d == (q * d) * t) by (nonlinear_arith);
    assert((a * s) * t == y * s) by (nonlinear_arith)
        requires
            y == a * t,
    ;
    assert(2 * ((v * s) * d) <= 2 * ((q * t) * d) + s * d) by (nonlinear_arith)
        requires
            2 * (v * s) <= 2 * (q * t) + s,
            1 <= d,
    ;
    assert(2 * ((q * t) * d) <= 2 * ((v * s) * d) + s * d) by (nonlinear_arith)
        requires
            2 * (q * t) <= 2 * (v * s) + s,
            1 <= d,
    ;
    assert(2 * ((q * d) * t) <= 2 * ((a * s) * t) + d * t) by (nonlinear_arith)
        requires
            2 * (q * d) <= 2 * (a * s) + d,
            1 <= t,
    ;
    assert(2 * ((a * s) * t) <= 2 * ((q * d) * t) + d * t) by (nonlinear_arith)
        requires
            2 * (a * s) <= 2 * (q * d) + d,
            1 <= t,
    ;
    assert(1000 * (d * t) <= s * d) by (nonlinear_arith)
        requires
            1000 * t <= s,
            1 <= d,
    ;
    let w = s * d;
    assert(2000 * (x * s) <= 2000 * (y * s) + 1001 * w);
    assert(2000 * (y * s) <= 2000 * (x * s) + 1001 * w);
    assert(2000 * x <= 2000 * y + 1001 * d) by (nonlinear_arith)
        requires
            2000 * (x * s) <= 2000 * (y * s) + 1001 * w,
            w == s * d,
            1 <= s,
    ;
    assert(2000 * y <= 2000 * x + 1001 * d) by (nonlinear_arith)
        requires
            2000 * (y * s) <= 2000 * (x * s) + 1001 * w,
            w == s * d,
            1 <= s,
    ;
}

proof fn lemma_ratio_shows(n: nat, d: nat, k: nat, unit: Seq<char>, t: nat)
    requires
        1000 <= d <= n,
        d < 0x10_0000_0000_0000,
        n <= u64::MAX,
        n < 0x20_0000_0000_0000 || d >= 1_000_000_000,
        n <= 0x4_0000_0000 * d,
        k <= 2,
        t == (if k == 0 {
            1nat
        } else if k == 1 {
            10
        } else {
            100
        }),
    ensures
        shows(ratio_text(n, d, k) + unit, n as int, unit, d as int, k, t as int),
{
    reveal_with_fuel(ten_to, 3);
    let a = as_double(n);
    let s = scale(a, d);
    let q = quotient(a, d);
    let v = nearest(q * t, s);
    lemma_double_at_least(n, d);
    lemma_double_bound(n);
    lemma_as_double(n);
    lemma_scale(a, d);
    lemma_nearest(a * s, d);
    lemma_nearest(q * t, s);
    lemma_fixed_reads(v, k);
    assert(s >= 0x2_0000) by (nonlinear_arith)
        requires
            a * s >= 0x10_0000_0000_0000 * d,
            a <= 0x8_0000_0000 * d,
            1 <= d,
            1 <= s,
    ;
    lemma_two_roundings(a as int, s as int, d as int, q as int, t as int, v as int);
    if n >= 0x20_0000_0000_0000 {
        assert(spacing(n) <= 0x1000) by (nonlinear_arith)
            requires
                spacing(n) * 0x10_0000_0000_0000 <= n || spacing(n) == 1,
                n <= u64::MAX,
        ;
        let g = spacing(n);
        assert(a * t <= n * t + 409600 && n * t <= a * t + 409600) by (nonlinear_arith)
            requires
                a <= n + g,
                n <= a + g,
                g <= 0x1000,
                1 <= t <= 100,
        ;
    }
    assert(reads(fixed(v, k), v, k));
    assert(ratio_text(n, d, k) == fixed(v, k));
}

/// A size in a listing is in the largest unit of which it holds one: terabytes with two
/// decimals, gigabytes with one, megabytes and kilobytes whole, each a thousand of the
/// next, and bytes as they are. A negative size shows as none.
pub proof fn law_listing_sizes(sz: int)
    requires
        sz <= i64::MAX,
    ensures
        sz >= 1_000_000_000_000 ==> shows(
            listing_size_text(sz),
            sz,
            seq![' ', 'T', 'B'],
            1_000_000_000_000,
            2,
            100,
        ),
        1_000_000_000 <= sz < 1_000_000_000_000 ==> shows(
            listing_size_text(sz),
            sz,
            seq![' ', 'G', 'B'],
            1_000_000_000,
            1,
            10,
        ),
        1_000_000 <= sz < 1_000_000_000 ==> shows(
            listing_size_text(sz),
            sz,
            seq![' ', 'M', 'B'],
            1_000_000,
            0,
            1,
        ),
        1_000 <= sz < 1_000_000 ==> shows(
            listing_size_text(sz),
            sz,
            seq![' ', 'K', 'B'],
            1_000,
            0,
            1,
        ),
        0 <= sz < 1_000 ==> listing_size_text(sz) == text::dec(sz as nat) + seq![' ', 'B'],
        sz < 0 ==> listing_size_text(sz) == seq!['0', ' ', 'B'],
{
    lemma_units();
    if sz >= 1_000_000_000_000 {
        lemma_ratio_shows(sz as nat, 1_000_000_000_000, 2, seq![' ', 'T', 'B'], 100);
    } else if sz >= 1_000_000_000 {
        lemma_ratio_shows(sz as nat, 1_000_000_000, 1, seq![' ', 'G', 'B'], 10);
    } else if sz >= 1_000_000 {
        lemma_ratio_shows(sz as nat, 1_000_000, 0, seq![' ', 'M', 'B'], 1);
    } else if sz >= 1_000 {
        lemma_ratio_shows(sz as nat, 1_000, 0, seq![' ', 'K', 'B'], 1);
    } else if sz < 0 {
        assert(listing_size_text(sz) =~= seq!['0', ' ', 'B']);
    }
}

proof fn lemma_units()
    ensures
        " TB"@ == seq![' ', 'T', 'B'],
        " GB"@ == seq![' ', 'G', 'B'],
        " MB"@ == seq![' ', 'M', 'B'],
        " KB"@ == seq![' ', 'K', 'B'],
        " B"@ == seq![' ', 'B'],
{
    reveal_strlit(" TB");
    reveal_strlit(" GB");
    reveal_strlit(" MB");
    reveal_strlit(" KB");
    reveal_strlit(" B");
    assert(" TB"@ =~= seq![' ', 'T', 'B']);
    assert(" GB"@ =~= seq![' ', 'G', 'B']);
    assert(" MB"@ =~= seq![' ', 'M', 'B']);
    assert(" KB"@ =~= seq![' ', 'K', 'B']);
    assert(" B"@ =~= seq![' ', 'B']);
}

/// On the command line and the screens a size is in the largest unit of which it holds
/// one, each a thousand of the next, with one decimal, and bytes as they are; the
/// screens know terabytes, the command line ends at gigabytes.
pub proof fn law_screen_sizes(sz: int)
    requires
        i64::MIN <= sz <= i64::MAX,
    ensures
        sz >= 1_000_000_000_000 ==> shows(
            screen_size_text(sz),
            sz,
            seq![' ', 'T', 'B'],
            1_000_000_000_000,
            1,
            10,
        ),
        sz < 1_000_000_000_000 ==> screen_size_text(sz) == size_text(sz),
        sz >= 1_000_000_000 ==> shows(
            size_text(sz),
            sz,
            seq![' ', 'G', 'B'],
            1_000_000_000,
            1,
            10,
        ),
        1_000_000 <= sz < 1_000_000_000 ==> shows(
            size_text(sz),
            sz,
            seq![' ', 'M', 'B'],
            1_000_000,
            1,
            10,
        ),
        1_000 <= sz < 1_000_000 ==> shows(size_text(sz), sz, seq![' ', 'K', 'B'], 1_000, 1, 10),
        0 <= sz < 1_000 ==> size_text(sz) == text::dec(sz as nat) + seq![' ', 'B'],
        sz < 0 ==> size_text(sz) == seq!['-'] + text::dec((-sz) as nat) + seq![' ', 'B'],
{
    lemma_units();
    if sz >= 1_000_000_000_000 {
        lemma_ratio_shows(sz as nat, 1_000_000_000_000, 1, seq![' ', 'T', 'B'], 10);
    }
    if sz >= 1_000_000_000 {
        lemma_ratio_shows(sz as nat, 1_000_000_000, 1, seq![' ', 'G', 'B'], 10);
    } else if sz >= 1_000_000 {
        lemma_ratio_shows(sz as nat, 1_000_000, 1, seq![' ', 'M', 'B'], 10);
    } else if sz >= 1_000 {
        lemma_ratio_shows(sz as nat, 1_000, 1, seq![' ', 'K', 'B'], 10);
    }
}

/// In the progress of a scan a size is in the largest unit of which it holds one, each
/// 1024 of the next, with two decimals, and bytes as they are.
pub proof fn law_progress_sizes(sz: nat)
    requires
        sz <= u64::MAX,
    ensures
        sz >= 1_099_511_627_776 ==> shows(
            binary_size_text(sz),
            sz as int,
            seq![' ', 'T', 'B'],
            1_099_511_627_776,
            2,
            100,
        ),
        1_073_741_824 <= sz < 1_099_511_627_776 ==> shows(
            binary_size_text(sz),
            sz as int,
            seq![' ', 'G', 'B'],
            1_073_741_824,
            2,
            100,
        ),
        1_048_576 <= sz < 1_073_741_824 ==> shows(
            binary_size_text(sz),
            sz as int,
            seq![' ', 'M', 'B'],
            1_048_576,
            2,
            100,
        ),
        1024 <= sz < 1_048_576 ==> shows(
            binary_size_text(sz),
            sz as int,
            seq![' ', 'K', 'B'],
            1024,
            2,
            100,
        ),
        sz < 1024 ==> binary_size_text(sz) == text::dec(sz) + seq![' ', 'B'],
{
    lemma_units();
    if sz >= 0x100_0000_0000 {
        lemma_ratio_shows(sz, 0x100_0000_0000, 2, seq![' ', 'T', 'B'], 100);
    } else if sz >= 0x4000_0000 {
        lemma_ratio_shows(sz, 0x4000_0000, 2, seq![' ', 'G', 'B'], 100);
    } else if sz >= 0x10_0000 {
        lemma_ratio_shows(sz, 0x10_0000, 2, seq![' ', 'M', 'B'], 100);
    } else if sz >= 1024 {
        lemma_ratio_shows(sz, 1024, 2, seq![' ', 'K', 'B'], 100);
    }
}

/// The day of a date number reads as its year, month and day, with four, two and two
/// digits, and the short form is the end of it.
pub proof fn law_dates_read_as_days(year: nat, month: nat, day: nat)
    requires
        1000 <= year <= 9999,
        month <= 99,
        day <= 99,
    ensures
        date_text((year * 10000 + month * 100 + day) as int) == text::dec(year) + seq!['-'] + text::dec(
            month / 10,
        ) + text::dec(month % 10) + seq!['-'] + text::dec(day / 10) + text::dec(day % 10),
        short_date_text((year * 10000 + month * 100 + day) as int) == text::dec(month / 10) + text::dec(
            month % 10,
        ) + seq!['-'] + text::dec(day / 10) + text::dec(day % 10),
{
    let d = (year * 10000 + month * 100 + day) as int;
    let m = magnitude(d);
    assert(m / 10000 == year);
    assert((m / 100) % 100 == month);
    assert(m % 100 == day);
    lemma_two_digits(month);
    lemma_two_digits(day);
    reveal_with_fuel(text::dec, 5);
    assert(text::pad_left(text::dec(year), 4, '0') =~= text::dec(year));
    assert(short_date_text(d) =~= text::dec(month / 10) + text::dec(month % 10) + seq!['-']
        + text::dec(day / 10) + text::dec(day % 10));
    assert(date_text(d) =~= text::dec(year) + seq!['-'] + text::dec(month / 10) + text::dec(
        month % 10,
    ) + seq!['-'] + text::dec(day / 10) + text::dec(day % 10));
}

proof fn lemma_two_digits(n: nat)
    requires
        n <= 99,
    ensures
        text::pad_left(text::dec(n), 2, '0') == text::dec(n / 10) + text::dec(n % 10),
{
    reveal_with_fuel(text::dec, 3);
    assert(text::pad_left(text::dec(n), 2, '0') =~= text::dec(n / 10) + text::dec(n % 10));
}

} // verus!
