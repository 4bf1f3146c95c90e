use duscan::display::fmt_count;
use duscan::display::fmt_date;
use duscan::display::fmt_date_short;
use duscan::display::fmt_size;
use duscan::display::fmt_size_tb;
use duscan::display::fmt_size_u64;
use duscan::display::format_num;
use duscan::display::format_size;
use duscan::display::listing_size;
use duscan::display::truncate;
use duscan::display::truncate_str;

/// Sizes around every threshold and every tie, and many others.
fn sizes() -> Vec<u64> {
    let mut v = vec![0, 1, 9, 512, 999, 1000, 1001, 1023, 1024, 1025, 1049, 1050, 1051];
    for unit in [1_000u64, 1_000_000, 1_000_000_000, 1_000_000_000_000] {
        for k in [1u64, 2, 9, 10, 99, 100, 999, 1000] {
            for part in [0u64, 4, 5, 6, 45, 49, 50, 51, 55, 95, 99] {
                let n = unit * k + unit / 100 * part;
                v.push(n);
                v.push(n.saturating_sub(1));
                v.push(n + 1);
            }
        }
    }
    for shift in 10..63 {
        v.push(1 << shift);
        v.push((1 << shift) - 1);
        v.push((1 << shift) + (1 << (shift - 5)));
    }
    let mut x: u64 = 0x9E3779B97F4A7C15;
    for i in 0..4000 {
        x = x.wrapping_mul(6364136223846793005).wrapping_add(1442695040888963407);
        v.push(x >> (1 + i % 60));
    }
    v.push(i64::MAX as u64);
    v
}

#[test]
fn fmt_size_thresholds() {
    assert_eq!(fmt_size(0), "0 B");
    assert_eq!(fmt_size(512), "512 B");
    assert_eq!(fmt_size(1_500), "1.5 KB");
    assert_eq!(fmt_size(2_000_000), "2.0 MB");
    assert_eq!(fmt_size(3_000_000_000), "3.0 GB");
}

#[test]
fn fmt_date_pads() {
    assert_eq!(fmt_date(20260724), "2026-07-24");
    assert_eq!(fmt_date(20260101), "2026-01-01");
}

/// The digits are those that a division of doubles gives.
#[test]
fn sizes_of_the_command_line_are_rounded_as_doubles() {
    for n in sizes() {
        let sz = n as i64;
        let want = if sz >= 1_000_000_000 {
            format!("{:.1} GB", sz as f64 / 1e9)
        } else if sz >= 1_000_000 {
            format!("{:.1} MB", sz as f64 / 1e6)
        } else if sz >= 1_000 {
            format!("{:.1} KB", sz as f64 / 1e3)
        } else {
            format!("{} B", sz)
        };
        assert_eq!(fmt_size(sz), want, "{}", sz);
    }
    assert_eq!(fmt_size(-5), "-5 B");
}

#[test]
fn sizes_of_the_screens_are_rounded_as_doubles() {
    for n in sizes() {
        let s = n as f64;
        let want = if s >= 1e12 {
            format!("{:.1} TB", s / 1e12)
        } else if s >= 1e9 {
            format!("{:.1} GB", s / 1e9)
        } else if s >= 1e6 {
            format!("{:.1} MB", s / 1e6)
        } else if s >= 1e3 {
            format!("{:.1} KB", s / 1e3)
        } else {
            format!("{} B", n)
        };
        assert_eq!(fmt_size_u64(n), want, "{}", n);
        assert_eq!(fmt_size_tb(n as i64), want, "{}", n);
    }
    assert_eq!(fmt_size_u64(u64::MAX), format!("{:.1} TB", u64::MAX as f64 / 1e12));
}

#[test]
fn binary_sizes_are_rounded_as_doubles() {
    let (kb, mb, gb, tb) = (1024f64, 1048576f64, 1073741824f64, 1099511627776f64);
    for n in sizes() {
        let s = n as f64;
        let want = if s >= tb {
            format!("{:.2} TB", s / tb)
        } else if s >= gb {
            format!("{:.2} GB", s / gb)
        } else if s >= mb {
            format!("{:.2} MB", s / mb)
        } else if s >= kb {
            format!("{:.2} KB", s / kb)
        } else {
            format!("{} B", n)
        };
        assert_eq!(format_size(n), want, "{}", n);
    }
}

#[test]
fn sizes_of_listings_are_rounded_as_doubles() {
    for n in sizes() {
        let s = n as i64 as f64;
        let want = if s >= 1e12 {
            format!("{:.2} TB", s / 1e12)
        } else if s >= 1e9 {
            format!("{:.1} GB", s / 1e9)
        } else if s >= 1e6 {
            format!("{:.0} MB", s / 1e6)
        } else if s >= 1e3 {
            format!("{:.0} KB", s / 1e3)
        } else {
            format!("{} B", n)
        };
        assert_eq!(duscan::exporter::format_size(n as i64), want, "{}", n);
        assert_eq!(listing_size(n as i64), want, "{}", n);
    }
    assert_eq!(duscan::exporter::format_size(-7), "0 B");
}

#[test]
fn counts_have_their_thousands_separated() {
    for (n, want) in [(0u64, "0"), (999, "999"), (1000, "1,000"), (1234567, "1,234,567")] {
        assert_eq!(fmt_count(n), want);
        assert_eq!(format_num(n), want);
        assert_eq!(duscan::display::fmt_count_u64(n), want);
    }
    assert_eq!(fmt_count(u64::MAX), "18,446,744,073,709,551,615");
}

#[test]
fn dates_are_numbers_in_three_parts() {
    assert_eq!(fmt_date_short(20260724), "07-24");
    assert_eq!(fmt_date(9), "0000-00-09");
    for d in [0i64, 1, 101, 10101, 20240229, 123456789] {
        assert_eq!(
            fmt_date(d),
            format!("{:04}-{:02}-{:02}", d / 10000, (d / 100) % 100, d % 100)
        );
    }
}

#[test]
fn long_text_ends_with_an_ellipsis() {
    assert_eq!(truncate("abc", 3), "abc");
    assert_eq!(truncate("abcd", 3), "ab\u{2026}");
    assert_eq!(truncate_str("\u{e4}\u{f6}\u{fc}x", 3), "\u{e4}\u{f6}\u{2026}");
    assert_eq!(truncate("ab", 0), "\u{2026}");
}
