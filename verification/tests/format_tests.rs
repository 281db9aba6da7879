use topfs::size::human_size;
use topfs::style::{ansi, size_color, truncate_ansi, Color};
use topfs::time::{days_to_date, format_timestamp};

/// The byte counts shown with a unit, computed with floating point the way
/// a `{:>6.1}` formatting of the quotient does it.
fn reference_human_size(bytes: u64) -> String {
    const KIB: f64 = 1024.0;
    const UNITS: [&str; 6] = ["B  ", "KiB", "MiB", "GiB", "TiB", "PiB"];
    let mut v = bytes as f64;
    let mut u = 0;
    while v >= KIB && u < UNITS.len() - 1 {
        v /= KIB;
        u += 1;
    }
    if u == 0 {
        format!("{:>6} {}", bytes, UNITS[0])
    } else {
        format!("{:>6.1} {}", v, UNITS[u])
    }
}

#[test]
fn human_size_small_values() {
    assert_eq!(human_size(0), "     0 B  ");
    assert_eq!(human_size(512), "   512 B  ");
    assert_eq!(human_size(1023), "  1023 B  ");
}

#[test]
fn human_size_units() {
    assert_eq!(human_size(1024), "   1.0 KiB");
    assert_eq!(human_size(1536), "   1.5 KiB");
    assert_eq!(human_size(1 << 20), "   1.0 MiB");
    assert_eq!(human_size(12 * (1 << 30) + 400 * (1 << 20)), "  12.4 GiB");
    assert_eq!(human_size(1 << 40), "   1.0 TiB");
    assert_eq!(human_size(1 << 50), "   1.0 PiB");
    assert_eq!(human_size(1 << 60), "1024.0 PiB");
    assert_eq!(human_size(u64::MAX), "16384.0 PiB");
}

#[test]
fn human_size_ties_round_to_even() {
    // 1280 bytes is exactly 1.25 KiB; 1.25 lies halfway and goes to 1.2.
    assert_eq!(human_size(1280), "   1.2 KiB");
    // 1.75 KiB goes to 1.8.
    assert_eq!(human_size(1792), "   1.8 KiB");
    // just below 1 MiB rounds up to 1024.0 KiB
    assert_eq!(human_size((1 << 20) - 1), "1024.0 KiB");
}

#[test]
fn human_size_matches_floating_point() {
    let mut samples: Vec<u64> = Vec::new();
    for i in 0..5000u64 {
        samples.push(i);
        samples.push(i * 37 + 1000);
        samples.push(i * 104_857 + 1_000_000);
        samples.push(i.wrapping_mul(0x9E37_79B9_7F4A_7C15));
    }
    for shift in 0..64u32 {
        let p = 1u64 << shift;
        samples.push(p);
        samples.push(p - 1);
        samples.push(p.wrapping_add(1));
        samples.push(p | (p >> 1) | (p >> 3));
    }
    // values just above 2^53 where the conversion to f64 rounds
    for k in 0..200u64 {
        samples.push((1u64 << 53) + k);
        samples.push((33u64 << 48) + k);
        samples.push(u64::MAX - k);
    }
    for b in samples {
        assert_eq!(human_size(b), reference_human_size(b), "bytes = {}", b);
    }
}

#[test]
fn size_color_thresholds() {
    assert_eq!(size_color(0), Color::DarkGrey);
    assert_eq!(size_color(1023), Color::DarkGrey);
    assert_eq!(size_color(1024), Color::Cyan);
    assert_eq!(size_color((1 << 20) - 1), Color::Cyan);
    assert_eq!(size_color(1 << 20), Color::Green);
    assert_eq!(size_color(100 * (1 << 20)), Color::Yellow);
    assert_eq!(size_color(1 << 30), Color::Magenta);
    assert_eq!(size_color(10 * (1u64 << 30)), Color::Red);
    assert_eq!(size_color(u64::MAX), Color::Red);
}

#[test]
fn size_color_is_monotone() {
    fn rank(c: Color) -> i32 {
        match c {
            Color::DarkGrey => 0,
            Color::Cyan => 1,
            Color::Green => 2,
            Color::Yellow => 3,
            Color::Magenta => 4,
            Color::Red => 5,
            _ => -1,
        }
    }
    let mut prev = 0;
    for shift in 0..64u32 {
        let r = rank(size_color(1u64 << shift));
        assert!(r >= prev);
        prev = r;
    }
}

#[test]
fn ansi_codes() {
    assert_eq!(ansi("x", Color::Red, true), "\x1b[1;31mx\x1b[0m");
    assert_eq!(ansi("x", Color::Green, false), "\x1b[32mx\x1b[0m");
    assert_eq!(ansi("dir", Color::Blue, true), "\x1b[1;34mdir\x1b[0m");
    assert_eq!(ansi("", Color::DarkGrey, false), "\x1b[90m\x1b[0m");
    assert_eq!(ansi("w", Color::White, false), "\x1b[37mw\x1b[0m");
    assert_eq!(ansi("w", Color::Rgb { r: 1, g: 2, b: 3 }, false), "\x1b[37mw\x1b[0m");
}

#[test]
fn truncate_ansi_keeps_escapes() {
    let s = ansi("hello", Color::Red, true);
    assert_eq!(truncate_ansi(&s, 3), "\x1b[1;31mhel\x1b[0m");
    assert_eq!(truncate_ansi(&s, 10), s);
    assert_eq!(truncate_ansi("abc", 3), "abc\x1b[0m");
    assert_eq!(truncate_ansi("abc", 0), "\x1b[0m");
    assert_eq!(truncate_ansi("", 0), "\x1b[0m");
    assert_eq!(truncate_ansi("├── é", 3), "├──\x1b[0m");
}

#[test]
fn truncate_ansi_output_is_prefix() {
    let s = format!("{}  {}", ansi("12.4 GiB", Color::Red, true), ansi("name", Color::Blue, true));
    for w in 0..30 {
        let t = truncate_ansi(&s, w);
        let body = t.strip_suffix("\x1b[0m").unwrap_or(&t);
        assert!(s.starts_with(body) || t.starts_with(&s));
        let visible = body.replace("\x1b[1;31m", "").replace("\x1b[1;34m", "").replace("\x1b[0m", "");
        assert!(visible.chars().count() <= w);
    }
}

fn reference_date(days: i64) -> (i64, u32, u32) {
    // walk day by day from 1970-01-01
    let mut y: i64 = 1970;
    let mut m: u32 = 1;
    let mut d: u32 = 1;
    let leap = |y: i64| (y % 4 == 0 && y % 100 != 0) || y % 400 == 0;
    let dim = |y: i64, m: u32| match m {
        2 => if leap(y) { 29 } else { 28 },
        4 | 6 | 9 | 11 => 30,
        _ => 31,
    };
    if days >= 0 {
        for _ in 0..days {
            d += 1;
            if d > dim(y, m) {
                d = 1;
                m += 1;
                if m > 12 {
                    m = 1;
                    y += 1;
                }
            }
        }
    } else {
        for _ in 0..(-days) {
            if d > 1 {
                d -= 1;
            } else {
                if m > 1 {
                    m -= 1;
                } else {
                    m = 12;
                    y -= 1;
                }
                d = dim(y, m);
            }
        }
    }
    (y, m, d)
}

#[test]
fn days_to_date_known_dates() {
    assert_eq!(days_to_date(0), (1970, 1, 1));
    assert_eq!(days_to_date(-1), (1969, 12, 31));
    assert_eq!(days_to_date(59), (1970, 3, 1));
    assert_eq!(days_to_date(11016), (2000, 2, 29));
    assert_eq!(days_to_date(10957), (2000, 1, 1));
    assert_eq!(days_to_date(19965), (2024, 8, 30));
    assert_eq!(days_to_date(19967), (2024, 9, 1));
    assert_eq!(days_to_date(-719468), (0, 3, 1));
}

#[test]
fn days_to_date_matches_day_by_day_count() {
    for days in -150_000i64..150_000 {
        if days % 7 == 0 || days.abs() < 3000 {
            assert_eq!(days_to_date(days), reference_date(days), "days = {}", days);
        }
    }
}

#[test]
fn days_to_date_roundtrip_consecutive() {
    // consecutive days give consecutive dates
    let mut prev = days_to_date(-800_000);
    for days in -799_999i64..-790_000 {
        let cur = days_to_date(days);
        assert!(cur > prev);
        prev = cur;
    }
}

#[test]
fn format_timestamp_examples() {
    assert_eq!(format_timestamp(0), "1970-01-01 00:00");
    assert_eq!(format_timestamp(1725029869), "2024-08-30 14:57");
    assert_eq!(format_timestamp(86399), "1970-01-01 23:59");
    assert_eq!(format_timestamp(951782400), "2000-02-29 00:00");
    // before the epoch: the previous day, counted from its midnight
    assert_eq!(format_timestamp(-60), "1969-12-31 23:59");
    assert_eq!(format_timestamp(-1), "1969-12-31 23:59");
    assert_eq!(format_timestamp(-86401), "1969-12-30 23:59");
    assert_eq!(format_timestamp(-86400), "1969-12-31 00:00");
    let (y, m, d) = days_to_date(-365 * 2000);
    assert!(y < 0);
    assert_eq!(format_timestamp(-86400 * 365 * 2000), format!("{:04}-{:02}-{:02} 00:00", y, m, d));
}

#[test]
fn format_timestamp_matches_std_formatting() {
    for secs in (-5_000_000_000i64..5_000_000_000).step_by(7_777_777) {
        let days = secs.div_euclid(86400);
        let tod = secs.rem_euclid(86400);
        let (y, m, d) = days_to_date(days);
        let expected = format!("{:04}-{:02}-{:02} {:02}:{:02}", y, m, d, tod / 3600, (tod % 3600) / 60);
        assert_eq!(format_timestamp(secs), expected);
    }
}

/// The characters a terminal shows: everything outside ESC ... letter.
fn visible(s: &str) -> String {
    let mut out = String::new();
    let mut esc = false;
    for c in s.chars() {
        if esc {
            esc = !c.is_ascii_alphabetic();
        } else if c == '\x1b' {
            esc = true;
        } else {
            out.push(c);
        }
    }
    out
}

#[test]
fn human_size_is_ten_columns_wide() {
    for &b in &[0u64, 1, 1023, 1024, 1048575, 1048576, (1u64 << 50) - 1, 1u64 << 50, (1u64 << 60) - 1] {
        assert_eq!(human_size(b).chars().count(), 10, "{}", b);
    }
    assert_eq!(human_size(1048575), "1024.0 KiB");
}

#[test]
fn timestamp_is_sixteen_characters() {
    for &s in &[0i64, 59, 86399, 951782400, 1725029869, 253402300799] {
        assert_eq!(format_timestamp(s).len(), 16, "{}", s);
    }
    assert_eq!(format_timestamp(253402300799), "9999-12-31 23:59");
}

#[test]
fn truncation_shows_a_prefix_of_the_visible_text() {
    let s = format!("{}{} tail", ansi("abc", Color::Red, true), ansi("def", Color::Blue, false));
    for max in 0..12usize {
        let t = truncate_ansi(&s, max);
        let vin = visible(&s);
        let vout = visible(&t);
        let n = max.min(vin.chars().count());
        assert_eq!(vout, vin.chars().take(n).collect::<String>(), "{}", max);
    }
}

#[test]
fn timestamp_texts_sort_as_times() {
    let times = [0i64, 59, 60, 3599, 3600, 86399, 86400, 951782399, 951782400, 1725029869, 253402300799];
    for w in times.windows(2) {
        assert!(format_timestamp(w[0]) <= format_timestamp(w[1]), "{} {}", w[0], w[1]);
    }
}
