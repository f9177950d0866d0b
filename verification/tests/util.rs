use shotsort::clock;
use shotsort::clock::{Day, Moment};
use shotsort::paths;
use shotsort::text;
use shotsort::util::{confirmed, human_size, short_name, systemtime_to_local_naive, FileHash};

/// The size as floating-point arithmetic formats it.
fn float_size(bytes: u64) -> String {
    let units = ["B", "KB", "MB", "GB", "TB", "PB"];
    if bytes < 1024 {
        return format!("{bytes} B");
    }
    let mut value = bytes as f64;
    let mut unit = 0;
    while value >= 1024.0 && unit < units.len() - 1 {
        value /= 1024.0;
        unit += 1;
    }
    format!("{value:.1} {}", units[unit])
}

#[test]
fn sizes_are_readable() {
    assert_eq!(human_size(0), "0 B");
    assert_eq!(human_size(1023), "1023 B");
    assert_eq!(human_size(1024), "1.0 KB");
    assert_eq!(human_size(1536), "1.5 KB");
    assert_eq!(human_size(1048576), "1.0 MB");
    assert_eq!(human_size(1048575), "1024.0 KB");
    assert_eq!(human_size(u64::MAX), "16384.0 PB");
}

#[test]
fn sizes_agree_with_floating_point() {
    let mut seed: u64 = 12345;
    for shift in 0..64u32 {
        for _ in 0..200 {
            seed = seed.wrapping_mul(6364136223846793005).wrapping_add(1442695040888963407);
            let n: u64 = seed >> shift;
            assert_eq!(human_size(n), float_size(n), "{n}");
        }
    }
    // Halves, which go to the even digit.
    for k in 0..2000u64 {
        let b = 1024 + k * 512 / 10;
        assert_eq!(human_size(b), float_size(b), "{b}");
        let c = (1u64 << 53) + k;
        assert_eq!(human_size(c), float_size(c), "{c}");
        let d = (1u64 << 60) + k * 64;
        assert_eq!(human_size(d), float_size(d), "{d}");
    }
    assert_eq!(human_size(1280), float_size(1280));
}

#[test]
fn digests_are_blake3() {
    let mut h = FileHash::new();
    h.update(&b"ab".to_vec());
    h.update(&b"c".to_vec());
    assert_eq!(h.finish(), blake3::hash(b"abc").as_bytes().to_vec());
    assert_eq!(
        FileHash::new().finish(),
        blake3::hash(b"").as_bytes().to_vec()
    );
    let mut other = FileHash::new();
    other.update(&b"abd".to_vec());
    assert_ne!(h.finish(), other.finish());
}

#[test]
fn yes_is_yes() {
    for s in ["y", "Y", "yes", " YES \n", "y\r\n"] {
        assert!(confirmed(s), "{s:?}");
    }
    for s in ["", "n", "no", "yess", "ye", "yes please"] {
        assert!(!confirmed(s), "{s:?}");
    }
}

#[test]
fn short_names() {
    assert_eq!(short_name("/a/b.jpg"), "b.jpg");
    assert_eq!(short_name("/"), "");
    assert_eq!(short_name("/a/.."), "");
}

#[test]
fn file_times_become_local() {
    let m = systemtime_to_local_naive(1781913600, 5).unwrap();
    assert_eq!(m.nano, 5);
    assert!(m.year == 2026 && m.month == 6 && (19..=21).contains(&m.day));
    assert_eq!(systemtime_to_local_naive(i64::MAX, 0), None);
    assert_eq!(systemtime_to_local_naive(0, 1000000000), None);
    // The first and the last second: the clock of at most one of them runs out
    // of range, whichever way the zone lies.
    let first = systemtime_to_local_naive(clock::MIN_UNIX, 0);
    let last = systemtime_to_local_naive(clock::MAX_UNIX, 0);
    assert!(first.is_some() || last.is_some());
    assert!(systemtime_to_local_naive(clock::MIN_UNIX + clock::DAY_SECONDS, 0).is_some());
    assert!(systemtime_to_local_naive(clock::MAX_UNIX - clock::DAY_SECONDS, 0).is_some());
    assert_eq!(systemtime_to_local_naive(clock::MIN_UNIX - 1, 0), None);
    assert_eq!(systemtime_to_local_naive(clock::MAX_UNIX + 1, 0), None);
}

#[test]
fn moments_are_written_and_ordered() {
    let m = Moment {
        year: 2026,
        month: 6,
        day: 20,
        hour: 9,
        minute: 5,
        second: 3,
        nano: 0,
    };
    assert_eq!(clock::format_moment(m), "2026-06-20 09:05:03");
    assert_eq!(clock::format_day(m.day_of()), "2026-06-20");
    let leap = Moment {
        hour: 23,
        minute: 59,
        second: 59,
        nano: 1000000000,
        ..m
    };
    assert_eq!(clock::format_moment(leap), "2026-06-20 23:59:60");
    assert_eq!(
        clock::format_day(Day {
            year: 12026,
            month: 1,
            day: 2
        }),
        "+12026-01-02"
    );
    assert_eq!(
        clock::format_day(Day {
            year: -7,
            month: 1,
            day: 2
        }),
        "-0007-01-02"
    );
    let later = Moment { nano: 1, ..m };
    assert!(m.is_before(later) && !later.is_before(m) && !m.is_before(m));
    assert!(Moment { day: 19, hour: 23, ..m }.is_before(m));
}

#[test]
fn paths_are_split_and_joined() {
    assert_eq!(paths::join("/a", "b"), "/a/b");
    assert_eq!(paths::join("/a/", "b"), "/a/b");
    assert_eq!(paths::join("", "b"), "b");
    assert_eq!(paths::join("/a", "/b"), "/b");
    assert_eq!(paths::file_name("/a/b.c"), Some("b.c".to_string()));
    assert_eq!(paths::file_name("/a/b/"), Some("b".to_string()));
    assert_eq!(paths::file_name("/a/.."), None);
    assert_eq!(paths::parent("/a/b"), Some("/a".to_string()));
    assert_eq!(paths::parent("/"), None);
    assert_eq!(paths::parent("a"), Some("".to_string()));
    assert_eq!(paths::stem("a.b.c"), "a.b");
    assert_eq!(paths::stem(".hidden"), ".hidden");
    assert_eq!(paths::extension("a.b.c"), Some("c".to_string()));
    assert_eq!(paths::extension(".hidden"), None);
    assert_eq!(paths::extension("none"), None);
    assert_eq!(paths::extension("dot."), Some("".to_string()));
    // Writing the components of a path and splitting it again changes nothing.
    let c = paths::components("/a//b/./c/");
    assert_eq!(paths::path_from(&c, c.len()), "/a/b/c");
}

#[test]
fn texts_are_trimmed_compared_and_split() {
    assert_eq!(text::trim_white(" \u{3000}a b\t\n"), "a b");
    assert_eq!(text::to_ascii_lower("ÄbC"), "Äbc");
    assert!(text::text_precedes("a", "ab"));
    assert!(text::text_precedes("Z", "a"));
    assert!(!text::text_precedes("a", "a"));
    assert_eq!(text::split_text("a//b", '/'), vec!["a", "", "b"]);
    assert_eq!(
        text::join_text(&vec!["a".to_string(), "b".to_string()], ", "),
        "a, b"
    );
    assert_eq!(text::unsigned_text(7, 3), "007");
    assert_eq!(text::signed_text(-7, 4), "-007");
}
