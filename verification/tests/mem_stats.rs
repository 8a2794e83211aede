use rotonda::mem_stats::{
    bmp_out_snapshot, fmt_bytes, fmt_count, page_size, read_rss_bytes, resident_bytes,
    BmpOutCounters,
};

/// The text that floating point arithmetic gives.
fn float_bytes(n: usize) -> String {
    let units = ["B", "KiB", "MiB", "GiB", "TiB"];
    let mut v = n as f64;
    let mut unit = 0;
    while v >= 1024.0 && unit < units.len() - 1 {
        v /= 1024.0;
        unit += 1;
    }
    if unit == 0 {
        format!("{} B", n)
    } else {
        format!("{:.2} {}", v, units[unit])
    }
}

fn float_count(n: usize) -> String {
    let v = n as f64;
    if n >= 1_000_000_000 {
        format!("{:.2}G", v / 1e9)
    } else if n >= 1_000_000 {
        let text = format!("{:.2}M", v / 1e6);
        if text.find('.').unwrap() > 2 {
            format!("{:.1}M", v / 1e6)
        } else {
            text
        }
    } else if n >= 1_000 {
        format!("{:.1}k", v / 1e3)
    } else {
        n.to_string()
    }
}

fn samples() -> Vec<usize> {
    let mut all = vec![0, 1, 999, 1000, 1004, 1005, 1006, 1014, 1015, 1023, 1024, 1025, 1029, 1030];
    for shift in 10..64 {
        let p = 1usize << shift;
        for d in 0..6 {
            all.push(p - d);
            all.push(p + d);
            all.push(p + p / 200 + d);
            all.push(p + p / 3 + d);
        }
    }
    let mut ten = 1000usize;
    while ten < usize::MAX / 10 {
        for k in [1, 2, 5, 7, 9] {
            for d in 0..4 {
                all.push(ten * k + d);
                all.push(ten * k - d);
                all.push(ten * k + ten * k / 200 + d);
                all.push(ten * k + ten / 1000 * 5 + d);
                all.push(ten * k + ten / 1000 * 15 + d);
            }
        }
        ten *= 10;
    }
    let mut x = 0x2545_f491_4f6c_dd1du64;
    for _ in 0..2000 {
        x ^= x << 13;
        x ^= x >> 7;
        x ^= x << 17;
        for shift in [0, 11, 22, 33, 44] {
            all.push((x >> shift) as usize);
        }
    }
    all.push(usize::MAX);
    all
}

#[test]
fn sizes_are_written_as_floating_point_writes_them() {
    for n in samples() {
        assert_eq!(fmt_bytes(n), float_bytes(n), "{}", n);
    }
    assert_eq!(fmt_bytes(1536), "1.50 KiB");
    assert_eq!(fmt_bytes(268_435_456), "256.00 MiB");
}

#[test]
fn counts_are_written_as_floating_point_writes_them() {
    for n in samples() {
        assert_eq!(fmt_count(n), float_count(n), "{}", n);
    }
    assert_eq!(fmt_count(305_000_000), "305.0M");
    assert_eq!(fmt_count(99_999_999), "100.0M");
    assert_eq!(fmt_count(99_990_000), "99.99M");
    assert_eq!(fmt_count(1_500_000), "1.50M");
    assert_eq!(fmt_count(45_000), "45.0k");
    assert_eq!(fmt_count(999), "999");
}

#[test]
fn the_second_count_is_that_of_resident_pages() {
    assert_eq!(resident_bytes("1000 250 3 4 5 6 7\n", 4096), Some(250 * 4096));
    assert_eq!(resident_bytes("  1000\t+250", 4096), Some(250 * 4096));
    assert_eq!(resident_bytes("1000", 4096), None);
    assert_eq!(resident_bytes("", 4096), None);
    assert_eq!(resident_bytes("1 -2", 4096), None);
    assert_eq!(resident_bytes("1 +", 4096), None);
    assert_eq!(resident_bytes("1 2x", 4096), None);
    assert_eq!(resident_bytes("1 18446744073709551616", 1), None);
    assert_eq!(resident_bytes("1 18446744073709551615", 1), Some(usize::MAX));
    assert_eq!(resident_bytes("1 18446744073709551615", 2), Some(usize::MAX));
}

#[test]
fn the_page_size_has_a_default() {
    assert_eq!(page_size(16384), 16384);
    assert_eq!(page_size(0), 4096);
    assert_eq!(page_size(-1), 4096);
    assert_eq!(read_rss_bytes(Some("5 6"), -1), Some(6 * 4096));
    assert_eq!(read_rss_bytes(Some("5 6"), 1024), Some(6 * 1024));
    assert_eq!(read_rss_bytes(None, 1024), None);
}

#[test]
fn the_snapshot_holds_the_counters() {
    let s = bmp_out_snapshot(&BmpOutCounters { clients: 1, buffered_bytes: 2, buffered_entries: 3 });
    assert_eq!((s.clients, s.buffered_bytes, s.buffered_entries), (1, 2, 3));
}
