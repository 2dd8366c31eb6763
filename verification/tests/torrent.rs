use torrent_search::torrent::Torrent;

fn torrent(hash: &str, seeders: u32, leechers: u32, size: u64, providers: Vec<&'static str>) -> Torrent {
    Torrent {
        name: format!("name-{hash}"),
        info_hash: hash.to_string(),
        magnet: format!("magnet:?xt=urn:btih:{hash}"),
        seeders,
        leechers,
        size_bytes: size,
        providers,
    }
}

fn format_size_by_float(size_bytes: u64) -> String {
    const KIB: u64 = 1024;
    const MIB: u64 = 1024 * KIB;
    const GIB: u64 = 1024 * MIB;
    const TIB: u64 = 1024 * GIB;
    match size_bytes {
        b if b >= TIB => format!("{:.1} TiB", b as f64 / TIB as f64),
        b if b >= GIB => format!("{:.1} GiB", b as f64 / GIB as f64),
        b if b >= MIB => format!("{:.1} MiB", b as f64 / MIB as f64),
        b if b >= KIB => format!("{:.1} KiB", b as f64 / KIB as f64),
        b => format!("{b} B"),
    }
}

#[test]
fn format_size_examples() {
    assert_eq!(torrent("a", 0, 0, 0, vec![]).format_size(), "0 B");
    assert_eq!(torrent("a", 0, 0, 1023, vec![]).format_size(), "1023 B");
    assert_eq!(torrent("a", 0, 0, 1024, vec![]).format_size(), "1.0 KiB");
    assert_eq!(torrent("a", 0, 0, 1536, vec![]).format_size(), "1.5 KiB");
    assert_eq!(torrent("a", 0, 0, 1024 * 1024 * 700, vec![]).format_size(), "700.0 MiB");
    assert_eq!(torrent("a", 0, 0, 1_500_000_000, vec![]).format_size(), "1.4 GiB");
    assert_eq!(torrent("a", 0, 0, 1u64 << 40, vec![]).format_size(), "1.0 TiB");
    assert_eq!(torrent("a", 0, 0, u64::MAX, vec![]).format_size(), "16777216.0 TiB");
}

#[test]
fn format_size_matches_float_formatting() {
    let mut values: Vec<u64> = Vec::new();
    for shift in 0..64u32 {
        let base = 1u64 << shift;
        for d in [0u64, 1, 2, 3, 51, 52, 100, 511, 512, 513, 1023] {
            values.push(base.wrapping_add(d));
            values.push(base.wrapping_sub(d));
            values.push(base.wrapping_mul(3).wrapping_add(d));
        }
    }
    // tie points of the one-decimal rounding, and their neighbours
    for unit_shift in [10u32, 20, 30, 40] {
        for m in [1u64, 3, 5, 7, 9, 11, 13, 101, 12345] {
            let tie = (m << unit_shift) / 20;
            for d in [0u64, 1, 2] {
                values.push(tie + d);
                values.push(tie.saturating_sub(d));
            }
        }
    }
    // large values where `as f64` rounds
    for k in 0..2000u64 {
        values.push(u64::MAX - k);
        values.push((1u64 << 53) + k);
        values.push((1u64 << 63) + k * 977);
        values.push(((1u64 << 38) * 5 * (2 * k + 1)).wrapping_add(k % 3));
    }
    let mut x: u64 = 0x9E3779B97F4A7C15;
    for _ in 0..200000 {
        x ^= x << 13;
        x ^= x >> 7;
        x ^= x << 17;
        values.push(x >> (x % 64));
    }
    for v in values {
        assert_eq!(torrent("a", 0, 0, v, vec![]).format_size(), format_size_by_float(v), "size {v}");
    }
}

#[test]
fn merge_keeps_larger_counts_and_adds_sites() {
    let mut a = torrent("h", 10, 2, 5, vec!["apibay", "yts"]);
    let b = torrent("h", 3, 9, 7, vec!["nyaa", "apibay", "nyaa"]);
    a.merge(b);
    assert_eq!(a.seeders, 10);
    assert_eq!(a.leechers, 9);
    assert_eq!(a.size_bytes, 5);
    assert_eq!(a.name, "name-h");
    assert_eq!(a.providers, vec!["apibay", "yts", "nyaa"]);
}

#[test]
fn merge_with_itself_changes_nothing() {
    let mut a = torrent("h", 4, 5, 6, vec!["eztv", "knaben"]);
    let b = a.clone();
    a.merge(b);
    assert_eq!(a.seeders, 4);
    assert_eq!(a.leechers, 5);
    assert_eq!(a.providers, vec!["eztv", "knaben"]);
}

#[test]
fn merge_counts_commute() {
    let mut a = torrent("h", 4, 50, 6, vec!["eztv"]);
    let mut b = torrent("h", 40, 5, 6, vec!["yts"]);
    let (a2, b2) = (a.clone(), b.clone());
    a.merge(b2);
    b.merge(a2);
    assert_eq!((a.seeders, a.leechers), (b.seeders, b.leechers));
}
