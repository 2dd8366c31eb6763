use torrent_search::size::{eztv_size_fields, nyaa_size_fields, yts_size_fields};

fn float_size_eztv(s: &str) -> u64 {
    let s = s.trim().to_lowercase();
    let parts: Vec<&str> = s.split_whitespace().collect();
    if parts.len() != 2 {
        return 0;
    }
    let num: f64 = parts[0].parse().unwrap_or(0.0);
    let mult = match parts[1] {
        "tb" => 1_000_000_000_000.0,
        "gb" => 1_000_000_000.0,
        "mb" => 1_000_000.0,
        "kb" => 1_000.0,
        _ => 1.0,
    };
    (num * mult) as u64
}

fn float_size_nyaa(s: &str) -> u64 {
    let s = s.trim();
    let parts: Vec<&str> = s.split_whitespace().collect();
    if parts.len() != 2 {
        return 0;
    }
    let num: f64 = parts[0].parse().unwrap_or(0.0);
    let mult = match parts[1] {
        "TiB" => 1024.0 * 1024.0 * 1024.0 * 1024.0,
        "GiB" => 1024.0 * 1024.0 * 1024.0,
        "MiB" => 1024.0 * 1024.0,
        "KiB" => 1024.0,
        _ => 1.0,
    };
    (num * mult) as u64
}

fn float_size_yts(s: &str) -> u64 {
    let s = s.to_lowercase();
    let (num, mult) = if let Some(n) = s.strip_suffix("gb") {
        (n.trim().parse::<f64>().unwrap_or(0.0), 1_000_000_000.0)
    } else if let Some(n) = s.strip_suffix("mb") {
        (n.trim().parse::<f64>().unwrap_or(0.0), 1_000_000.0)
    } else {
        (0.0, 1.0)
    };
    (num * mult) as u64
}

fn scaled(fields: Option<(String, u64)>) -> u64 {
    match fields {
        None => 0,
        Some((num, mult)) => (num.parse::<f64>().unwrap_or(0.0) * mult as f64) as u64,
    }
}

const SAMPLES: &[&str] = &[
    "", "1.5 GB", "1.5 gb", " 700 MB ", "2 TB", "12 KB", "3 B", "1.2.3 GB", "abc GB", "1 GB extra",
    "1GB", "1.5 GiB", "700 MiB", "2 TiB", "12 KiB", "3 Bytes", "-1 GiB", "inf GiB", "NaN MiB",
    "1e3 KiB", "1.23 GB", "845.5 MB", "1.23GB", " 2 mb", "x", "gb", "  MB", "18446744073709551616 TiB",
];

#[test]
fn eztv_size_fields_match_float_reading() {
    for s in SAMPLES {
        assert_eq!(scaled(eztv_size_fields(s)), float_size_eztv(s), "{s:?}");
    }
    assert_eq!(eztv_size_fields(" 1.5 GB "), Some(("1.5".to_string(), 1_000_000_000)));
    assert_eq!(eztv_size_fields("1.5"), None);
}

#[test]
fn nyaa_size_fields_match_float_reading() {
    for s in SAMPLES {
        assert_eq!(scaled(nyaa_size_fields(s)), float_size_nyaa(s), "{s:?}");
    }
    assert_eq!(nyaa_size_fields("2 MiB"), Some(("2".to_string(), 1024 * 1024)));
    assert_eq!(nyaa_size_fields("2 mib"), Some(("2".to_string(), 1)));
}

#[test]
fn yts_size_fields_match_float_reading() {
    for s in SAMPLES {
        assert_eq!(scaled(yts_size_fields(s)), float_size_yts(s), "{s:?}");
    }
    assert_eq!(yts_size_fields("1.23 GB"), Some(("1.23".to_string(), 1_000_000_000)));
    assert_eq!(yts_size_fields("845 KB"), None);
}
