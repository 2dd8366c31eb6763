use torrent_search::magnet::{build_magnet, extract_hash};

const TRACKERS: &[&str] = &[
    "udp://tracker.opentrackr.org:1337/announce",
    "udp://tracker.openbittorrent.com:6969/announce",
    "udp://open.stealth.si:80/announce",
    "udp://tracker.torrent.eu.org:451/announce",
    "udp://tracker.bittor.pw:1337/announce",
    "udp://tracker.cyberia.is:6969/announce",
];

fn magnet_by_format(hash: &str, name: &str) -> String {
    let mut magnet = format!("magnet:?xt=urn:btih:{}&dn={}", hash, urlencoding::encode(name));
    for tracker in TRACKERS {
        magnet.push_str(&format!("&tr={}", urlencoding::encode(tracker)));
    }
    magnet
}

#[test]
fn magnet_matches_format_macro() {
    for (h, n) in [
        ("ABCDEF0123", "Some Movie (2020) [1080p]"),
        ("", ""),
        ("abc", "naïve café/éé ~-._"),
        ("x&y", "a&b=c"),
    ] {
        assert_eq!(build_magnet(h, n), magnet_by_format(h, n));
    }
}

#[test]
fn magnet_exact_text() {
    let m = build_magnet("AB12", "a b");
    assert_eq!(
        m,
        "magnet:?xt=urn:btih:AB12&dn=a%20b\
&tr=udp%3A%2F%2Ftracker.opentrackr.org%3A1337%2Fannounce\
&tr=udp%3A%2F%2Ftracker.openbittorrent.com%3A6969%2Fannounce\
&tr=udp%3A%2F%2Fopen.stealth.si%3A80%2Fannounce\
&tr=udp%3A%2F%2Ftracker.torrent.eu.org%3A451%2Fannounce\
&tr=udp%3A%2F%2Ftracker.bittor.pw%3A1337%2Fannounce\
&tr=udp%3A%2F%2Ftracker.cyberia.is%3A6969%2Fannounce"
    );
}

#[test]
fn name_is_percent_encoded_in_utf8() {
    let m = build_magnet("h", "é!");
    assert!(m.starts_with("magnet:?xt=urn:btih:h&dn=%C3%A9%21&tr="));
}

#[test]
fn extract_hash_reads_up_to_ampersand() {
    assert_eq!(
        extract_hash("magnet:?xt=urn:btih:ABCDEF&dn=x&tr=y"),
        Some("abcdef".to_string())
    );
    assert_eq!(extract_hash("magnet:?xt=urn:btih:ABC"), Some("abc".to_string()));
    assert_eq!(extract_hash("magnet:?xt=urn:btih:"), Some(String::new()));
    assert_eq!(extract_hash("magnet:?xt=urn:sha1:ABC"), None);
    assert_eq!(extract_hash("http://example.com"), None);
    assert_eq!(extract_hash(""), None);
}

#[test]
fn roundtrip_of_built_magnet() {
    for (h, n) in [("ABCDEF0123456789", "Big Buck Bunny"), ("a1B2", "x&y=z"), ("", "name")] {
        assert_eq!(extract_hash(&build_magnet(h, n)), Some(h.to_lowercase()));
    }
}
