use std::collections::HashMap;
use torrent_search::dedup::dedup;
use torrent_search::torrent::Torrent;

fn torrent(name: &str, hash: &str, seeders: u32, leechers: u32, providers: Vec<&'static str>) -> Torrent {
    Torrent {
        name: name.to_string(),
        info_hash: hash.to_string(),
        magnet: format!("magnet:?xt=urn:btih:{hash}"),
        seeders,
        leechers,
        size_bytes: 1000,
        providers,
    }
}

fn vec_contains_merge(this: &mut Torrent, other: Torrent) {
    this.seeders = this.seeders.max(other.seeders);
    this.leechers = this.leechers.max(other.leechers);
    for p in other.providers {
        if !this.providers.contains(&p) {
            this.providers.push(p);
        }
    }
}

fn hashmap_dedup(mut all: Vec<Torrent>) -> Vec<Torrent> {
    let mut map: HashMap<String, Torrent> = HashMap::new();
    for t in all.drain(..) {
        if t.info_hash.is_empty() {
            continue;
        }
        map.entry(t.info_hash.clone())
            .and_modify(|existing| vec_contains_merge(existing, t.clone()))
            .or_insert(t);
    }
    let mut results: Vec<Torrent> = map.into_values().collect();
    results.sort_by(|a, b| b.seeders.cmp(&a.seeders));
    results
}

fn key(t: &Torrent) -> (String, String, u32, u32, Vec<&'static str>) {
    (t.info_hash.clone(), t.name.clone(), t.seeders, t.leechers, t.providers.clone())
}

fn sample() -> Vec<Torrent> {
    vec![
        torrent("A1", "aaa", 5, 1, vec!["apibay"]),
        torrent("B1", "bbb", 50, 3, vec!["yts"]),
        torrent("none", "", 999, 999, vec!["eztv"]),
        torrent("A2", "aaa", 7, 0, vec!["nyaa"]),
        torrent("C1", "ccc", 20, 2, vec!["knaben"]),
        torrent("A3", "aaa", 2, 8, vec!["apibay", "eztv"]),
        torrent("B2", "bbb", 1, 30, vec!["yts", "knaben"]),
    ]
}

#[test]
fn dedup_merges_by_hash_and_sorts() {
    let r = dedup(sample());
    let got: Vec<_> = r.iter().map(key).collect();
    assert_eq!(
        got,
        vec![
            ("bbb".to_string(), "B1".to_string(), 50, 30, vec!["yts", "knaben"]),
            ("ccc".to_string(), "C1".to_string(), 20, 2, vec!["knaben"]),
            ("aaa".to_string(), "A1".to_string(), 7, 8, vec!["apibay", "nyaa", "eztv"]),
        ]
    );
}

#[test]
fn dedup_matches_hashmap_grouping_up_to_ties() {
    let mut x: u64 = 12345;
    for round in 0..50 {
        let mut input = Vec::new();
        for i in 0..(round * 3) {
            x = x.wrapping_mul(6364136223846793005).wrapping_add(1442695040888963407);
            let hash = ["", "h1", "h2", "h3", "h4", "h5"][(x >> 33) as usize % 6];
            let prov = ["apibay", "yts", "knaben", "nyaa", "eztv"][(x >> 40) as usize % 5];
            input.push(torrent(&format!("t{i}"), hash, (x >> 50) as u32 % 7, (x >> 20) as u32 % 9, vec![prov]));
        }
        let ours = dedup(input.clone());
        let theirs = hashmap_dedup(input);
        for w in ours.windows(2) {
            assert!(w[0].seeders >= w[1].seeders);
        }
        let mut a: Vec<_> = ours.iter().map(key).collect();
        let mut b: Vec<_> = theirs.iter().map(key).collect();
        a.sort();
        b.sort();
        assert_eq!(a, b);
    }
}

#[test]
fn dedup_is_idempotent() {
    let once = dedup(sample());
    let twice = dedup(once.clone());
    let a: Vec<_> = once.iter().map(key).collect();
    let b: Vec<_> = twice.iter().map(key).collect();
    assert_eq!(a, b);
}

#[test]
fn dedup_of_nothing_is_nothing() {
    assert!(dedup(Vec::new()).is_empty());
    assert!(dedup(vec![torrent("x", "", 1, 1, vec!["yts"])]).is_empty());
}

#[test]
fn equal_seeders_keep_first_seen_order() {
    let r = dedup(vec![
        torrent("X", "x", 3, 0, vec!["yts"]),
        torrent("Y", "y", 3, 0, vec!["yts"]),
        torrent("Z", "z", 4, 0, vec!["yts"]),
    ]);
    let names: Vec<_> = r.iter().map(|t| t.name.clone()).collect();
    assert_eq!(names, vec!["Z", "X", "Y"]);
}

#[test]
fn dedup_of_a_reordering_keeps_hashes_counts_and_sites() {
    let mut reordered = sample();
    reordered.reverse();
    reordered.swap(0, 3);
    let a = dedup(sample());
    let b = dedup(reordered);
    assert_eq!(a.len(), b.len());
    for x in &a {
        let y = b.iter().find(|y| y.info_hash == x.info_hash).expect("same hashes");
        assert_eq!(x.seeders, y.seeders);
        assert_eq!(x.leechers, y.leechers);
        let mut px = x.providers.clone();
        let mut py = y.providers.clone();
        px.sort();
        py.sort();
        assert_eq!(px, py);
    }
    let hashes: Vec<&str> = b.iter().map(|t| t.info_hash.as_str()).collect();
    assert_eq!(hashes, vec!["bbb", "ccc", "aaa"]);
}
