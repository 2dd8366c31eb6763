use torrent_search::choice::chosen_result;
use torrent_search::table::{join_names, table_lines};
use torrent_search::torrent::Torrent;

fn torrent(name: &str, seeders: u32, leechers: u32, size: u64, providers: Vec<&'static str>) -> Torrent {
    Torrent {
        name: name.to_string(),
        info_hash: "h".to_string(),
        magnet: "m".to_string(),
        seeders,
        leechers,
        size_bytes: size,
        providers,
    }
}

fn formatted_lines(results: &[Torrent], term_width: usize) -> Vec<String> {
    let mut out = Vec::new();
    if results.is_empty() {
        out.push("No results found.".to_string());
        return out;
    }
    let src_width = results.iter().map(|t| t.providers.join(",").len()).max().unwrap_or(6).max(3);
    let overhead = 6 + 8 + 4 + 4 + src_width + 4 * 3;
    let name_width = term_width.saturating_sub(overhead).max(20);
    out.push(format!(
        "{:>3} | {:<name_w$} | {:>8} | {:>4} | {:>4} | {}",
        "#", "Name", "Size", "S", "L", "Src",
        name_w = name_width,
    ));
    out.push("─".repeat(term_width.min(200)));
    for (i, t) in results.iter().enumerate() {
        let name = if t.name.chars().count() > name_width {
            let truncated: String = t.name.chars().take(name_width - 1).collect();
            format!("{truncated}…")
        } else {
            t.name.clone()
        };
        let src = t.providers.join(",");
        out.push(format!(
            "{:>3} | {:<name_w$} | {:>8} | {:>4} | {:>4} | {}",
            i + 1,
            name,
            t.format_size(),
            t.seeders,
            t.leechers,
            src,
            name_w = name_width,
        ));
    }
    out
}

fn results() -> Vec<Torrent> {
    vec![
        torrent("A very long torrent name that will not fit in a narrow terminal at all", 1200, 3, 1 << 33, vec!["apibay", "knaben"]),
        torrent("Short", 7, 12345, 999, vec!["eztv"]),
        torrent("Ünïcödé name with accents éééééééééééééééééééééé", 0, 0, 5_000_000, vec!["nyaa", "yts", "apibay"]),
    ]
}

#[test]
fn table_matches_format_layout() {
    for w in [0usize, 10, 40, 60, 80, 120, 200, 250, 1000] {
        assert_eq!(table_lines(&results(), w), formatted_lines(&results(), w), "width {w}");
    }
}

#[test]
fn empty_table_says_so() {
    assert_eq!(table_lines(&Vec::new(), 80), vec!["No results found.".to_string()]);
}

#[test]
fn table_example_line() {
    let lines = table_lines(&vec![torrent("Short", 7, 3, 1536, vec!["eztv"])], 0);
    assert_eq!(lines[0], "  # | Name                 |     Size |    S |    L | Src");
    assert_eq!(lines[1], "");
    assert_eq!(lines[2], "  1 | Short                |  1.5 KiB |    7 |    3 | eztv");
}

#[test]
fn names_are_joined_by_commas() {
    assert_eq!(join_names(&vec![]), "");
    assert_eq!(join_names(&vec!["yts"]), "yts");
    assert_eq!(join_names(&vec!["yts", "nyaa", "eztv"]), "yts,nyaa,eztv");
}

#[test]
fn get_picks_from_one() {
    assert_eq!(chosen_result(3, 0), Some(0));
    assert_eq!(chosen_result(3, 1), Some(0));
    assert_eq!(chosen_result(3, 3), Some(2));
    assert_eq!(chosen_result(3, 4), None);
    assert_eq!(chosen_result(0, 1), None);
}
