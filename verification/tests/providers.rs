use torrent_search::html::{HtmlCell, HtmlLink};
use torrent_search::magnet::build_magnet;
use torrent_search::providers::apibay::{Apibay, ApibayEntry};
use torrent_search::providers::eztv::Eztv;
use torrent_search::providers::knaben::{Knaben, KnabenHit};
use torrent_search::providers::nyaa::Nyaa;
use torrent_search::providers::yts::{Yts, YtsEntry, YtsMovie};
use torrent_search::providers::{is_selected, provider_names};
use torrent_search::torrent::Torrent;

fn entry(name: &str, hash: &str, s: &str, l: &str, size: &str) -> ApibayEntry {
    ApibayEntry {
        name: name.to_string(),
        info_hash: hash.to_string(),
        seeders: s.to_string(),
        leechers: l.to_string(),
        size: size.to_string(),
    }
}

#[test]
fn apibay_entries_become_results() {
    let r = Apibay::torrents(vec![
        entry("No results returned", "0000000000000000000000000000000000000000", "0", "0", "0"),
        entry("Good One", "ABCDEF", "12", "3", "1048576"),
        entry("Bad Count", "abc", "x", "3", "10"),
        entry("Huge", "DEF", "4294967296", "0", "1"),
        entry("Plus", "0F", "+7", "0", "18446744073709551615"),
    ]);
    assert_eq!(r.len(), 2);
    assert_eq!(r[0].name, "Good One");
    assert_eq!(r[0].info_hash, "abcdef");
    assert_eq!(r[0].magnet, build_magnet("ABCDEF", "Good One"));
    assert_eq!((r[0].seeders, r[0].leechers, r[0].size_bytes), (12, 3, 1048576));
    assert_eq!(r[0].providers, vec!["apibay"]);
    assert_eq!(r[1].name, "Plus");
    assert_eq!((r[1].seeders, r[1].size_bytes), (7, u64::MAX));
}

#[test]
fn knaben_hits_become_results() {
    let hit = |title: &str, hash: Option<&str>, magnet: Option<&str>| KnabenHit {
        title: title.to_string(),
        hash: hash.map(|h| h.to_string()),
        seeders: 9,
        peers: 4,
        bytes: 77,
        magnet_url: magnet.map(|m| m.to_string()),
    };
    let r = Knaben::torrents(vec![
        hit("no hash", None, Some("magnet:?x")),
        hit("empty hash", Some(""), None),
        hit("own magnet", Some("AAAA"), Some("magnet:?xt=urn:btih:AAAA&dn=own")),
        hit("built magnet", Some("BbBb"), None),
    ]);
    assert_eq!(r.len(), 2);
    assert_eq!(r[0].magnet, "magnet:?xt=urn:btih:AAAA&dn=own");
    assert_eq!(r[0].info_hash, "aaaa");
    assert_eq!(r[1].magnet, build_magnet("BbBb", "built magnet"));
    assert_eq!(r[1].info_hash, "bbbb");
    assert_eq!((r[1].seeders, r[1].leechers, r[1].size_bytes), (9, 4, 77));
    assert_eq!(r[1].providers, vec!["knaben"]);
}

#[test]
fn yts_movies_become_results() {
    let e = |hash: &str, q: &str, size: u64| YtsEntry {
        hash: hash.to_string(),
        seeds: 10,
        peers: 2,
        size_bytes: size,
        quality: q.to_string(),
        codec_type: "web".to_string(),
    };
    let r = Yts::torrents(Some(vec![
        YtsMovie { title: "Movie A".to_string(), torrents: vec![e("AA", "720p", 1), e("BB", "1080p", 2)] },
        YtsMovie { title: "Movie B".to_string(), torrents: vec![] },
        YtsMovie { title: "Movie C".to_string(), torrents: vec![e("CC", "2160p", 3)] },
    ]));
    let names: Vec<_> = r.iter().map(|t| t.name.clone()).collect();
    assert_eq!(names, vec!["Movie A [720p] [web]", "Movie A [1080p] [web]", "Movie C [2160p] [web]"]);
    assert_eq!(r[1].info_hash, "bb");
    assert_eq!(r[1].magnet, build_magnet("BB", "Movie A"));
    assert_eq!(r[2].size_bytes, 3);
    assert!(Yts::torrents(None).is_empty());
}

fn cell(text: &str, links: Vec<(&str, Option<&str>)>) -> HtmlCell {
    HtmlCell {
        text: text.to_string(),
        links: links
            .into_iter()
            .map(|(t, h)| HtmlLink { text: t.to_string(), href: h.map(|x| x.to_string()) })
            .collect(),
    }
}

fn size_of(s: &String) -> u64 {
    s.trim().len() as u64
}

fn eztv_good_row() -> Vec<HtmlCell> {
    vec![
        cell("", vec![]),
        cell(" Show S01E01 ", vec![(" Show S01E01 ", Some("/ep/1"))]),
        cell("", vec![("dl", Some("https://x/t.torrent")), ("m", Some("magnet:?xt=urn:btih:ABC&dn=s"))]),
        cell(" 1.5 GB ", vec![]),
        cell("1 week", vec![]),
        cell(" 1,234 ", vec![]),
    ]
}

#[test]
fn eztv_rows_become_results() {
    let mut short = eztv_good_row();
    short.pop();
    let mut nameless = eztv_good_row();
    nameless[1] = cell("Show", vec![]);
    let mut no_magnet = eztv_good_row();
    no_magnet[2] = cell("", vec![("dl", Some("https://x/t.torrent")), ("none", None)]);
    let r = Eztv::torrents(&vec![eztv_good_row(), short, nameless, no_magnet], &size_of);
    assert_eq!(r.len(), 1);
    assert_eq!(r[0].name, "Show S01E01");
    assert_eq!(r[0].magnet, "magnet:?xt=urn:btih:ABC&dn=s");
    assert_eq!(r[0].info_hash, "abc");
    assert_eq!(r[0].seeders, 1234);
    assert_eq!(r[0].leechers, 0);
    assert_eq!(r[0].size_bytes, 6);
    assert_eq!(r[0].providers, vec!["eztv"]);
}

#[test]
fn nyaa_rows_become_results() {
    let row = |links1: Vec<(&str, Option<&str>)>, seeders: &str| {
        vec![
            cell("Anime", vec![]),
            cell("", links1),
            cell("", vec![("t", Some("/download/1.torrent")), ("m", Some("magnet:?xt=urn:btih:DEAD&dn=x"))]),
            cell("1.0 GiB", vec![]),
            cell("2024-01-01", vec![]),
            cell(seeders, vec![]),
            cell(" 7 ", vec![]),
            cell("100", vec![]),
        ]
    };
    let r = Nyaa::torrents(
        &vec![
            row(vec![("comments", Some("#c")), (" Title Two ", Some("/view/2"))], " 42 "),
            row(vec![("Only", Some("/view/3"))], "many"),
            row(vec![], "1"),
        ],
        &size_of,
    );
    assert_eq!(r.len(), 2);
    assert_eq!(r[0].name, "Title Two");
    assert_eq!((r[0].seeders, r[0].leechers, r[0].size_bytes), (42, 7, 7));
    assert_eq!(r[0].info_hash, "dead");
    assert_eq!(r[1].name, "Only");
    assert_eq!(r[1].seeders, 0);
    assert_eq!(r[1].providers, vec!["nyaa"]);
}

#[test]
fn nyaa_page_is_read_from_html() {
    let html = r#"<html><body><table><tbody>
<tr><td>Cat</td><td><a href="/view/1"> Some Anime 01 </a></td>
<td><a href="/download/1.torrent">t</a><a href="magnet:?xt=urn:btih:ABCD&amp;dn=x">m</a></td>
<td>1.0 GiB</td><td>date</td><td>15</td><td>3</td><td>0</td></tr>
<tr><td>too short</td></tr>
</tbody></table></body></html>"#;
    let r = Nyaa::page_torrents(html, &size_of);
    assert_eq!(r.len(), 1);
    assert_eq!(r[0].name, "Some Anime 01");
    assert_eq!(r[0].magnet, "magnet:?xt=urn:btih:ABCD&dn=x");
    assert_eq!(r[0].info_hash, "abcd");
    assert_eq!((r[0].seeders, r[0].leechers), (15, 3));
}

#[test]
fn eztv_page_is_read_from_html() {
    let html = r#"<table><tbody>
<tr class="forum_header_border"><td>x</td><td><a href="/ep/1">Show S01E02</a></td>
<td><a href="magnet:?xt=urn:btih:FEED&amp;dn=s">m</a></td><td>300 MB</td><td>1d</td><td>2,000</td></tr>
<tr><td>a</td><td><a>Other</a></td><td><a href="magnet:?xt=urn:btih:1">m</a></td><td>1</td><td>1</td><td>1</td></tr>
</tbody></table>"#;
    let r = Eztv::page_torrents(html, &size_of);
    assert_eq!(r.len(), 1);
    assert_eq!(r[0].name, "Show S01E02");
    assert_eq!(r[0].info_hash, "feed");
    assert_eq!(r[0].seeders, 2000);
}

#[test]
fn eztv_search_url_replaces_spaces() {
    assert_eq!(Eztv::search_url("the show s01"), "https://eztvx.to/search/the-show-s01");
    assert_eq!(Eztv::search_url(""), "https://eztvx.to/search/");
}

#[test]
fn site_selection() {
    assert_eq!(provider_names(), vec!["apibay", "yts", "knaben", "nyaa", "eztv"]);
    assert!(is_selected("yts", &None));
    assert!(is_selected("yts", &Some(vec!["nyaa".to_string(), "yts".to_string()])));
    assert!(!is_selected("eztv", &Some(vec!["nyaa".to_string()])));
    assert!(!is_selected("eztv", &Some(vec![])));
}

#[test]
fn results_carry_one_site() {
    let r: Vec<Torrent> = Apibay::torrents(vec![entry("n", "H", "1", "1", "1")]);
    assert_eq!(r[0].providers.len(), 1);
}

#[test]
fn request_parameters() {
    assert_eq!(Apibay::search_url(), "https://apibay.org/q.php");
    assert_eq!(Apibay::search_params("a b"), vec![("q", "a b".to_string())]);
    assert_eq!(Yts::search_url(), "https://yts.do/api/v2/list_movies.json");
    assert_eq!(
        Yts::search_params("x"),
        vec![("query_term", "x".to_string()), ("sort_by", "seeds".to_string()), ("order_by", "desc".to_string())]
    );
    assert_eq!(Nyaa::search_url(), "https://nyaa.si/");
    assert_eq!(Nyaa::search_params("q")[2], ("q", "q".to_string()));
    assert_eq!(Nyaa::search_params("q").len(), 5);
    assert_eq!(Eztv::search_form(), vec![("layout", "def_wlinks".to_string())]);
    let k = Knaben::search_request("dune");
    assert_eq!((k.search_type, k.search_field, k.query.as_str()), ("100%", "title", "dune"));
    assert_eq!((k.order_by, k.order_direction, k.hide_unsafe, k.hide_xxx, k.limit), ("seeders", "desc", true, true, 100));
    assert_eq!(Knaben::search_url(), "https://api.knaben.org/v1");
}
