//! nyaa.si: an HTML results table with seeders and leechers.

use vstd::prelude::*;
use vstd::string::*;
use crate::dedup::views;
use crate::html::{page_rows, rows_view, find_magnet, first_magnet, table_rows, HtmlCell, HtmlLink};
use crate::magnet::extract_hash;
use crate::providers::{count_or_zero, parse_u32, hash_or_empty, keep_some, params_view, read_u32, sizes_read};
use crate::text::{trim, trim_str};
use crate::torrent::{Torrent, TorrentView};

verus! {

/// The nyaa.si site.
pub struct Nyaa;

/// The name of a row from the links of its name cell: the last link when
/// there are two or more, else the only one; empty without links.
pub open spec fn nyaa_name(links: Seq<HtmlLink>) -> Seq<char> {
    if links.len() >= 2 {
        trim(links.last().text@)
    } else if links.len() == 1 {
        trim(links[0].text@)
    } else {
        Seq::empty()
    }
}

/// The result one row of nyaa's table gives, when its size column reads
/// `size` bytes: rows of fewer than seven cells give none; else the name
/// comes from cell 1, the magnet link is the first one in cell 2, the
/// seeders and leechers are the numbers in cells 5 and 6 (trimmed, 0 when
/// they are none); rows without a name or a magnet link give none.
pub open spec fn nyaa_row(cells: Seq<HtmlCell>, size: u64) -> Option<TorrentView> {
    if cells.len() < 7 {
        None
    } else {
        let name = nyaa_name(cells[1].links@);
        let magnet = first_magnet(cells[2].links@);
        if name.len() == 0 || magnet.len() == 0 {
            None
        } else {
            Some(
                TorrentView {
                    name,
                    info_hash: hash_or_empty(magnet),
                    magnet,
                    seeders: count_or_zero(trim(cells[5].text@)),
                    leechers: count_or_zero(trim(cells[6].text@)),
                    size_bytes: size,
                    providers: seq!["nyaa"@],
                },
            )
        }
    }
}

/// A row gives a result exactly when it has seven cells or more, a name in
/// cell 1 and a magnet link in cell 2. The result carries the seeders read
/// from cell 5 and the leechers read from cell 6 (trimmed; 0 when the text
/// is not a number), the size read for the row, the first magnet link of
/// cell 2 and the hash in it, and lists nyaa as its site.
pub proof fn lemma_nyaa_row(cells: Seq<HtmlCell>, size: u64)
    ensures
        nyaa_row(cells, size) is Some <==> (cells.len() >= 7 && nyaa_name(cells[1].links@).len() > 0
            && first_magnet(cells[2].links@).len() > 0),
        nyaa_row(cells, size) matches Some(t) ==> {
            &&& t.name == nyaa_name(cells[1].links@)
            &&& t.magnet == first_magnet(cells[2].links@)
            &&& t.info_hash == hash_or_empty(t.magnet)
            &&& parse_u32(trim(cells[5].text@)) matches Some(v) ==> t.seeders == v
            &&& parse_u32(trim(cells[5].text@)) is None ==> t.seeders == 0
            &&& parse_u32(trim(cells[6].text@)) matches Some(v) ==> t.leechers == v
            &&& parse_u32(trim(cells[6].text@)) is None ==> t.leechers == 0
            &&& t.size_bytes == size
            &&& t.providers == seq!["nyaa"@]
        },
{
}

/// What nyaa's table gives: for some sizes read from the rows, the results
/// of the rows in order.
pub open spec fn nyaa_results<F: Fn(&String) -> u64>(
    rows: Seq<Vec<HtmlCell>>,
    size_of: F,
    r: Seq<TorrentView>,
) -> bool {
    exists|sizes: Seq<u64>|
        sizes_read(rows, size_of, 3, 7, sizes) && r == keep_some(
            Seq::new(rows.len(), |i: int| nyaa_row(rows[i]@, sizes[i])),
        )
}

fn row_torrent<F: Fn(&String) -> u64>(cells: &Vec<HtmlCell>, size_of: &F) -> (r: (
    Option<Torrent>,
    Ghost<u64>,
))
    requires
        forall|s: &String| size_of.requires((s,)),
    ensures
        cells@.len() >= 7 ==> size_of.ensures((&cells@[3].text,), r.1@),
        match r.0 {
            Some(t) => nyaa_row(cells@, r.1@) == Some(t@),
            None => nyaa_row(cells@, r.1@) is None,
        },
{
    if cells.len() < 7 {
        return (None, Ghost(0));
    }
    let links = &cells[1].links;
    let name = if links.len() >= 2 {
        String::from_str(trim_str(links[links.len() - 1].text.as_str()))
    } else if links.len() == 1 {
        String::from_str(trim_str(links[0].text.as_str()))
    } else {
        String::new()
    };
    let magnet = find_magnet(&cells[2].links);
    let info_hash = match extract_hash(magnet.as_str()) {
        Some(h) => h,
        None => String::new(),
    };
    let size_bytes = size_of(&cells[3].text);
    let seeders = match read_u32(trim_str(cells[5].text.as_str())) {
        Some(v) => v,
        None => 0,
    };
    let leechers = match read_u32(trim_str(cells[6].text.as_str())) {
        Some(v) => v,
        None => 0,
    };
    if name.as_str().is_empty() || magnet.as_str().is_empty() {
        return (None, Ghost(size_bytes));
    }
    let t = Torrent {
        name,
        info_hash,
        magnet,
        seeders,
        leechers,
        size_bytes,
        providers: vec!["nyaa"],
    };
    assert(t@ =~= nyaa_row(cells@, size_bytes).unwrap());
    (Some(t), Ghost(size_bytes))
}

impl Nyaa {
    /// The address of nyaa's search.
    pub fn search_url() -> (r: &'static str)
        ensures
            r@ == "https://nyaa.si/"@,
    {
        "https://nyaa.si/"
    }

    /// The query parameters that search nyaa for `query` in every category,
    /// most seeded first.
    pub fn search_params(query: &str) -> (r: Vec<(&'static str, String)>)
        ensures
            params_view(r@) == seq![
                ("f"@, "0"@),
                ("c"@, "0_0"@),
                ("q"@, query@),
                ("s"@, "seeders"@),
                ("o"@, "desc"@),
            ],
    {
        let r = vec![
            ("f", String::from_str("0")),
            ("c", String::from_str("0_0")),
            ("q", String::from_str(query)),
            ("s", String::from_str("seeders")),
            ("o", String::from_str("desc")),
        ];
        assert(params_view(r@) =~= seq![
            ("f"@, "0"@),
            ("c"@, "0_0"@),
            ("q"@, query@),
            ("s"@, "seeders"@),
            ("o"@, "desc"@),
        ]);
        r
    }

    /// The results of nyaa's table, given as rows of cells, in order; the
    /// size columns are read by `size_of`.
    pub fn torrents<F: Fn(&String) -> u64>(rows: &Vec<Vec<HtmlCell>>, size_of: &F) -> (r: Vec<
        Torrent,
    >)
        requires
            forall|s: &String| size_of.requires((s,)),
        ensures
            nyaa_results(rows@, *size_of, views(r@)),
    {
        let mut r: Vec<Torrent> = Vec::new();
        let ghost mut sizes: Seq<u64> = Seq::empty();
        let mut i: usize = 0;
        while i < rows.len()
            invariant
                i <= rows@.len(),
                forall|s: &String| size_of.requires((s,)),
                sizes_read(rows@.take(i as int), *size_of, 3, 7, sizes),
                views(r@) == keep_some(
                    Seq::new(i as nat, |k: int| nyaa_row(rows@[k]@, sizes[k])),
                ),
            decreases rows@.len() - i,
        {
            let (t, Ghost(z)) = row_torrent(&rows[i], size_of);
            let ghost before = views(r@);
            let ghost old_sizes = sizes;
            proof {
                sizes = sizes.push(z);
            }
            let ghost next = Seq::new((i + 1) as nat, |k: int| nyaa_row(rows@[k]@, sizes[k]));
            assert(next.drop_last() =~= Seq::new(i as nat, |k: int| nyaa_row(rows@[k]@, old_sizes[k])));
            match t {
                Some(t) => {
                    r.push(t);
                    assert(views(r@) =~= before.push(t@));
                },
                None => {},
            }
            assert forall|k: int|
                0 <= k < rows@.take(i + 1).len() && rows@.take(i + 1)[k]@.len() >= 7 implies size_of.ensures(
                (&rows@.take(i + 1)[k]@[3].text,),
                #[trigger] sizes[k],
            ) by {
                if k < i {
                    assert(rows@.take(i as int)[k] == rows@[k]);
                }
            }
            i = i + 1;
        }
        assert(rows@.take(i as int) =~= rows@);
        r
    }

    /// The results of a nyaa results page.
    pub fn page_torrents<F: Fn(&String) -> u64>(html: &str, size_of: &F) -> (r: Vec<Torrent>)
        requires
            forall|s: &String| size_of.requires((s,)),
        ensures
            exists|rows: Seq<Vec<HtmlCell>>|
                rows_view(rows) == page_rows(html@, "tbody tr"@, "td"@, "a"@) && nyaa_results(
                    rows,
                    *size_of,
                    views(r@),
                ),
    {
        let rows = table_rows(html, "tbody tr");
        Self::torrents(&rows, size_of)
    }
}

} // verus!
