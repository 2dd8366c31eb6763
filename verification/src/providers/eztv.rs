//! eztv: an HTML results table whose rows carry a magnet link.

use vstd::prelude::*;
use vstd::string::*;
use crate::dedup::views;
use crate::html::{page_rows, rows_view, find_magnet, first_magnet, table_rows, HtmlCell};
use crate::magnet::extract_hash;
use crate::providers::{count_or_zero, parse_u32, hash_or_empty, keep_some, params_view, read_u32, sizes_read};
use crate::text::{replace_char, replace_char_str, trim, trim_str};
use crate::torrent::{Torrent, TorrentView};

verus! {

/// The eztv site.
pub struct Eztv;

/// The result one row of eztv's table gives, when its size column reads
/// `size` bytes: rows of fewer than six cells give none; else the name is
/// the trimmed text of the first link of cell 1, the magnet link the first
/// one in cell 2, the seeders the number in cell 5 (trimmed, commas
/// dropped, 0 when it is none); rows without a name or a magnet link give
/// none.
pub open spec fn eztv_row(cells: Seq<HtmlCell>, size: u64) -> Option<TorrentView> {
    if cells.len() < 6 {
        None
    } else {
        let links = cells[1].links@;
        let name = if links.len() > 0 {
            trim(links[0].text@)
        } else {
            Seq::empty()
        };
        let magnet = first_magnet(cells[2].links@);
        if name.len() == 0 || magnet.len() == 0 {
            None
        } else {
            Some(
                TorrentView {
                    name,
                    info_hash: hash_or_empty(magnet),
                    magnet,
                    seeders: count_or_zero(replace_char(trim(cells[5].text@), ',', Seq::empty())),
                    leechers: 0,
                    size_bytes: size,
                    providers: seq!["eztv"@],
                },
            )
        }
    }
}

/// A row gives a result exactly when it has six cells or more, a name in
/// the first link of cell 1 and a magnet link in cell 2. The result carries
/// the seeders read from cell 5 (trimmed, commas dropped; 0 when the text is
/// not a number), no leechers, the size read for the row, the first magnet
/// link of cell 2 and the hash in it, and lists eztv as its site.
pub proof fn lemma_eztv_row(cells: Seq<HtmlCell>, size: u64)
    ensures
        eztv_row(cells, size) is Some <==> (cells.len() >= 6 && cells[1].links@.len() > 0 && trim(
            cells[1].links@[0].text@,
        ).len() > 0 && first_magnet(cells[2].links@).len() > 0),
        eztv_row(cells, size) matches Some(t) ==> {
            let count = replace_char(trim(cells[5].text@), ',', Seq::empty());
            &&& t.name == trim(cells[1].links@[0].text@)
            &&& t.magnet == first_magnet(cells[2].links@)
            &&& t.info_hash == hash_or_empty(t.magnet)
            &&& parse_u32(count) matches Some(v) ==> t.seeders == v
            &&& parse_u32(count) is None ==> t.seeders == 0
            &&& t.leechers == 0
            &&& t.size_bytes == size
            &&& t.providers == seq!["eztv"@]
        },
{
}

/// What eztv's table gives: for some sizes read from the rows, the results
/// of the rows in order.
pub open spec fn eztv_results<F: Fn(&String) -> u64>(
    rows: Seq<Vec<HtmlCell>>,
    size_of: F,
    r: Seq<TorrentView>,
) -> bool {
    exists|sizes: Seq<u64>|
        sizes_read(rows, size_of, 3, 6, sizes) && r == keep_some(
            Seq::new(rows.len(), |i: int| eztv_row(rows[i]@, sizes[i])),
        )
}

fn row_torrent<F: Fn(&String) -> u64>(cells: &Vec<HtmlCell>, size_of: &F) -> (r: (
    Option<Torrent>,
    Ghost<u64>,
))
    requires
        forall|s: &String| size_of.requires((s,)),
    ensures
        cells@.len() >= 6 ==> size_of.ensures((&cells@[3].text,), r.1@),
        match r.0 {
            Some(t) => eztv_row(cells@, r.1@) == Some(t@),
            None => eztv_row(cells@, r.1@) is None,
        },
{
    if cells.len() < 6 {
        return (None, Ghost(0));
    }
    let name = if cells[1].links.len() > 0 {
        String::from_str(trim_str(cells[1].links[0].text.as_str()))
    } else {
        String::new()
    };
    let magnet = find_magnet(&cells[2].links);
    let info_hash = match extract_hash(magnet.as_str()) {
        Some(h) => h,
        None => String::new(),
    };
    let size_bytes = size_of(&cells[3].text);
    proof {
        reveal_strlit("");
    }
    let cleaned = replace_char_str(trim_str(cells[5].text.as_str()), ',', "");
    let seeders = match read_u32(cleaned.as_str()) {
        Some(v) => v,
        None => 0,
    };
    if name.as_str().is_empty() || magnet.as_str().is_empty() {
        return (None, Ghost(size_bytes));
    }
    let t = Torrent {
        name,
        info_hash,
        magnet,
        seeders,
        leechers: 0,
        size_bytes,
        providers: vec!["eztv"],
    };
    assert(""@ =~= Seq::<char>::empty());
    assert(t@ =~= eztv_row(cells@, size_bytes).unwrap());
    (Some(t), Ghost(size_bytes))
}

impl Eztv {
    /// The results of eztv's table, given as rows of cells, in order; the
    /// size columns are read by `size_of`.
    pub fn torrents<F: Fn(&String) -> u64>(rows: &Vec<Vec<HtmlCell>>, size_of: &F) -> (r: Vec<
        Torrent,
    >)
        requires
            forall|s: &String| size_of.requires((s,)),
        ensures
            eztv_results(rows@, *size_of, views(r@)),
    {
        let mut r: Vec<Torrent> = Vec::new();
        let ghost mut sizes: Seq<u64> = Seq::empty();
        let mut i: usize = 0;
        while i < rows.len()
            invariant
                i <= rows@.len(),
                forall|s: &String| size_of.requires((s,)),
                sizes_read(rows@.take(i as int), *size_of, 3, 6, sizes),
                views(r@) == keep_some(
                    Seq::new(i as nat, |k: int| eztv_row(rows@[k]@, sizes[k])),
                ),
            decreases rows@.len() - i,
        {
            let (t, Ghost(z)) = row_torrent(&rows[i], size_of);
            let ghost before = views(r@);
            let ghost old_sizes = sizes;
            proof {
                sizes = sizes.push(z);
            }
            let ghost next = Seq::new((i + 1) as nat, |k: int| eztv_row(rows@[k]@, sizes[k]));
            assert(next.drop_last() =~= Seq::new(i as nat, |k: int| eztv_row(rows@[k]@, old_sizes[k])));
            match t {
                Some(t) => {
                    r.push(t);
                    assert(views(r@) =~= before.push(t@));
                },
                None => {},
            }
            assert forall|k: int|
                0 <= k < rows@.take(i + 1).len() && rows@.take(i + 1)[k]@.len() >= 6 implies size_of.ensures(
                (&rows@.take(i + 1)[k]@[3].text,),
                #[trigger] sizes[k],
            ) by {
                if k < i {
                    assert(rows@.take(i as int)[k] == rows@[k]);
                }
            }
            i = i + 1;
        }
        assert(rows@.take(i as int) =~= rows@);
        r
    }

    /// The address that searches eztv for `query`: its spaces become `-`.
    pub fn search_url(query: &str) -> (r: String)
        ensures
            r@ == "https://eztvx.to/search/"@ + replace_char(query@, ' ', "-"@),
    {
        let mut r = String::from_str("https://eztvx.to/search/");
        let q = replace_char_str(query, ' ', "-");
        r.append(q.as_str());
        r
    }

    /// The form fields of the search request: the layout that lists magnet
    /// links.
    pub fn search_form() -> (r: Vec<(&'static str, String)>)
        ensures
            params_view(r@) == seq![("layout"@, "def_wlinks"@)],
    {
        let r = vec![("layout", String::from_str("def_wlinks"))];
        assert(params_view(r@) =~= seq![("layout"@, "def_wlinks"@)]);
        r
    }

    /// The results of an eztv results page.
    pub fn page_torrents<F: Fn(&String) -> u64>(html: &str, size_of: &F) -> (r: Vec<Torrent>)
        requires
            forall|s: &String| size_of.requires((s,)),
        ensures
            exists|rows: Seq<Vec<HtmlCell>>|
                rows_view(rows) == page_rows(html@, "tbody tr.forum_header_border"@, "td"@, "a"@) && eztv_results(
                    rows,
                    *size_of,
                    views(r@),
                ),
    {
        let rows = table_rows(html, "tbody tr.forum_header_border");
        Self::torrents(&rows, size_of)
    }
}

} // verus!
