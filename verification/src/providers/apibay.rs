//! apibay.org: a JSON list of entries whose counts are texts.

use vstd::prelude::*;
use vstd::string::*;
use crate::dedup::{reversed, views};
use crate::magnet::{build_magnet, magnet_link};
use crate::providers::{keep_some, params_view, parse_u32, parse_u64, read_u32, read_u64};
use crate::text::{lowercase, str_eq, to_lowercase};
use crate::torrent::{Torrent, TorrentView};

verus! {

/// The apibay.org site.
pub struct Apibay;

/// One entry of apibay's answer, as it comes.
pub struct ApibayEntry {
    pub name: String,
    pub info_hash: String,
    pub seeders: String,
    pub leechers: String,
    pub size: String,
}

/// The hash that apibay gives when nothing was found.
pub open spec fn zero_hash() -> Seq<char> {
    "0000000000000000000000000000000000000000"@
}

/// The result an entry gives: none for the all-zero hash or when a count
/// or the size is not a number; else the entry with its magnet link built
/// from the hash as given and the hash lower-cased.
pub open spec fn apibay_torrent(e: ApibayEntry) -> Option<TorrentView> {
    if e.info_hash@ == zero_hash() {
        None
    } else {
        match (parse_u32(e.seeders@), parse_u32(e.leechers@), parse_u64(e.size@)) {
            (Some(s), Some(l), Some(z)) => Some(
                TorrentView {
                    name: e.name@,
                    info_hash: lowercase(e.info_hash@),
                    magnet: magnet_link(e.info_hash@, e.name@),
                    seeders: s,
                    leechers: l,
                    size_bytes: z,
                    providers: seq!["apibay"@],
                },
            ),
            _ => None,
        }
    }
}

/// An entry gives a result exactly when its hash is not the all-zero one
/// and its counts and size read as numbers; the result carries the entry's
/// name, the numbers read from its seeders, leechers and size texts, the
/// hash lower-cased, a magnet link built from the hash as given and the
/// name, and lists apibay as its site.
pub proof fn lemma_apibay_entry(e: ApibayEntry)
    ensures
        apibay_torrent(e) is Some <==> (e.info_hash@ != zero_hash() && parse_u32(e.seeders@) is Some
            && parse_u32(e.leechers@) is Some && parse_u64(e.size@) is Some),
        apibay_torrent(e) matches Some(t) ==> {
            &&& t.name == e.name@
            &&& Some(t.seeders) == parse_u32(e.seeders@)
            &&& Some(t.leechers) == parse_u32(e.leechers@)
            &&& Some(t.size_bytes) == parse_u64(e.size@)
            &&& t.info_hash == lowercase(e.info_hash@)
            &&& t.magnet == magnet_link(e.info_hash@, e.name@)
            &&& t.providers == seq!["apibay"@]
        },
{
}

fn entry_torrent(e: ApibayEntry) -> (r: Option<Torrent>)
    ensures
        match r {
            Some(t) => apibay_torrent(e) == Some(t@),
            None => apibay_torrent(e) is None,
        },
{
    if str_eq(e.info_hash.as_str(), "0000000000000000000000000000000000000000") {
        return None;
    }
    let magnet = build_magnet(e.info_hash.as_str(), e.name.as_str());
    let info_hash = to_lowercase(e.info_hash.as_str());
    let seeders = match read_u32(e.seeders.as_str()) {
        Some(v) => v,
        None => return None,
    };
    let leechers = match read_u32(e.leechers.as_str()) {
        Some(v) => v,
        None => return None,
    };
    let size_bytes = match read_u64(e.size.as_str()) {
        Some(v) => v,
        None => return None,
    };
    let t = Torrent {
        name: e.name,
        info_hash,
        magnet,
        seeders,
        leechers,
        size_bytes,
        providers: vec!["apibay"],
    };
    assert(t@ =~= apibay_torrent(e).unwrap());
    Some(t)
}

impl Apibay {
    /// The address of apibay's search.
    pub fn search_url() -> (r: &'static str)
        ensures
            r@ == "https://apibay.org/q.php"@,
    {
        "https://apibay.org/q.php"
    }

    /// The query parameters that search apibay for `query`.
    pub fn search_params(query: &str) -> (r: Vec<(&'static str, String)>)
        ensures
            params_view(r@) == seq![("q"@, query@)],
    {
        let r = vec![("q", String::from_str(query))];
        assert(params_view(r@) =~= seq![("q"@, query@)]);
        r
    }

    /// The results of apibay's answer, in order.
    pub fn torrents(entries: Vec<ApibayEntry>) -> (r: Vec<Torrent>)
        ensures
            views(r@) == keep_some(entries@.map_values(|e: ApibayEntry| apibay_torrent(e))),
    {
        let ghost all = entries@.map_values(|e: ApibayEntry| apibay_torrent(e));
        let ghost n = entries@.len();
        let ghost es = entries@;
        let mut stack = reversed(entries);
        let mut r: Vec<Torrent> = Vec::new();
        while stack.len() > 0
            invariant
                n == es.len(),
                all == es.map_values(|e: ApibayEntry| apibay_torrent(e)),
                stack@.len() <= n,
                stack@ == es.subrange(n - stack@.len(), n as int).reverse(),
                views(r@) == keep_some(all.take(n - stack@.len())),
            decreases stack@.len(),
        {
            let ghost k = n - stack@.len();
            let e = stack.pop().unwrap();
            assert(es.subrange(k, n as int).reverse().last() == es[k]);
            assert(stack@ =~= es.subrange(k + 1, n as int).reverse());
            assert(all.take(k + 1).drop_last() =~= all.take(k));
            assert(all.take(k + 1).last() == apibay_torrent(e));
            let ghost before = views(r@);
            match entry_torrent(e) {
                Some(t) => {
                    r.push(t);
                    assert(views(r@) =~= before.push(t@));
                },
                None => {},
            }
        }
        assert(all.take(n as int) =~= all);
        r
    }
}

} // verus!
