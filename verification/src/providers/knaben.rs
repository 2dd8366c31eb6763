//! knaben.org: a JSON search API whose hits may lack a hash or a magnet link.

use vstd::prelude::*;
use vstd::string::*;
use crate::dedup::{reversed, views};
use crate::magnet::{build_magnet, magnet_link};
use crate::providers::keep_some;
use crate::text::{lowercase, to_lowercase};
use crate::torrent::{Torrent, TorrentView};

verus! {

/// The knaben.org site.
pub struct Knaben;

/// The body of a knaben search request.
pub struct KnabenRequest {
    pub search_type: &'static str,
    pub search_field: &'static str,
    pub query: String,
    pub order_by: &'static str,
    pub order_direction: &'static str,
    pub hide_unsafe: bool,
    pub hide_xxx: bool,
    pub limit: u32,
}

/// One hit of knaben's answer, as it comes.
pub struct KnabenHit {
    pub title: String,
    pub hash: Option<String>,
    pub seeders: u32,
    pub peers: u32,
    pub bytes: u64,
    pub magnet_url: Option<String>,
}

/// The result a hit gives: none without a non-empty hash; else the hit with
/// its hash lower-cased and its own magnet link, or one built from the hash
/// and the title when it has none.
pub open spec fn knaben_torrent(h: KnabenHit) -> Option<TorrentView> {
    match h.hash {
        Some(x) => if x@.len() == 0 {
            None
        } else {
            Some(
                TorrentView {
                    name: h.title@,
                    info_hash: lowercase(x@),
                    magnet: match h.magnet_url {
                        Some(m) => m@,
                        None => magnet_link(x@, h.title@),
                    },
                    seeders: h.seeders,
                    leechers: h.peers,
                    size_bytes: h.bytes,
                    providers: seq!["knaben"@],
                },
            )
        },
        None => None,
    }
}

/// A hit gives a result exactly when it has a non-empty hash; the result
/// carries the hit's title, its seeders, its peers as leechers and its
/// size, the hash lower-cased, the hit's own magnet link when it has one,
/// and lists knaben as its site.
pub proof fn lemma_knaben_hit(h: KnabenHit)
    ensures
        knaben_torrent(h) is Some <==> (h.hash matches Some(x) && x@.len() > 0),
        knaben_torrent(h) matches Some(t) ==> {
            &&& t.name == h.title@
            &&& t.seeders == h.seeders
            &&& t.leechers == h.peers
            &&& t.size_bytes == h.bytes
            &&& t.providers == seq!["knaben"@]
            &&& h.magnet_url matches Some(m) ==> t.magnet == m@
            &&& h.hash matches Some(x) ==> t.info_hash == lowercase(x@)
        },
{
}

fn hit_torrent(h: KnabenHit) -> (r: Option<Torrent>)
    ensures
        match r {
            Some(t) => knaben_torrent(h) == Some(t@),
            None => knaben_torrent(h) is None,
        },
{
    let hash = match h.hash {
        Some(x) => x,
        None => return None,
    };
    if hash.as_str().is_empty() {
        return None;
    }
    let magnet = match h.magnet_url {
        Some(m) => m,
        None => build_magnet(hash.as_str(), h.title.as_str()),
    };
    let t = Torrent {
        info_hash: to_lowercase(hash.as_str()),
        name: h.title,
        magnet,
        seeders: h.seeders,
        leechers: h.peers,
        size_bytes: h.bytes,
        providers: vec!["knaben"],
    };
    assert(t@ =~= knaben_torrent(h).unwrap());
    Some(t)
}

impl Knaben {
    /// The address of knaben's search API.
    pub fn search_url() -> (r: &'static str)
        ensures
            r@ == "https://api.knaben.org/v1"@,
    {
        "https://api.knaben.org/v1"
    }

    /// The request that searches titles for exactly `query`: the first 100
    /// hits, most seeded first, without unsafe or adult ones.
    pub fn search_request(query: &str) -> (r: KnabenRequest)
        ensures
            r.search_type@ == "100%"@,
            r.search_field@ == "title"@,
            r.query@ == query@,
            r.order_by@ == "seeders"@,
            r.order_direction@ == "desc"@,
            r.hide_unsafe,
            r.hide_xxx,
            r.limit == 100,
    {
        KnabenRequest {
            search_type: "100%",
            search_field: "title",
            query: String::from_str(query),
            order_by: "seeders",
            order_direction: "desc",
            hide_unsafe: true,
            hide_xxx: true,
            limit: 100,
        }
    }

    /// The results of knaben's answer, in order.
    pub fn torrents(hits: Vec<KnabenHit>) -> (r: Vec<Torrent>)
        ensures
            views(r@) == keep_some(hits@.map_values(|h: KnabenHit| knaben_torrent(h))),
    {
        let ghost all = hits@.map_values(|h: KnabenHit| knaben_torrent(h));
        let ghost n = hits@.len();
        let ghost hs = hits@;
        let mut stack = reversed(hits);
        let mut r: Vec<Torrent> = Vec::new();
        while stack.len() > 0
            invariant
                n == hs.len(),
                all == hs.map_values(|h: KnabenHit| knaben_torrent(h)),
                stack@.len() <= n,
                stack@ == hs.subrange(n - stack@.len(), n as int).reverse(),
                views(r@) == keep_some(all.take(n - stack@.len())),
            decreases stack@.len(),
        {
            let ghost k = n - stack@.len();
            let h = stack.pop().unwrap();
            assert(hs.subrange(k, n as int).reverse().last() == hs[k]);
            assert(stack@ =~= hs.subrange(k + 1, n as int).reverse());
            assert(all.take(k + 1).drop_last() =~= all.take(k));
            assert(all.take(k + 1).last() == knaben_torrent(h));
            let ghost before = views(r@);
            match hit_torrent(h) {
                Some(t) => {
                    r.push(t);
                    assert(views(r@) =~= before.push(t@));
                },
                None => {},
            }
        }
        assert(all.take(n as int) =~= all);
        r
    }
}

} // verus!
