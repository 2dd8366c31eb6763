//! yts: a JSON list of movies, each with its torrents.

use vstd::prelude::*;
use vstd::string::*;
use crate::dedup::{reversed, views};
use crate::magnet::{build_magnet, magnet_link};
use crate::providers::params_view;
use crate::text::{lowercase, to_lowercase};
use crate::torrent::{Torrent, TorrentView};

verus! {

/// The yts site.
pub struct Yts;

/// One torrent of a yts movie; the size is already in bytes.
pub struct YtsEntry {
    pub hash: String,
    pub seeds: u32,
    pub peers: u32,
    pub size_bytes: u64,
    pub quality: String,
    pub codec_type: String,
}

/// One movie of yts's answer.
pub struct YtsMovie {
    pub title: String,
    pub torrents: Vec<YtsEntry>,
}

/// The result of one torrent of the movie titled `title`: named
/// `title [quality] [type]`, with its hash lower-cased and a magnet link
/// built from the hash and the title.
pub open spec fn yts_torrent(title: Seq<char>, t: YtsEntry) -> TorrentView {
    TorrentView {
        name: title + " ["@ + t.quality@ + "] ["@ + t.codec_type@ + "]"@,
        info_hash: lowercase(t.hash@),
        magnet: magnet_link(t.hash@, title),
        seeders: t.seeds,
        leechers: t.peers,
        size_bytes: t.size_bytes,
        providers: seq!["yts"@],
    }
}

/// The results of one movie, in the order of its torrents.
pub open spec fn movie_torrents(m: YtsMovie) -> Seq<TorrentView> {
    m.torrents@.map_values(|t: YtsEntry| yts_torrent(m.title@, t))
}

/// The results of all movies, movie after movie.
pub open spec fn all_movie_torrents(ms: Seq<YtsMovie>) -> Seq<TorrentView>
    decreases ms.len(),
{
    if ms.len() == 0 {
        Seq::empty()
    } else {
        all_movie_torrents(ms.drop_last()) + movie_torrents(ms.last())
    }
}

fn entry_torrent(title: &str, t: YtsEntry) -> (r: Torrent)
    ensures
        r@ == yts_torrent(title@, t),
{
    let mut name = String::from_str(title);
    name.append(" [");
    name.append(t.quality.as_str());
    name.append("] [");
    name.append(t.codec_type.as_str());
    name.append("]");
    let r = Torrent {
        name,
        info_hash: to_lowercase(t.hash.as_str()),
        magnet: build_magnet(t.hash.as_str(), title),
        seeders: t.seeds,
        leechers: t.peers,
        size_bytes: t.size_bytes,
        providers: vec!["yts"],
    };
    assert(r@ =~= yts_torrent(title@, t));
    r
}

impl Yts {
    /// The address of yts's movie list.
    pub fn search_url() -> (r: &'static str)
        ensures
            r@ == "https://yts.do/api/v2/list_movies.json"@,
    {
        "https://yts.do/api/v2/list_movies.json"
    }

    /// The query parameters that search yts for `query`, most seeded first.
    pub fn search_params(query: &str) -> (r: Vec<(&'static str, String)>)
        ensures
            params_view(r@) == seq![
                ("query_term"@, query@),
                ("sort_by"@, "seeds"@),
                ("order_by"@, "desc"@),
            ],
    {
        let r = vec![
            ("query_term", String::from_str(query)),
            ("sort_by", String::from_str("seeds")),
            ("order_by", String::from_str("desc")),
        ];
        assert(params_view(r@) =~= seq![
            ("query_term"@, query@),
            ("sort_by"@, "seeds"@),
            ("order_by"@, "desc"@),
        ]);
        r
    }

    /// The results of yts's answer: no movies gives no results.
    pub fn torrents(movies: Option<Vec<YtsMovie>>) -> (r: Vec<Torrent>)
        ensures
            views(r@) == match movies {
                Some(ms) => all_movie_torrents(ms@),
                None => Seq::empty(),
            },
    {
        let movies = match movies {
            Some(ms) => ms,
            None => {
                let r: Vec<Torrent> = Vec::new();
                assert(views(r@) =~= Seq::<TorrentView>::empty());
                return r;
            },
        };
        let ghost n = movies@.len();
        let ghost ms = movies@;
        let mut stack = reversed(movies);
        let mut r: Vec<Torrent> = Vec::new();
        assert(views(r@) =~= all_movie_torrents(ms.take(0)));
        while stack.len() > 0
            invariant
                n == ms.len(),
                stack@.len() <= n,
                stack@ == ms.subrange(n - stack@.len(), n as int).reverse(),
                views(r@) == all_movie_torrents(ms.take(n - stack@.len())),
            decreases stack@.len(),
        {
            let ghost k = n - stack@.len();
            let m = stack.pop().unwrap();
            assert(ms.subrange(k, n as int).reverse().last() == ms[k]);
            assert(stack@ =~= ms.subrange(k + 1, n as int).reverse());
            assert(ms.take(k + 1).drop_last() =~= ms.take(k));
            assert(ms.take(k + 1).last() == m);
            let ghost before = views(r@);
            let ghost mine = movie_torrents(m);
            let ghost ts = m.torrents@;
            let ghost tn = ts.len();
            let title = m.title;
            let mut inner = reversed(m.torrents);
            while inner.len() > 0
                invariant
                    tn == ts.len(),
                    inner@.len() <= tn,
                    inner@ == ts.subrange(tn - inner@.len(), tn as int).reverse(),
                    mine == ts.map_values(|t: YtsEntry| yts_torrent(title@, t)),
                    views(r@) == before + mine.take(tn - inner@.len()),
                decreases inner@.len(),
            {
                let ghost j = tn - inner@.len();
                let t = inner.pop().unwrap();
                assert(ts.subrange(j, tn as int).reverse().last() == ts[j]);
                assert(inner@ =~= ts.subrange(j + 1, tn as int).reverse());
                let e = entry_torrent(title.as_str(), t);
                let ghost mid = views(r@);
                r.push(e);
                assert(views(r@) =~= mid.push(e@));
                assert(mine.take(j + 1) =~= mine.take(j).push(mine[j]));
                assert(views(r@) =~= before + mine.take(j + 1));
            }
            assert(mine.take(tn as int) =~= mine);
        }
        assert(ms.take(n as int) =~= ms);
        r
    }
}

/// The number of torrents of the movies.
pub open spec fn torrent_count(ms: Seq<YtsMovie>) -> nat
    decreases ms.len(),
{
    if ms.len() == 0 {
        0
    } else {
        torrent_count(ms.drop_last()) + ms.last().torrents@.len()
    }
}

proof fn lemma_count_prefix(ms: Seq<YtsMovie>, i: int)
    requires
        0 <= i < ms.len(),
    ensures
        torrent_count(ms.take(i)) + ms[i].torrents@.len() <= torrent_count(ms),
    decreases ms.len(),
{
    let d = ms.drop_last();
    if i == ms.len() - 1 {
        assert(ms.take(i) =~= d);
    } else {
        lemma_count_prefix(d, i);
        assert(ms.take(i) =~= d.take(i));
        assert(d[i] == ms[i]);
    }
}

/// yts gives one result per torrent of each movie, movie after movie and in
/// the order of the movie's torrents: the result of torrent `j` of movie `i`
/// carries that torrent's seeds as seeders, its peers as leechers and its
/// size, is named by the movie's title, quality and type, lists yts as its
/// site, and has the torrent's hash lower-cased and a magnet link built from
/// the hash and the title.
pub proof fn lemma_yts_results(ms: Seq<YtsMovie>)
    ensures
        all_movie_torrents(ms).len() == torrent_count(ms),
        forall|i: int, j: int|
            #![trigger ms[i].torrents@[j]]
            0 <= i < ms.len() && 0 <= j < ms[i].torrents@.len() ==> {
                let r = all_movie_torrents(ms)[torrent_count(ms.take(i)) + j];
                let t = ms[i].torrents@[j];
                &&& r.seeders == t.seeds
                &&& r.leechers == t.peers
                &&& r.size_bytes == t.size_bytes
                &&& r.name == ms[i].title@ + " ["@ + t.quality@ + "] ["@ + t.codec_type@ + "]"@
                &&& r.info_hash == lowercase(t.hash@)
                &&& r.magnet == magnet_link(t.hash@, ms[i].title@)
                &&& r.providers == seq!["yts"@]
            },
    decreases ms.len(),
{
    if ms.len() > 0 {
        let d = ms.drop_last();
        let m = ms.last();
        lemma_yts_results(d);
        let a = all_movie_torrents(ms);
        let ad = all_movie_torrents(d);
        assert(a == ad + movie_torrents(m));
        assert forall|i: int, j: int|
            #![trigger ms[i].torrents@[j]]
            0 <= i < ms.len() && 0 <= j < ms[i].torrents@.len() implies {
                let r = all_movie_torrents(ms)[torrent_count(ms.take(i)) + j];
                let t = ms[i].torrents@[j];
                &&& r.seeders == t.seeds
                &&& r.leechers == t.peers
                &&& r.size_bytes == t.size_bytes
                &&& r.name == ms[i].title@ + " ["@ + t.quality@ + "] ["@ + t.codec_type@ + "]"@
                &&& r.info_hash == lowercase(t.hash@)
                &&& r.magnet == magnet_link(t.hash@, ms[i].title@)
                &&& r.providers == seq!["yts"@]
            } by {
            if i < d.len() {
                assert(d[i] == ms[i]);
                assert(ms.take(i) =~= d.take(i));
                lemma_count_prefix(d, i);
                assert(d[i].torrents@[j] == ms[i].torrents@[j]);
                assert(a[torrent_count(ms.take(i)) + j] == ad[torrent_count(d.take(i)) + j]);
            } else {
                assert(ms.take(i) =~= d);
                assert(ms[i] == m);
                assert(a[torrent_count(ms.take(i)) + j] == movie_torrents(m)[j]);
            }
        }
    }
}

} // verus!
