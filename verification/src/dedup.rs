//! Folding the results of all sites into one list: one entry per info hash,
//! most seeded first.

use vstd::prelude::*;
use crate::torrent::{lemma_merge_sites, merged, Torrent, TorrentView};

verus! {

broadcast use vstd::seq_lib::group_to_multiset_ensures;

/// The values of a list of results.
pub open spec fn views(ts: Seq<Torrent>) -> Seq<TorrentView> {
    ts.map_values(|t: Torrent| t@)
}

/// The last index of `groups` whose info hash is `h`, or `-1`.
pub open spec fn find_hash(groups: Seq<TorrentView>, h: Seq<char>) -> int
    decreases groups.len(),
{
    if groups.len() == 0 {
        -1
    } else if groups.last().info_hash == h {
        groups.len() - 1
    } else {
        find_hash(groups.drop_last(), h)
    }
}

/// Takes one more result into the groups: results without an info hash are
/// dropped, a result whose hash is grouped already is merged into that
/// group, any other starts a new group at the end.
pub open spec fn group_step(groups: Seq<TorrentView>, t: TorrentView) -> Seq<TorrentView> {
    if t.info_hash.len() == 0 {
        groups
    } else {
        let i = find_hash(groups, t.info_hash);
        if i >= 0 {
            groups.update(i, merged(groups[i], t))
        } else {
            groups.push(t)
        }
    }
}

/// The groups of a list of results, in the order in which their hashes
/// first occur.
pub open spec fn grouped(s: Seq<TorrentView>) -> Seq<TorrentView>
    decreases s.len(),
{
    if s.len() == 0 {
        Seq::empty()
    } else {
        group_step(grouped(s.drop_last()), s.last())
    }
}

/// `t` put into `s` after every entry with at least as many seeders.
pub open spec fn insert_by_seeders(s: Seq<TorrentView>, t: TorrentView) -> Seq<TorrentView>
    decreases s.len(),
{
    if s.len() == 0 {
        seq![t]
    } else if s.last().seeders >= t.seeders {
        s.push(t)
    } else {
        insert_by_seeders(s.drop_last(), t).push(s.last())
    }
}

/// `s` sorted by seeders, most first; entries with equal counts keep their
/// order (a stable sort).
pub open spec fn sort_by_seeders(s: Seq<TorrentView>) -> Seq<TorrentView>
    decreases s.len(),
{
    if s.len() == 0 {
        Seq::empty()
    } else {
        insert_by_seeders(sort_by_seeders(s.drop_last()), s.last())
    }
}

/// The de-duplicated result list.
pub open spec fn deduped(s: Seq<TorrentView>) -> Seq<TorrentView> {
    sort_by_seeders(grouped(s))
}

/// The items of `v` in reverse order.
pub fn reversed<T>(v: Vec<T>) -> (r: Vec<T>)
    ensures
        r@ == v@.reverse(),
{
    let mut rest = v;
    let mut r: Vec<T> = Vec::new();
    while rest.len() > 0
        invariant
            r@ == v@.subrange(rest@.len() as int, v@.len() as int).reverse(),
            rest@ == v@.take(rest@.len() as int),
            rest@.len() <= v@.len(),
        decreases rest@.len(),
    {
        let ghost k = rest@.len();
        let t = rest.pop().unwrap();
        r.push(t);
        assert(rest@ =~= v@.take(rest@.len() as int));
        assert(r@ =~= v@.subrange(rest@.len() as int, v@.len() as int).reverse());
    }
    assert(v@.subrange(0, v@.len() as int) =~= v@);
    r
}

pub proof fn lemma_find_hash(groups: Seq<TorrentView>, h: Seq<char>)
    ensures
        -1 <= find_hash(groups, h) < groups.len(),
        find_hash(groups, h) >= 0 ==> groups[find_hash(groups, h)].info_hash == h,
        find_hash(groups, h) < 0 ==> forall|k: int|
            0 <= k < groups.len() ==> #[trigger] groups[k].info_hash != h,
    decreases groups.len(),
{
    if groups.len() > 0 && groups.last().info_hash != h {
        lemma_find_hash(groups.drop_last(), h);
        if find_hash(groups, h) < 0 {
            assert forall|k: int| 0 <= k < groups.len() implies #[trigger] groups[k].info_hash
                != h by {
                if k < groups.len() - 1 {
                    assert(groups.drop_last()[k] == groups[k]);
                }
            }
        }
    }
}

/// The index of the group of hash `h`, found from the back.
fn find_group(groups: &Vec<Torrent>, h: &String) -> (r: Option<usize>)
    ensures
        r matches Some(i) ==> find_hash(views(groups@), h@) == i as int,
        r is None ==> find_hash(views(groups@), h@) == -1,
{
    let ghost g = views(groups@);
    let mut j: usize = groups.len();
    assert(g.take(j as int) =~= g);
    while j > 0
        invariant
            j <= groups@.len(),
            g == views(groups@),
            find_hash(g, h@) == find_hash(g.take(j as int), h@),
        decreases j,
    {
        assert(g.take(j as int).last() == groups@[j - 1]@);
        assert(g.take(j as int).drop_last() =~= g.take(j - 1));
        if groups[j - 1].info_hash == *h {
            return Some(j - 1);
        }
        j = j - 1;
    }
    None
}

pub proof fn lemma_insert_at(s: Seq<TorrentView>, t: TorrentView, p: int)
    requires
        0 <= p <= s.len(),
        p == 0 || s[p - 1].seeders >= t.seeders,
        forall|k: int| p <= k < s.len() ==> #[trigger] s[k].seeders < t.seeders,
    ensures
        insert_by_seeders(s, t) == s.insert(p, t),
    decreases s.len(),
{
    if s.len() == 0 {
        assert(s.insert(p, t) =~= seq![t]);
    } else if s.last().seeders >= t.seeders {
        assert(p == s.len());
        assert(s.insert(p, t) =~= s.push(t));
    } else {
        let d = s.drop_last();
        assert forall|k: int| p <= k < d.len() implies #[trigger] d[k].seeders < t.seeders by {
            assert(d[k] == s[k]);
        }
        lemma_insert_at(d, t, p);
        assert(s.insert(p, t) =~= d.insert(p, t).push(s.last()));
    }
}

/// Puts `t` into the sorted list `sorted` after every entry with at least
/// as many seeders.
fn insert_sorted(sorted: &mut Vec<Torrent>, t: Torrent)
    ensures
        views(final(sorted)@) == insert_by_seeders(views(old(sorted)@), t@),
{
    let ghost s = views(sorted@);
    let mut p: usize = sorted.len();
    while p > 0 && sorted[p - 1].seeders < t.seeders
        invariant
            p <= sorted@.len(),
            s == views(sorted@),
            forall|k: int| p <= k < s.len() ==> #[trigger] s[k].seeders < t.seeders,
        decreases p,
    {
        p = p - 1;
    }
    proof {
        lemma_insert_at(s, t@, p as int);
    }
    sorted.insert(p, t);
    assert(views(sorted@) =~= s.insert(p as int, t@));
}

/// Folds the results of all sites into one list: results without an info
/// hash are dropped, results with the same hash are merged into the first of
/// them (in order), and the list is sorted by seeders, most first.
pub fn dedup(all: Vec<Torrent>) -> (r: Vec<Torrent>)
    ensures
        views(r@) == deduped(views(all@)),
{
    let ghost input = views(all@);
    let mut stack = reversed(all);
    let ghost n = input.len();
    let mut groups: Vec<Torrent> = Vec::new();
    while stack.len() > 0
        invariant
            n == input.len(),
            stack@.len() <= n,
            views(stack@) == input.subrange(n - stack@.len(), n as int).reverse(),
            views(groups@) == grouped(input.take(n - stack@.len())),
        decreases stack@.len(),
    {
        let ghost k = n - stack@.len();
        let ghost before = views(groups@);
        let ghost sv = views(stack@);
        let t = stack.pop().unwrap();
        assert(input.subrange(k, n as int).reverse().last() == input[k]);
        assert(views(stack@) =~= sv.drop_last());
        assert(sv.drop_last() =~= input.subrange(k + 1, n as int).reverse());
        assert(input.take(k + 1).drop_last() =~= input.take(k));
        assert(input.take(k + 1).last() == t@);
        if !t.info_hash.as_str().is_empty() {
            match find_group(&groups, &t.info_hash) {
                Some(i) => {
                    proof {
                        lemma_find_hash(before, t@.info_hash);
                    }
                    let mut g = groups.remove(i);
                    assert(g@ == before[i as int]);
                    g.merge(t);
                    groups.insert(i, g);
                    assert(views(groups@) =~= before.update(i as int, merged(before[i as int], t@)));
                },
                None => {
                    groups.push(t);
                    assert(views(groups@) =~= before.push(t@));
                },
            }
        } else {
            assert(t@.info_hash.len() == 0);
        }
    }
    assert(input.take(n as int) =~= input);
    let ghost g = views(groups@);
    let mut queue = reversed(groups);
    let ghost m = g.len();
    let mut sorted: Vec<Torrent> = Vec::new();
    while queue.len() > 0
        invariant
            m == g.len(),
            queue@.len() <= m,
            views(queue@) == g.subrange(m - queue@.len(), m as int).reverse(),
            views(sorted@) == sort_by_seeders(g.take(m - queue@.len())),
        decreases queue@.len(),
    {
        let ghost k = m - queue@.len();
        let ghost qv = views(queue@);
        let t = queue.pop().unwrap();
        assert(g.subrange(k, m as int).reverse().last() == g[k]);
        assert(views(queue@) =~= qv.drop_last());
        assert(qv.drop_last() =~= g.subrange(k + 1, m as int).reverse());
        assert(g.take(k + 1).drop_last() =~= g.take(k));
        assert(g.take(k + 1).last() == t@);
        insert_sorted(&mut sorted, t);
    }
    assert(g.take(m as int) =~= g);
    sorted
}

/// Whether the entries are ordered by seeders, most first.
pub open spec fn sorted_by_seeders(s: Seq<TorrentView>) -> bool {
    forall|i: int, j: int| 0 <= i < j < s.len() ==> #[trigger] s[i].seeders >= #[trigger] s[j].seeders
}

/// Whether no two entries share an info hash.
pub open spec fn distinct_hashes(s: Seq<TorrentView>) -> bool {
    forall|i: int, j: int|
        0 <= i < s.len() && 0 <= j < s.len() && i != j ==> #[trigger] s[i].info_hash
            != #[trigger] s[j].info_hash
}

/// Whether every entry has an info hash.
pub open spec fn hashes_present(s: Seq<TorrentView>) -> bool {
    forall|i: int| 0 <= i < s.len() ==> #[trigger] s[i].info_hash.len() > 0
}

/// Whether some entry has info hash `h`.
pub open spec fn has_hash(s: Seq<TorrentView>, h: Seq<char>) -> bool {
    exists|i: int| 0 <= i < s.len() && #[trigger] s[i].info_hash == h
}

/// The largest seeder count among the entries with info hash `h` (0 if none).
pub open spec fn best_seeders(s: Seq<TorrentView>, h: Seq<char>) -> u32
    decreases s.len(),
{
    if s.len() == 0 {
        0
    } else {
        let b = best_seeders(s.drop_last(), h);
        if s.last().info_hash == h && s.last().seeders > b {
            s.last().seeders
        } else {
            b
        }
    }
}

/// The largest leecher count among the entries with info hash `h` (0 if none).
pub open spec fn best_leechers(s: Seq<TorrentView>, h: Seq<char>) -> u32
    decreases s.len(),
{
    if s.len() == 0 {
        0
    } else {
        let b = best_leechers(s.drop_last(), h);
        if s.last().info_hash == h && s.last().leechers > b {
            s.last().leechers
        } else {
            b
        }
    }
}

proof fn lemma_has_hash_last(s: Seq<TorrentView>, h: Seq<char>)
    requires
        s.len() > 0,
    ensures
        has_hash(s, h) <==> has_hash(s.drop_last(), h) || s.last().info_hash == h,
{
    let d = s.drop_last();
    if has_hash(d, h) {
        let i = choose|i: int| 0 <= i < d.len() && #[trigger] d[i].info_hash == h;
        assert(s[i].info_hash == h);
    }
    if s.last().info_hash == h {
        assert(s[s.len() - 1].info_hash == h);
    }
    if has_hash(s, h) {
        let i = choose|i: int| 0 <= i < s.len() && #[trigger] s[i].info_hash == h;
        if i < d.len() {
            assert(d[i].info_hash == h);
        }
    }
}

proof fn lemma_best_absent(s: Seq<TorrentView>, h: Seq<char>)
    requires
        !has_hash(s, h),
    ensures
        best_seeders(s, h) == 0,
        best_leechers(s, h) == 0,
    decreases s.len(),
{
    if s.len() > 0 {
        lemma_has_hash_last(s, h);
        lemma_best_absent(s.drop_last(), h);
    }
}

/// The groups have distinct, present hashes; a hash is grouped exactly when
/// some result has it; and each group carries the largest seeder and leecher
/// counts of the results with its hash.
pub proof fn lemma_grouped(s: Seq<TorrentView>)
    ensures
        distinct_hashes(grouped(s)),
        hashes_present(grouped(s)),
        forall|h: Seq<char>| #[trigger]
            has_hash(grouped(s), h) <==> h.len() > 0 && has_hash(s, h),
        forall|j: int|
            0 <= j < grouped(s).len() ==> #[trigger] grouped(s)[j].seeders == best_seeders(
                s,
                grouped(s)[j].info_hash,
            ) && grouped(s)[j].leechers == best_leechers(s, grouped(s)[j].info_hash),
    decreases s.len(),
{
    if s.len() > 0 {
        let d = s.drop_last();
        let t = s.last();
        let th = t.info_hash;
        lemma_grouped(d);
        let gd = grouped(d);
        let g = grouped(s);
        assert forall|h: Seq<char>| has_hash(s, h) <==> has_hash(d, h) || th == h by {
            lemma_has_hash_last(s, h);
        }
        if th.len() == 0 {
            assert(g == gd);
            assert forall|h: Seq<char>| #[trigger] has_hash(g, h) <==> h.len() > 0 && has_hash(
                s,
                h,
            ) by {}
            assert forall|j: int| 0 <= j < g.len() implies #[trigger] g[j].seeders
                == best_seeders(s, g[j].info_hash) && g[j].leechers == best_leechers(
                s,
                g[j].info_hash,
            ) by {
                assert(g[j].info_hash.len() > 0);
            }
        } else {
            lemma_find_hash(gd, th);
            let i = find_hash(gd, th);
            if i >= 0 {
                let m = merged(gd[i], t);
                assert(g == gd.update(i, m));
                assert forall|k: int| 0 <= k < g.len() implies #[trigger] g[k].info_hash
                    == gd[k].info_hash by {}
                assert forall|h: Seq<char>| #[trigger] has_hash(g, h) <==> h.len() > 0
                    && has_hash(s, h) by {
                    if has_hash(g, h) {
                        let k = choose|k: int| 0 <= k < g.len() && #[trigger] g[k].info_hash == h;
                        assert(gd[k].info_hash == h);
                    }
                    if has_hash(gd, h) {
                        let k = choose|k: int| 0 <= k < gd.len() && #[trigger] gd[k].info_hash == h;
                        assert(g[k].info_hash == h);
                    }
                    if h == th {
                        assert(g[i].info_hash == h);
                    }
                }
                assert forall|j: int| 0 <= j < g.len() implies #[trigger] g[j].seeders
                    == best_seeders(s, g[j].info_hash) && g[j].leechers == best_leechers(
                    s,
                    g[j].info_hash,
                ) by {
                    assert(gd[j].seeders == best_seeders(d, gd[j].info_hash));
                    assert(gd[j].leechers == best_leechers(d, gd[j].info_hash));
                    if j != i {
                        assert(gd[j].info_hash != gd[i].info_hash);
                        assert(g[j] == gd[j]);
                    } else {
                        assert(g[j] == m);
                    }
                }
            } else {
                assert(g == gd.push(t));
                assert forall|h: Seq<char>| #[trigger] has_hash(g, h) <==> h.len() > 0
                    && has_hash(s, h) by {
                    lemma_has_hash_last(g, h);
                    assert(g.drop_last() =~= gd);
                }
                assert(!has_hash(gd, th)) by {
                    if has_hash(gd, th) {
                        let k = choose|k: int| 0 <= k < gd.len() && #[trigger] gd[k].info_hash == th;
                    }
                }
                lemma_best_absent(d, th);
                assert forall|j: int| 0 <= j < g.len() implies #[trigger] g[j].seeders
                    == best_seeders(s, g[j].info_hash) && g[j].leechers == best_leechers(
                    s,
                    g[j].info_hash,
                ) by {
                    if j < gd.len() {
                        assert(g[j] == gd[j]);
                        assert(gd[j].info_hash != th);
                        assert(gd[j].seeders == best_seeders(d, gd[j].info_hash));
                        assert(gd[j].leechers == best_leechers(d, gd[j].info_hash));
                    } else {
                        assert(g[j] == t);
                    }
                }
            }
        }
    }
}

/// The index at which `insert_by_seeders` puts `t`.
pub open spec fn insert_pos(s: Seq<TorrentView>, t: TorrentView) -> int
    decreases s.len(),
{
    if s.len() == 0 {
        0
    } else if s.last().seeders >= t.seeders {
        s.len() as int
    } else {
        insert_pos(s.drop_last(), t)
    }
}

proof fn lemma_insert_pos(s: Seq<TorrentView>, t: TorrentView)
    ensures
        0 <= insert_pos(s, t) <= s.len(),
        insert_pos(s, t) == 0 || s[insert_pos(s, t) - 1].seeders >= t.seeders,
        forall|k: int| insert_pos(s, t) <= k < s.len() ==> #[trigger] s[k].seeders < t.seeders,
        insert_by_seeders(s, t) == s.insert(insert_pos(s, t), t),
    decreases s.len(),
{
    if s.len() > 0 && s.last().seeders < t.seeders {
        let d = s.drop_last();
        lemma_insert_pos(d, t);
        assert forall|k: int| insert_pos(s, t) <= k < s.len() implies #[trigger] s[k].seeders
            < t.seeders by {
            if k < d.len() {
                assert(d[k] == s[k]);
            }
        }
    }
    lemma_insert_at(s, t, insert_pos(s, t));
}

/// Sorting by seeders gives a list in that order holding the same entries;
/// a list already in order is left as it is.
pub proof fn lemma_sort_by_seeders(s: Seq<TorrentView>)
    ensures
        sorted_by_seeders(sort_by_seeders(s)),
        sort_by_seeders(s).to_multiset() == s.to_multiset(),
        forall|x: TorrentView| #[trigger] sort_by_seeders(s).contains(x) <==> s.contains(x),
        sort_by_seeders(s).len() == s.len(),
        distinct_hashes(s) ==> distinct_hashes(sort_by_seeders(s)),
        sorted_by_seeders(s) ==> sort_by_seeders(s) == s,
    decreases s.len(),
{
    if s.len() > 0 {
        let d = s.drop_last();
        let t = s.last();
        lemma_sort_by_seeders(d);
        let sd = sort_by_seeders(d);
        lemma_insert_pos(sd, t);
        let p = insert_pos(sd, t);
        let r = sort_by_seeders(s);
        assert(r == sd.insert(p, t));
        vstd::seq_lib::to_multiset_insert(sd, p, t);
        assert(s == d.push(t));
        assert(r.to_multiset() == s.to_multiset());
        assert forall|x: TorrentView| #[trigger] r.contains(x) <==> s.contains(x) by {
            vstd::seq_lib::to_multiset_contains(r, x);
            vstd::seq_lib::to_multiset_contains(s, x);
        }
        assert forall|i: int, j: int| 0 <= i < j < r.len() implies #[trigger] r[i].seeders
            >= #[trigger] r[j].seeders by {
            if i < p && j < p {
                assert(r[i] == sd[i] && r[j] == sd[j]);
            } else if i < p && j == p {
                assert(r[i] == sd[i]);
                assert(sd[i].seeders >= sd[p - 1].seeders);
            } else if i < p {
                assert(r[i] == sd[i] && r[j] == sd[j - 1]);
            } else if i == p {
                assert(r[j] == sd[j - 1]);
            } else {
                assert(r[i] == sd[i - 1] && r[j] == sd[j - 1]);
            }
        }
        if distinct_hashes(s) {
            assert forall|i: int, j: int|
                0 <= i < d.len() && 0 <= j < d.len() && i != j implies #[trigger] d[i].info_hash
                != #[trigger] d[j].info_hash by {
                assert(d[i] == s[i] && d[j] == s[j]);
            }
            assert forall|k: int| 0 <= k < sd.len() implies #[trigger] sd[k].info_hash
                != t.info_hash by {
                assert(sd.contains(sd[k]));
                let m = choose|m: int| 0 <= m < d.len() && d[m] == sd[k];
                assert(s[m] == d[m]);
                assert(s[s.len() - 1] == t);
            }
            assert forall|i: int, j: int|
                0 <= i < r.len() && 0 <= j < r.len() && i != j implies #[trigger] r[i].info_hash
                != #[trigger] r[j].info_hash by {
                if i != p && j != p {
                    let ii = if i < p { i } else { i - 1 };
                    let jj = if j < p { j } else { j - 1 };
                    assert(r[i] == sd[ii] && r[j] == sd[jj]);
                } else if i == p {
                    let jj = if j < p { j } else { j - 1 };
                    assert(r[j] == sd[jj]);
                } else {
                    let ii = if i < p { i } else { i - 1 };
                    assert(r[i] == sd[ii]);
                }
            }
        }
        if sorted_by_seeders(s) {
            assert forall|i: int, j: int| 0 <= i < j < d.len() implies #[trigger] d[i].seeders
                >= #[trigger] d[j].seeders by {
                assert(d[i] == s[i] && d[j] == s[j]);
            }
            assert(sd == d);
            if d.len() > 0 {
                assert(s[d.len() - 1].seeders >= s[d.len() as int].seeders);
            }
            assert(p == d.len());
            assert(r =~= s);
        }
    }
}

proof fn lemma_grouped_identity(s: Seq<TorrentView>)
    requires
        distinct_hashes(s),
        hashes_present(s),
    ensures
        grouped(s) == s,
    decreases s.len(),
{
    if s.len() > 0 {
        let d = s.drop_last();
        assert forall|i: int, j: int|
            0 <= i < d.len() && 0 <= j < d.len() && i != j implies #[trigger] d[i].info_hash
            != #[trigger] d[j].info_hash by {
            assert(d[i] == s[i] && d[j] == s[j]);
        }
        assert forall|i: int| 0 <= i < d.len() implies #[trigger] d[i].info_hash.len() > 0 by {
            assert(d[i] == s[i]);
        }
        lemma_grouped_identity(d);
        lemma_find_hash(d, s.last().info_hash);
        if find_hash(d, s.last().info_hash) >= 0 {
            let k = find_hash(d, s.last().info_hash);
            assert(s[k] == d[k]);
            assert(s[s.len() - 1].info_hash == s.last().info_hash);
        }
        assert(s[s.len() - 1].info_hash.len() > 0);
        assert(grouped(s) =~= s);
    }
}

/// What the de-duplicated list promises: it is ordered by seeders, most
/// first; no two entries share an info hash and every entry has one; it
/// holds an entry for exactly the hashes that some result has; and each
/// entry carries the largest seeder and leecher counts of the results with
/// its hash.
pub proof fn lemma_dedup(s: Seq<TorrentView>)
    ensures
        sorted_by_seeders(deduped(s)),
        distinct_hashes(deduped(s)),
        hashes_present(deduped(s)),
        forall|h: Seq<char>| #[trigger]
            has_hash(deduped(s), h) <==> h.len() > 0 && has_hash(s, h),
        forall|j: int|
            0 <= j < deduped(s).len() ==> #[trigger] deduped(s)[j].seeders == best_seeders(
                s,
                deduped(s)[j].info_hash,
            ) && deduped(s)[j].leechers == best_leechers(s, deduped(s)[j].info_hash),
        deduped(s).to_multiset() == grouped(s).to_multiset(),
{
    lemma_grouped(s);
    let g = grouped(s);
    lemma_sort_by_seeders(g);
    let r = deduped(s);
    assert forall|j: int| 0 <= j < r.len() implies #[trigger] r[j].seeders == best_seeders(
        s,
        r[j].info_hash,
    ) && r[j].leechers == best_leechers(s, r[j].info_hash) && r[j].info_hash.len() > 0 by {
        assert(r.contains(r[j]));
        let k = choose|k: int| 0 <= k < g.len() && g[k] == r[j];
        assert(g[k].seeders == best_seeders(s, g[k].info_hash));
        assert(g[k].info_hash.len() > 0);
    }
    assert forall|j: int| 0 <= j < r.len() implies #[trigger] r[j].info_hash.len() > 0 by {
        assert(r[j].seeders == best_seeders(s, r[j].info_hash));
    }
    assert forall|h: Seq<char>| #[trigger] has_hash(r, h) <==> has_hash(g, h) by {
        if has_hash(r, h) {
            let j = choose|j: int| 0 <= j < r.len() && #[trigger] r[j].info_hash == h;
            assert(r.contains(r[j]));
            let k = choose|k: int| 0 <= k < g.len() && g[k] == r[j];
            assert(g[k].info_hash == h);
        }
        if has_hash(g, h) {
            let k = choose|k: int| 0 <= k < g.len() && #[trigger] g[k].info_hash == h;
            assert(g.contains(g[k]));
            assert(r.contains(g[k]));
            let j = choose|j: int| 0 <= j < r.len() && r[j] == g[k];
            assert(r[j].info_hash == h);
        }
    }
}

/// De-duplicating a de-duplicated list changes nothing.
pub proof fn lemma_dedup_idempotent(s: Seq<TorrentView>)
    ensures
        deduped(deduped(s)) == deduped(s),
{
    lemma_dedup(s);
    let r = deduped(s);
    lemma_grouped_identity(r);
    lemma_sort_by_seeders(r);
}

/// Whether some result with info hash `h` lists the site `p`.
pub open spec fn site_listed(s: Seq<TorrentView>, h: Seq<char>, p: Seq<char>) -> bool {
    exists|i: int| 0 <= i < s.len() && #[trigger] s[i].info_hash == h && s[i].providers.contains(p)
}

/// Whether no result lists a site twice.
pub open spec fn sites_distinct(s: Seq<TorrentView>) -> bool {
    forall|i: int| 0 <= i < s.len() ==> (#[trigger] s[i]).providers.no_duplicates()
}

proof fn lemma_site_listed_last(s: Seq<TorrentView>, h: Seq<char>, p: Seq<char>)
    requires
        s.len() > 0,
    ensures
        site_listed(s, h, p) <==> site_listed(s.drop_last(), h, p) || (s.last().info_hash == h
            && s.last().providers.contains(p)),
{
    let d = s.drop_last();
    if site_listed(d, h, p) {
        let i = choose|i: int| 0 <= i < d.len() && #[trigger] d[i].info_hash == h && d[i].providers.contains(p);
        assert(s[i] == d[i]);
    }
    if s.last().info_hash == h && s.last().providers.contains(p) {
        assert(s[s.len() - 1].info_hash == h);
    }
    if site_listed(s, h, p) {
        let i = choose|i: int| 0 <= i < s.len() && #[trigger] s[i].info_hash == h && s[i].providers.contains(p);
        if i < d.len() {
            assert(d[i] == s[i]);
        }
    }
}

proof fn lemma_grouped_sites(s: Seq<TorrentView>)
    ensures
        forall|j: int, p: Seq<char>|
            0 <= j < grouped(s).len() ==> (#[trigger] grouped(s)[j].providers.contains(p)
                <==> site_listed(s, grouped(s)[j].info_hash, p)),
        sites_distinct(s) ==> sites_distinct(grouped(s)),
    decreases s.len(),
{
    if s.len() > 0 {
        let d = s.drop_last();
        let t = s.last();
        let th = t.info_hash;
        lemma_grouped(d);
        lemma_grouped_sites(d);
        let gd = grouped(d);
        let g = grouped(s);
        if sites_distinct(s) {
            assert forall|i: int| 0 <= i < d.len() implies (#[trigger] d[i]).providers.no_duplicates() by {
                assert(d[i] == s[i]);
            }
            assert(s[s.len() - 1] == t);
        }
        if th.len() == 0 {
            assert(g == gd);
            assert forall|j: int, p: Seq<char>| 0 <= j < g.len() implies (#[trigger] g[j].providers.contains(
                p,
            ) <==> site_listed(s, g[j].info_hash, p)) by {
                lemma_site_listed_last(s, g[j].info_hash, p);
                assert(gd[j].info_hash.len() > 0);
            }
        } else {
            lemma_find_hash(gd, th);
            let i = find_hash(gd, th);
            if i >= 0 {
                let m = merged(gd[i], t);
                lemma_merge_sites(gd[i], t);
                assert(g == gd.update(i, m));
                assert forall|j: int, p: Seq<char>| 0 <= j < g.len() implies (
                #[trigger] g[j].providers.contains(p) <==> site_listed(s, g[j].info_hash, p)) by {
                    lemma_site_listed_last(s, g[j].info_hash, p);
                    assert(gd[j].providers.contains(p) <==> site_listed(d, gd[j].info_hash, p));
                    if j != i {
                        assert(gd[j].info_hash != gd[i].info_hash);
                        assert(g[j] == gd[j]);
                    } else {
                        assert(g[j] == m);
                    }
                }
                if sites_distinct(s) {
                    assert forall|k: int| 0 <= k < g.len() implies (#[trigger] g[k]).providers.no_duplicates() by {
                        if k != i {
                            assert(g[k] == gd[k]);
                        }
                    }
                }
            } else {
                assert(g == gd.push(t));
                assert(!has_hash(gd, th)) by {
                    if has_hash(gd, th) {
                        let k = choose|k: int| 0 <= k < gd.len() && #[trigger] gd[k].info_hash == th;
                    }
                }
                assert forall|j: int, p: Seq<char>| 0 <= j < g.len() implies (
                #[trigger] g[j].providers.contains(p) <==> site_listed(s, g[j].info_hash, p)) by {
                    lemma_site_listed_last(s, g[j].info_hash, p);
                    if j < gd.len() {
                        assert(g[j] == gd[j]);
                        assert(gd[j].info_hash != th);
                        assert(gd[j].providers.contains(p) <==> site_listed(d, gd[j].info_hash, p));
                    } else {
                        assert(g[j] == t);
                        if site_listed(d, th, p) {
                            let k = choose|k: int| 0 <= k < d.len() && #[trigger] d[k].info_hash == th
                                && d[k].providers.contains(p);
                            assert(has_hash(d, th));
                        }
                    }
                }
                if sites_distinct(s) {
                    assert forall|k: int| 0 <= k < g.len() implies (#[trigger] g[k]).providers.no_duplicates() by {
                        if k < gd.len() {
                            assert(g[k] == gd[k]);
                        }
                    }
                }
            }
        }
    }
}

/// Each entry of the de-duplicated list lists exactly the sites that the
/// results with its hash list; and when no result lists a site twice,
/// neither does any entry.
pub proof fn lemma_dedup_sites(s: Seq<TorrentView>)
    ensures
        forall|j: int, p: Seq<char>|
            0 <= j < deduped(s).len() ==> (#[trigger] deduped(s)[j].providers.contains(p)
                <==> site_listed(s, deduped(s)[j].info_hash, p)),
        sites_distinct(s) ==> sites_distinct(deduped(s)),
{
    lemma_grouped_sites(s);
    let g = grouped(s);
    lemma_sort_by_seeders(g);
    let r = deduped(s);
    assert forall|j: int, p: Seq<char>| 0 <= j < r.len() implies (#[trigger] r[j].providers.contains(p)
        <==> site_listed(s, r[j].info_hash, p)) by {
        assert(r.contains(r[j]));
        let k = choose|k: int| 0 <= k < g.len() && g[k] == r[j];
        assert(g[k].providers.contains(p) <==> site_listed(s, g[k].info_hash, p));
    }
    if sites_distinct(s) {
        assert forall|j: int| 0 <= j < r.len() implies (#[trigger] r[j]).providers.no_duplicates() by {
            assert(r.contains(r[j]));
            let k = choose|k: int| 0 <= k < g.len() && g[k] == r[j];
        }
    }
}

/// The largest seeder and leecher counts of the results with hash `h` bound
/// those of every such result, and some such result reaches each of them.
proof fn lemma_best_bounds(s: Seq<TorrentView>, h: Seq<char>)
    ensures
        forall|x: TorrentView|
            #[trigger] s.contains(x) && x.info_hash == h ==> x.seeders <= best_seeders(s, h)
                && x.leechers <= best_leechers(s, h),
        has_hash(s, h) ==> exists|x: TorrentView|
            #[trigger] s.contains(x) && x.info_hash == h && x.seeders == best_seeders(s, h),
        has_hash(s, h) ==> exists|x: TorrentView|
            #[trigger] s.contains(x) && x.info_hash == h && x.leechers == best_leechers(s, h),
    decreases s.len(),
{
    if s.len() > 0 {
        let d = s.drop_last();
        let t = s.last();
        lemma_best_bounds(d, h);
        lemma_has_hash_last(s, h);
        assert(s.contains(t)) by {
            assert(s[s.len() - 1] == t);
        }
        assert forall|x: TorrentView| #[trigger] d.contains(x) implies s.contains(x) by {
            let k = choose|k: int| 0 <= k < d.len() && d[k] == x;
            assert(s[k] == x);
        }
        assert forall|x: TorrentView| #[trigger] s.contains(x) && x.info_hash == h implies x.seeders
            <= best_seeders(s, h) && x.leechers <= best_leechers(s, h) by {
            let k = choose|k: int| 0 <= k < s.len() && s[k] == x;
            if k < d.len() {
                assert(d[k] == x);
                assert(d.contains(x));
            }
        }
        if has_hash(s, h) && !has_hash(d, h) {
            lemma_best_absent(d, h);
        }
    }
}

/// De-duplicating a reordering of the results gives as many entries, with
/// the same info hashes, and for each hash the same seeder and leecher
/// counts and the same sites.
#[verifier::spinoff_prover]
pub proof fn lemma_dedup_permutation(s: Seq<TorrentView>, p: Seq<TorrentView>)
    requires
        s.to_multiset() == p.to_multiset(),
    ensures
        deduped(s).len() == deduped(p).len(),
        forall|h: Seq<char>| #[trigger] has_hash(deduped(s), h) <==> has_hash(deduped(p), h),
        forall|i: int, j: int|
            0 <= i < deduped(s).len() && 0 <= j < deduped(p).len() && #[trigger] deduped(s)[i].info_hash
                == #[trigger] deduped(p)[j].info_hash ==> deduped(s)[i].seeders == deduped(p)[j].seeders
                && deduped(s)[i].leechers == deduped(p)[j].leechers && forall|q: Seq<char>|
                deduped(s)[i].providers.contains(q) <==> deduped(p)[j].providers.contains(q),
{
    lemma_dedup(s);
    lemma_dedup(p);
    lemma_dedup_sites(s);
    lemma_dedup_sites(p);
    let r = deduped(s);
    let q = deduped(p);
    assert forall|x: TorrentView| #[trigger] s.contains(x) <==> p.contains(x) by {
        vstd::seq_lib::to_multiset_contains(s, x);
        vstd::seq_lib::to_multiset_contains(p, x);
    }
    assert forall|h: Seq<char>| #[trigger] has_hash(s, h) implies has_hash(p, h) by {
        let k = choose|k: int| 0 <= k < s.len() && #[trigger] s[k].info_hash == h;
        assert(s.contains(s[k]));
        assert(p.contains(s[k]));
        let m = choose|m: int| 0 <= m < p.len() && p[m] == s[k];
        assert(p[m].info_hash == h);
    }
    assert forall|h: Seq<char>| #[trigger] has_hash(p, h) implies has_hash(s, h) by {
        let k = choose|k: int| 0 <= k < p.len() && #[trigger] p[k].info_hash == h;
        assert(p.contains(p[k]));
        assert(s.contains(p[k]));
        let m = choose|m: int| 0 <= m < s.len() && s[m] == p[k];
        assert(s[m].info_hash == h);
    }
    assert forall|h: Seq<char>| #[trigger] has_hash(r, h) <==> has_hash(q, h) by {
        assert(has_hash(s, h) ==> has_hash(p, h));
        assert(has_hash(p, h) ==> has_hash(s, h));
    }
    assert forall|i: int, j: int|
        0 <= i < r.len() && 0 <= j < q.len() && #[trigger] r[i].info_hash == #[trigger] q[j].info_hash
            implies r[i].seeders == q[j].seeders && r[i].leechers == q[j].leechers && forall|
        c: Seq<char>,
    | r[i].providers.contains(c) <==> q[j].providers.contains(c) by {
        let h = r[i].info_hash;
        assert(has_hash(r, h));
        assert(has_hash(s, h));
        assert(has_hash(p, h));
        lemma_best_bounds(s, h);
        lemma_best_bounds(p, h);
        let xs = choose|x: TorrentView| #[trigger] s.contains(x) && x.info_hash == h && x.seeders
            == best_seeders(s, h);
        let xp = choose|x: TorrentView| #[trigger] p.contains(x) && x.info_hash == h && x.seeders
            == best_seeders(p, h);
        assert(p.contains(xs) && s.contains(xp));
        let ys = choose|x: TorrentView| #[trigger] s.contains(x) && x.info_hash == h && x.leechers
            == best_leechers(s, h);
        let yp = choose|x: TorrentView| #[trigger] p.contains(x) && x.info_hash == h && x.leechers
            == best_leechers(p, h);
        assert(p.contains(ys) && s.contains(yp));
        assert forall|c: Seq<char>| r[i].providers.contains(c) <==> q[j].providers.contains(c) by {
            assert(r[i].providers.contains(c) <==> site_listed(s, h, c));
            assert(q[j].providers.contains(c) <==> site_listed(p, h, c));
            if site_listed(s, h, c) {
                let k = choose|k: int| 0 <= k < s.len() && #[trigger] s[k].info_hash == h
                    && s[k].providers.contains(c);
                assert(s.contains(s[k]));
                assert(p.contains(s[k]));
                let m = choose|m: int| 0 <= m < p.len() && p[m] == s[k];
                assert(p[m].info_hash == h);
            }
            if site_listed(p, h, c) {
                let k = choose|k: int| 0 <= k < p.len() && #[trigger] p[k].info_hash == h
                    && p[k].providers.contains(c);
                assert(p.contains(p[k]));
                assert(s.contains(p[k]));
                let m = choose|m: int| 0 <= m < s.len() && s[m] == p[k];
                assert(s[m].info_hash == h);
            }
        }
    }
    let hr = r.map_values(|t: TorrentView| t.info_hash);
    let hq = q.map_values(|t: TorrentView| t.info_hash);
    assert(hr.no_duplicates()) by {
        assert forall|i: int, j: int| 0 <= i < hr.len() && 0 <= j < hr.len() && i != j implies hr[i]
            != hr[j] by {
            assert(r[i].info_hash != r[j].info_hash);
        }
    }
    assert(hq.no_duplicates()) by {
        assert forall|i: int, j: int| 0 <= i < hq.len() && 0 <= j < hq.len() && i != j implies hq[i]
            != hq[j] by {
            assert(q[i].info_hash != q[j].info_hash);
        }
    }
    assert(hr.to_set() =~= hq.to_set()) by {
        assert forall|h: Seq<char>| hr.to_set().contains(h) implies hq.to_set().contains(h) by {
            let k = choose|k: int| 0 <= k < hr.len() && hr[k] == h;
            assert(r[k].info_hash == h);
            assert(has_hash(r, h));
            assert(has_hash(q, h));
            let m = choose|m: int| 0 <= m < q.len() && #[trigger] q[m].info_hash == h;
            assert(hq[m] == h);
        }
        assert forall|h: Seq<char>| hq.to_set().contains(h) implies hr.to_set().contains(h) by {
            let k = choose|k: int| 0 <= k < hq.len() && hq[k] == h;
            assert(q[k].info_hash == h);
            assert(has_hash(q, h));
            assert(has_hash(r, h));
            let m = choose|m: int| 0 <= m < r.len() && #[trigger] r[m].info_hash == h;
            assert(hr[m] == h);
        }
    }
    hr.unique_seq_to_set();
    hq.unique_seq_to_set();
}

} // verus!
