//! The search sites, and what each one's answer becomes.

pub mod apibay;
pub mod eztv;
pub mod knaben;
pub mod nyaa;
pub mod yts;

use vstd::prelude::*;
use crate::text::{parse_unsigned, parse_unsigned_chars, str_eq, chars_of};
use crate::torrent::TorrentView;
use crate::html::HtmlCell;
use crate::magnet::hash_of_magnet;

verus! {

/// The results that are there, in order.
pub open spec fn keep_some(s: Seq<Option<TorrentView>>) -> Seq<TorrentView>
    decreases s.len(),
{
    if s.len() == 0 {
        Seq::empty()
    } else {
        let rest = keep_some(s.drop_last());
        match s.last() {
            Some(t) => rest.push(t),
            None => rest,
        }
    }
}

/// The results kept are exactly the present ones: there are no more of
/// them than positions, each comes from some position, and every present
/// one is kept.
pub proof fn lemma_keep_some(s: Seq<Option<TorrentView>>)
    ensures
        keep_some(s).len() <= s.len(),
        forall|k: int|
            0 <= k < keep_some(s).len() ==> exists|i: int|
                0 <= i < s.len() && s[i] == Some(#[trigger] keep_some(s)[k]),
        forall|i: int|
            0 <= i < s.len() && (#[trigger] s[i]) is Some ==> keep_some(s).contains(s[i].unwrap()),
    decreases s.len(),
{
    if s.len() > 0 {
        let d = s.drop_last();
        lemma_keep_some(d);
        let kd = keep_some(d);
        let k = keep_some(s);
        assert forall|j: int| 0 <= j < k.len() implies exists|i: int|
            0 <= i < s.len() && s[i] == Some(#[trigger] k[j]) by {
            if j < kd.len() {
                assert(k[j] == kd[j]);
                let i = choose|i: int| 0 <= i < d.len() && d[i] == Some(kd[j]);
                assert(s[i] == d[i]);
            } else {
                assert(s[s.len() - 1] == Some(k[j]));
            }
        }
        assert forall|i: int| 0 <= i < s.len() && (#[trigger] s[i]) is Some implies k.contains(
            s[i].unwrap(),
        ) by {
            if i < d.len() {
                assert(d[i] == s[i]);
                assert(kd.contains(s[i].unwrap()));
                let m = choose|m: int| 0 <= m < kd.len() && kd[m] == s[i].unwrap();
                assert(k[m] == kd[m]);
            } else {
                assert(k.last() == s[i].unwrap());
                assert(k[k.len() - 1] == s[i].unwrap());
            }
        }
    }
}

/// What `text.parse::<u32>()` gives.
pub open spec fn parse_u32(s: Seq<char>) -> Option<u32> {
    match parse_unsigned(s, 0xffff_ffff) {
        Some(v) => Some(v as u32),
        None => None,
    }
}

/// What `text.parse::<u64>()` gives.
pub open spec fn parse_u64(s: Seq<char>) -> Option<u64> {
    match parse_unsigned(s, 0xffff_ffff_ffff_ffff) {
        Some(v) => Some(v as u64),
        None => None,
    }
}

/// A count read from a text, or 0 when the text is not one.
pub open spec fn count_or_zero(s: Seq<char>) -> u32 {
    match parse_u32(s) {
        Some(v) => v,
        None => 0,
    }
}

/// `text.parse::<u32>()`.
pub fn read_u32(s: &str) -> (r: Option<u32>)
    ensures
        r == parse_u32(s@),
{
    let cs = chars_of(s);
    match parse_unsigned_chars(&cs, 0xffff_ffff) {
        Some(v) => Some(v as u32),
        None => None,
    }
}

/// `text.parse::<u64>()`.
pub fn read_u64(s: &str) -> (r: Option<u64>)
    ensures
        r == parse_u64(s@),
{
    let cs = chars_of(s);
    parse_unsigned_chars(&cs, 0xffff_ffff_ffff_ffff)
}

/// The sites, by name, in the order in which they are listed and searched.
pub open spec fn site_names() -> Seq<Seq<char>> {
    seq!["apibay"@, "yts"@, "knaben"@, "nyaa"@, "eztv"@]
}

/// The names of the sites, in order.
pub fn provider_names() -> (r: Vec<&'static str>)
    ensures
        r@.map_values(|p: &str| p@) == site_names(),
{
    let r = vec!["apibay", "yts", "knaben", "nyaa", "eztv"];
    assert(r@.map_values(|p: &str| p@) =~= site_names());
    r
}

/// Whether the site `name` is searched: every site when no list is asked
/// for, else the sites whose name the list holds.
pub open spec fn selected(name: Seq<char>, requested: Option<Seq<Seq<char>>>) -> bool {
    match requested {
        None => true,
        Some(names) => names.contains(name),
    }
}

/// Whether the site `name` is searched, given the sites asked for.
pub fn is_selected(name: &str, requested: &Option<Vec<String>>) -> (r: bool)
    ensures
        r == selected(
            name@,
            match requested {
                Some(v) => Some(v@.map_values(|n: String| n@)),
                None => None,
            },
        ),
{
    match requested {
        None => true,
        Some(names) => {
            let ghost nv = names@.map_values(|n: String| n@);
            let mut i: usize = 0;
            while i < names.len()
                invariant
                    i <= names@.len(),
                    *requested == Some(*names),
                    nv == names@.map_values(|n: String| n@),
                    forall|k: int| 0 <= k < i ==> nv[k] != name@,
                decreases names@.len() - i,
            {
                if str_eq(names[i].as_str(), name) {
                    assert(nv[i as int] == name@);
                    assert(nv.contains(name@));
                    return true;
                }
                i = i + 1;
            }
            false
        },
    }
}

/// Every site is searched when no list is asked for; otherwise a site is
/// searched exactly when its name is somewhere in the list, at any
/// position.
pub proof fn lemma_selected(name: Seq<char>, names: Seq<Seq<char>>)
    ensures
        selected(name, None),
        forall|k: int| 0 <= k < names.len() ==> selected(#[trigger] names[k], Some(names)),
        selected(name, Some(names)) <==> exists|k: int| 0 <= k < names.len() && #[trigger] names[k]
            == name,
{
}

/// The info hash of a magnet link, or empty when it is none.
pub open spec fn hash_or_empty(magnet: Seq<char>) -> Seq<char> {
    match hash_of_magnet(magnet) {
        Some(h) => h,
        None => Seq::empty(),
    }
}

/// Whether `sizes` are sizes that `size_of` may give for the size cells of
/// the rows (cell `cell` of each row of `min_cells` cells or more).
pub open spec fn sizes_read<F: Fn(&String) -> u64>(
    rows: Seq<Vec<HtmlCell>>,
    size_of: F,
    cell: int,
    min_cells: int,
    sizes: Seq<u64>,
) -> bool {
    &&& sizes.len() == rows.len()
    &&& forall|i: int|
        0 <= i < rows.len() && rows[i]@.len() >= min_cells ==> size_of.ensures(
            (&rows[i]@[cell].text,),
            #[trigger] sizes[i],
        )
}

/// The texts of a list of request parameters.
pub open spec fn params_view(ps: Seq<(&str, String)>) -> Seq<(Seq<char>, Seq<char>)> {
    ps.map_values(|p: (&str, String)| (p.0@, p.1@))
}

} // verus!
