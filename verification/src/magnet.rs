//! Magnet links: building one from an info hash and a name, and reading
//! the info hash back out of one.

use vstd::prelude::*;
use vstd::string::*;
use vstd::utf8::encode_utf8;
use crate::text::{
    before_char, find_char_from, first_piece, lemma_find_char_bounds, lowercase, strip_prefix,
    to_lowercase,
};

verus! {

/// The start of every magnet link this tool reads or writes.
pub open spec fn magnet_prefix() -> Seq<char> {
    "magnet:?xt=urn:btih:"@
}

/// The trackers that every built magnet link lists, in order.
pub open spec fn tracker_list() -> Seq<Seq<char>> {
    seq![
        "udp://tracker.opentrackr.org:1337/announce"@,
        "udp://tracker.openbittorrent.com:6969/announce"@,
        "udp://open.stealth.si:80/announce"@,
        "udp://tracker.torrent.eu.org:451/announce"@,
        "udp://tracker.bittor.pw:1337/announce"@,
        "udp://tracker.cyberia.is:6969/announce"@,
    ]
}

fn trackers() -> (r: Vec<&'static str>)
    ensures
        r@.map_values(|t: &str| t@) == tracker_list(),
{
    let r = vec![
        "udp://tracker.opentrackr.org:1337/announce",
        "udp://tracker.openbittorrent.com:6969/announce",
        "udp://open.stealth.si:80/announce",
        "udp://tracker.torrent.eu.org:451/announce",
        "udp://tracker.bittor.pw:1337/announce",
        "udp://tracker.cyberia.is:6969/announce",
    ];
    assert(r@.map_values(|t: &str| t@) =~= tracker_list());
    r
}

/// Whether a byte is left as it is by percent-encoding: an ASCII letter or
/// digit, or one of `-`, `.`, `_`, `~`.
pub open spec fn is_unreserved(b: u8) -> bool {
    ||| (48 <= b && b <= 57)
    ||| (65 <= b && b <= 90)
    ||| (97 <= b && b <= 122)
    ||| b == 45
    ||| b == 46
    ||| b == 95
    ||| b == 126
}

/// The upper-case hexadecimal digit of `d` (below 16).
pub open spec fn hex_upper(d: u8) -> char {
    if d < 10 {
        (48 + d) as char
    } else {
        (55 + d) as char
    }
}

/// Percent-encoding of a byte string: unreserved bytes stay, every other
/// byte becomes `%` and two upper-case hexadecimal digits.
pub open spec fn percent_encode(bytes: Seq<u8>) -> Seq<char>
    decreases bytes.len(),
{
    if bytes.len() == 0 {
        Seq::empty()
    } else {
        let b = bytes.last();
        percent_encode(bytes.drop_last()) + if is_unreserved(b) {
            seq![b as char]
        } else {
            seq!['%', hex_upper(b / 16), hex_upper(b % 16)]
        }
    }
}

/// The URL encoding of a text: its UTF-8 bytes, percent-encoded.
pub open spec fn url_encoded(s: Seq<char>) -> Seq<char> {
    percent_encode(encode_utf8(s))
}

/// Calls `urlencoding::encode`, which percent-encodes every UTF-8 byte of
/// the text except ASCII letters, digits and `-`, `.`, `_`, `~`, with
/// upper-case hexadecimal digits; the contract states exactly that.
#[verifier::external_body]
fn url_encode(s: &str) -> (r: String)
    ensures
        r@ == url_encoded(s@),
{
    urlencoding::encode(s).into_owned()
}

/// The `&tr=` parameters of the given trackers, in order.
pub open spec fn tracker_params(ts: Seq<Seq<char>>) -> Seq<char>
    decreases ts.len(),
{
    if ts.len() == 0 {
        Seq::empty()
    } else {
        tracker_params(ts.drop_last()) + "&tr="@ + url_encoded(ts.last())
    }
}

/// The magnet link for an info hash and a display name: the hash as given,
/// the URL-encoded name, then the URL-encoded trackers.
pub open spec fn magnet_link(hash: Seq<char>, name: Seq<char>) -> Seq<char> {
    magnet_prefix() + hash + "&dn="@ + url_encoded(name) + tracker_params(tracker_list())
}

/// Builds the magnet link of a torrent from its info hash and name.
pub fn build_magnet(hash: &str, name: &str) -> (r: String)
    ensures
        r@ == magnet_link(hash@, name@),
{
    let mut magnet = String::from_str("magnet:?xt=urn:btih:");
    magnet.append(hash);
    magnet.append("&dn=");
    let encoded = url_encode(name);
    magnet.append(encoded.as_str());
    let ghost head = magnet@;
    let ts = trackers();
    let ghost tl = ts@.map_values(|t: &str| t@);
    let mut i: usize = 0;
    while i < ts.len()
        invariant
            i <= ts@.len(),
            tl == ts@.map_values(|t: &str| t@),
            magnet@ == head + tracker_params(tl.take(i as int)),
        decreases ts@.len() - i,
    {
        magnet.append("&tr=");
        let e = url_encode(ts[i]);
        magnet.append(e.as_str());
        assert(tl.take(i + 1).drop_last() =~= tl.take(i as int));
        assert(tl.take(i + 1).last() == ts[i as int]@);
        i = i + 1;
    }
    assert(tl.take(ts@.len() as int) =~= tl);
    magnet
}

/// What reading the info hash out of a magnet link gives: when the link
/// starts with the magnet prefix, the lower-cased text up to the next `&`.
pub open spec fn hash_of_magnet(magnet: Seq<char>) -> Option<Seq<char>> {
    if magnet_prefix().is_prefix_of(magnet) {
        Some(lowercase(before_char(magnet.skip(magnet_prefix().len() as int), '&')))
    } else {
        None
    }
}

/// Reads the info hash out of a magnet link, lower-cased.
pub fn extract_hash(magnet: &str) -> (r: Option<String>)
    ensures
        r matches Some(h) ==> hash_of_magnet(magnet@) == Some(h@),
        r is None ==> hash_of_magnet(magnet@) is None,
{
    match strip_prefix(magnet, "magnet:?xt=urn:btih:") {
        Some(after) => {
            let hash = first_piece(after, '&');
            Some(to_lowercase(hash))
        },
        None => None,
    }
}

/// Reading back a built magnet link gives its info hash, lower-cased, for
/// every hash without an `&` and every name.
pub proof fn lemma_magnet_roundtrip(hash: Seq<char>, name: Seq<char>)
    requires
        !hash.contains('&'),
    ensures
        hash_of_magnet(magnet_link(hash, name)) == Some(lowercase(hash)),
{
    reveal_strlit("magnet:?xt=urn:btih:");
    reveal_strlit("&dn=");
    let p = magnet_prefix();
    let rest = "&dn="@ + url_encoded(name) + tracker_params(tracker_list());
    let m = magnet_link(hash, name);
    assert(m =~= p + (hash + rest));
    assert(p.is_prefix_of(m)) by {
        assert(m.take(p.len() as int) =~= p);
    }
    let after = m.skip(p.len() as int);
    assert(after =~= hash + rest);
    lemma_find_char_bounds(after, '&', 0);
    let k = find_char_from(after, '&', 0);
    assert(after[hash.len() as int] == '&');
    if k < hash.len() {
        assert(after[k] == hash[k]);
        assert(hash.contains('&'));
    }
    assert(k == hash.len());
    assert(before_char(after, '&') =~= hash);
}

} // verus!
