//! Reading the size columns of the sites: which number and which unit a
//! size text holds. The number itself is a decimal fraction; turning it into
//! bytes is floating-point work that is done outside this crate.

use vstd::prelude::*;
use vstd::string::*;
use crate::text::{lowercase, split_words, str_eq, strip_suffix, to_lowercase, trim, trim_str, words};

verus! {

/// The multiplier of a lower-cased decimal unit as eztv writes it.
pub open spec fn eztv_unit(u: Seq<char>) -> u64 {
    if u == "tb"@ {
        1_000_000_000_000
    } else if u == "gb"@ {
        1_000_000_000
    } else if u == "mb"@ {
        1_000_000
    } else if u == "kb"@ {
        1_000
    } else {
        1
    }
}

/// The number text and unit multiplier of an eztv size such as `1.2 GB`:
/// the trimmed, lower-cased text must be exactly two words.
pub open spec fn eztv_size_parts(s: Seq<char>) -> Option<(Seq<char>, u64)> {
    let w = words(lowercase(trim(s)));
    if w.len() != 2 {
        None
    } else {
        Some((w[0], eztv_unit(w[1])))
    }
}

/// The multiplier of a binary unit as nyaa writes it.
pub open spec fn nyaa_unit(u: Seq<char>) -> u64 {
    if u == "TiB"@ {
        0x100_0000_0000
    } else if u == "GiB"@ {
        0x4000_0000
    } else if u == "MiB"@ {
        0x10_0000
    } else if u == "KiB"@ {
        1024
    } else {
        1
    }
}

/// The number text and unit multiplier of a nyaa size such as `1.2 GiB`:
/// the trimmed text must be exactly two words.
pub open spec fn nyaa_size_parts(s: Seq<char>) -> Option<(Seq<char>, u64)> {
    let w = words(trim(s));
    if w.len() != 2 {
        None
    } else {
        Some((w[0], nyaa_unit(w[1])))
    }
}

/// The number text and unit multiplier of a yts size such as `1.2 GB`:
/// the lower-cased text must end in `gb` or `mb`; the number is what comes
/// before, trimmed.
pub open spec fn yts_size_parts(s: Seq<char>) -> Option<(Seq<char>, u64)> {
    let l = lowercase(s);
    if l.len() >= 2 && l.skip(l.len() - 2) == "gb"@ {
        Some((trim(l.take(l.len() - 2)), 1_000_000_000))
    } else if l.len() >= 2 && l.skip(l.len() - 2) == "mb"@ {
        Some((trim(l.take(l.len() - 2)), 1_000_000))
    } else {
        None
    }
}

/// Splits an eztv size text into its number text and unit multiplier.
pub fn eztv_size_fields(s: &str) -> (r: Option<(String, u64)>)
    ensures
        r matches Some((t, m)) ==> eztv_size_parts(s@) == Some((t@, m)),
        r is None ==> eztv_size_parts(s@) is None,
{
    let lower = to_lowercase(trim_str(s));
    let parts = split_words(lower.as_str());
    let ghost w = parts@.map_values(|x: &str| x@);
    if parts.len() != 2 {
        return None;
    }
    assert(w[0] == parts@[0]@ && w[1] == parts@[1]@);
    let u = parts[1];
    let m: u64 = if str_eq(u, "tb") {
        1_000_000_000_000
    } else if str_eq(u, "gb") {
        1_000_000_000
    } else if str_eq(u, "mb") {
        1_000_000
    } else if str_eq(u, "kb") {
        1_000
    } else {
        1
    };
    Some((String::from_str(parts[0]), m))
}

/// Splits a nyaa size text into its number text and unit multiplier.
pub fn nyaa_size_fields(s: &str) -> (r: Option<(String, u64)>)
    ensures
        r matches Some((t, m)) ==> nyaa_size_parts(s@) == Some((t@, m)),
        r is None ==> nyaa_size_parts(s@) is None,
{
    let parts = split_words(trim_str(s));
    let ghost w = parts@.map_values(|x: &str| x@);
    if parts.len() != 2 {
        return None;
    }
    assert(w[0] == parts@[0]@ && w[1] == parts@[1]@);
    let u = parts[1];
    let m: u64 = if str_eq(u, "TiB") {
        0x100_0000_0000
    } else if str_eq(u, "GiB") {
        0x4000_0000
    } else if str_eq(u, "MiB") {
        0x10_0000
    } else if str_eq(u, "KiB") {
        1024
    } else {
        1
    };
    Some((String::from_str(parts[0]), m))
}

/// Splits a yts size text into its number text and unit multiplier.
pub fn yts_size_fields(s: &str) -> (r: Option<(String, u64)>)
    ensures
        r matches Some((t, m)) ==> yts_size_parts(s@) == Some((t@, m)),
        r is None ==> yts_size_parts(s@) is None,
{
    proof {
        reveal_strlit("gb");
        reveal_strlit("mb");
    }
    let lower = to_lowercase(s);
    match strip_suffix(lower.as_str(), "gb") {
        Some(n) => Some((String::from_str(trim_str(n)), 1_000_000_000)),
        None => match strip_suffix(lower.as_str(), "mb") {
            Some(n) => Some((String::from_str(trim_str(n)), 1_000_000)),
            None => None,
        },
    }
}

} // verus!
