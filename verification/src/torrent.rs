//! A search result, how two results for the same torrent are merged, and how
//! its size is shown.

use vstd::prelude::*;
use vstd::string::*;
use vstd::arithmetic::div_mod::lemma_div_denominator;
use crate::text::{decimal, decimal_string, digit_char, str_eq};

verus! {

/// One torrent found by one or more sites.
#[derive(Debug, Clone)]
pub struct Torrent {
    pub name: String,
    pub info_hash: String,
    pub magnet: String,
    pub seeders: u32,
    pub leechers: u32,
    pub size_bytes: u64,
    pub providers: Vec<&'static str>,
}

/// The mathematical value of a [`Torrent`].
#[verifier::ext_equal]
pub struct TorrentView {
    pub name: Seq<char>,
    pub info_hash: Seq<char>,
    pub magnet: Seq<char>,
    pub seeders: u32,
    pub leechers: u32,
    pub size_bytes: u64,
    pub providers: Seq<Seq<char>>,
}

/// The texts of a list of site names.
pub open spec fn names_view(ps: Seq<&str>) -> Seq<Seq<char>> {
    ps.map_values(|p: &str| p@)
}

impl View for Torrent {
    type V = TorrentView;

    open spec fn view(&self) -> TorrentView {
        TorrentView {
            name: self.name@,
            info_hash: self.info_hash@,
            magnet: self.magnet@,
            seeders: self.seeders,
            leechers: self.leechers,
            size_bytes: self.size_bytes,
            providers: names_view(self.providers@),
        }
    }
}

/// `acc` followed by those of `qs` that are not yet listed, taken in order
/// (each one is checked against the list as it grows).
pub open spec fn add_missing(acc: Seq<Seq<char>>, qs: Seq<Seq<char>>) -> Seq<Seq<char>>
    decreases qs.len(),
{
    if qs.len() == 0 {
        acc
    } else {
        let a = add_missing(acc, qs.drop_last());
        if a.contains(qs.last()) {
            a
        } else {
            a.push(qs.last())
        }
    }
}

/// The larger of two counts.
pub open spec fn max_u32(a: u32, b: u32) -> u32 {
    if a >= b {
        a
    } else {
        b
    }
}

/// `a` after taking in `b`: the larger seeder and leecher counts, and the
/// sites of `b` that `a` does not list yet, appended in order.
pub open spec fn merged(a: TorrentView, b: TorrentView) -> TorrentView {
    TorrentView {
        seeders: max_u32(a.seeders, b.seeders),
        leechers: max_u32(a.leechers, b.leechers),
        providers: add_missing(a.providers, b.providers),
        ..a
    }
}

fn lists(ps: &Vec<&'static str>, p: &str) -> (r: bool)
    ensures
        r == names_view(ps@).contains(p@),
{
    let mut i: usize = 0;
    while i < ps.len()
        invariant
            i <= ps@.len(),
            forall|k: int| 0 <= k < i ==> ps@[k]@ != p@,
        decreases ps@.len() - i,
    {
        if str_eq(ps[i], p) {
            assert(names_view(ps@)[i as int] == p@);
            return true;
        }
        i = i + 1;
    }
    assert forall|k: int| 0 <= k < names_view(ps@).len() implies names_view(ps@)[k] != p@ by {
        assert(names_view(ps@)[k] == ps@[k]@);
    }
    false
}

impl Torrent {
    /// Takes in another result for the same torrent: keeps the larger seeder
    /// and leecher counts and adds the sites that are not listed yet.
    pub fn merge(&mut self, other: Torrent)
        ensures
            final(self)@ == merged(old(self)@, other@),
    {
        self.seeders = if self.seeders >= other.seeders {
            self.seeders
        } else {
            other.seeders
        };
        self.leechers = if self.leechers >= other.leechers {
            self.leechers
        } else {
            other.leechers
        };
        let ghost start = names_view(self.providers@);
        let ghost theirs = names_view(other.providers@);
        let mut i: usize = 0;
        while i < other.providers.len()
            invariant
                i <= other.providers@.len(),
                theirs == names_view(other.providers@),
                names_view(self.providers@) == add_missing(start, theirs.take(i as int)),
                start == names_view(old(self).providers@),
                self.seeders == max_u32(old(self).seeders, other.seeders),
                self.leechers == max_u32(old(self).leechers, other.leechers),
                self.name == old(self).name,
                self.info_hash == old(self).info_hash,
                self.magnet == old(self).magnet,
                self.size_bytes == old(self).size_bytes,
            decreases other.providers@.len() - i,
        {
            let p = other.providers[i];
            assert(theirs.take(i + 1).drop_last() =~= theirs.take(i as int));
            assert(theirs.take(i + 1).last() == p@);
            if !lists(&self.providers, p) {
                self.providers.push(p);
                assert(names_view(self.providers@) =~= add_missing(start, theirs.take(i as int)).push(p@));
            }
            i = i + 1;
        }
        assert(theirs.take(other.providers@.len() as int) =~= theirs);
        assert(self@ =~= merged(old(self)@, other@));
    }
}

proof fn lemma_contains_push(s: Seq<Seq<char>>, x: Seq<char>, p: Seq<char>)
    ensures
        s.push(x).contains(p) <==> s.contains(p) || p == x,
{
    if s.contains(p) {
        let k = choose|k: int| 0 <= k < s.len() && s[k] == p;
        assert(s.push(x)[k] == p);
    }
    if p == x {
        assert(s.push(x)[s.len() as int] == p);
    }
    if s.push(x).contains(p) {
        let k = choose|k: int| 0 <= k < s.len() + 1 && s.push(x)[k] == p;
        if k < s.len() {
            assert(s[k] == p);
        }
    }
}

pub proof fn lemma_add_missing(acc: Seq<Seq<char>>, qs: Seq<Seq<char>>)
    ensures
        add_missing(acc, qs).len() >= acc.len(),
        add_missing(acc, qs).take(acc.len() as int) == acc,
        forall|p: Seq<char>| #[trigger]
            add_missing(acc, qs).contains(p) <==> acc.contains(p) || qs.contains(p),
        acc.no_duplicates() ==> add_missing(acc, qs).no_duplicates(),
        (forall|k: int| 0 <= k < qs.len() ==> acc.contains(#[trigger] qs[k])) ==> add_missing(
            acc,
            qs,
        ) == acc,
    decreases qs.len(),
{
    if qs.len() == 0 {
        assert(acc.take(acc.len() as int) =~= acc);
    } else {
        let d = qs.drop_last();
        lemma_add_missing(acc, d);
        let a = add_missing(acc, d);
        assert forall|p: Seq<char>| #[trigger]
            add_missing(acc, qs).contains(p) <==> acc.contains(p) || qs.contains(p) by {
            lemma_contains_push(a, qs.last(), p);
            lemma_contains_push(d, qs.last(), p);
            assert(d.push(qs.last()) =~= qs);
        }
        if !a.contains(qs.last()) {
            assert(a.push(qs.last()).take(acc.len() as int) =~= a.take(acc.len() as int));
            if acc.no_duplicates() {
                assert forall|i: int, j: int|
                    0 <= i < a.len() + 1 && 0 <= j < a.len() + 1 && i != j implies a.push(
                    qs.last(),
                )[i] != a.push(qs.last())[j] by {
                    if i == a.len() {
                        assert(a.push(qs.last())[j] == a[j]);
                    }
                    if j == a.len() {
                        assert(a.push(qs.last())[i] == a[i]);
                    }
                }
            }
        }
        if forall|k: int| 0 <= k < qs.len() ==> acc.contains(#[trigger] qs[k]) {
            assert forall|k: int| 0 <= k < d.len() implies acc.contains(#[trigger] d[k]) by {
                assert(d[k] == qs[k]);
            }
            assert(acc.contains(qs[qs.len() - 1]));
        }
    }
}

/// Merging keeps the sites of the first result, in order, at the front; the
/// merged list holds exactly the sites of both; and if the first list had
/// no site twice, neither has the merged one. The counts become the larger
/// of the two; name, info hash, magnet link and size stay those of the
/// first result.
pub proof fn lemma_merge_sites(a: TorrentView, b: TorrentView)
    ensures
        merged(a, b).providers.take(a.providers.len() as int) == a.providers,
        forall|p: Seq<char>| #[trigger]
            merged(a, b).providers.contains(p) <==> a.providers.contains(p) || b.providers.contains(p),
        a.providers.no_duplicates() ==> merged(a, b).providers.no_duplicates(),
        merged(a, b).seeders >= a.seeders && merged(a, b).seeders >= b.seeders,
        merged(a, b).leechers >= a.leechers && merged(a, b).leechers >= b.leechers,
        merged(a, b).seeders == a.seeders || merged(a, b).seeders == b.seeders,
        merged(a, b).leechers == a.leechers || merged(a, b).leechers == b.leechers,
        merged(a, b).info_hash == a.info_hash,
        merged(a, b).name == a.name,
        merged(a, b).magnet == a.magnet,
        merged(a, b).size_bytes == a.size_bytes,
{
    lemma_add_missing(a.providers, b.providers);
}

/// Merging a result with itself changes nothing.
pub proof fn lemma_merge_self(a: TorrentView)
    ensures
        merged(a, a) == a,
{
    assert forall|k: int| 0 <= k < a.providers.len() implies a.providers.contains(
        #[trigger] a.providers[k],
    ) by {}
    lemma_add_missing(a.providers, a.providers);
    assert(merged(a, a) =~= a);
}

/// The seeder and leecher counts of a merge do not depend on the order of
/// the two results.
pub proof fn lemma_merge_counts_commute(a: TorrentView, b: TorrentView)
    ensures
        merged(a, b).seeders == merged(b, a).seeders,
        merged(a, b).leechers == merged(b, a).leechers,
{
}

/// `2` to the power `s`.
pub open spec fn two_pow(s: nat) -> nat
    decreases s,
{
    if s == 0 {
        1
    } else {
        2 * two_pow((s - 1) as nat)
    }
}

/// `n / d` rounded to the nearest integer, ties to the even one.
pub open spec fn rounded_div(n: nat, d: nat) -> nat {
    let q = n / d;
    let r = n % d;
    if 2 * r > d || (2 * r == d && q % 2 == 1) {
        q + 1
    } else {
        q
    }
}

/// How many low bits of `b` do not fit in the 53-bit significand of an `f64`.
pub open spec fn excess_bits(b: nat) -> nat
    decreases b,
{
    if b < 0x20_0000_0000_0000 {
        0
    } else {
        1 + excess_bits(b / 2)
    }
}

/// The value of `b as f64`: `b` rounded to the nearest number with a 53-bit
/// significand, ties to even.
pub open spec fn f64_value(b: nat) -> nat {
    rounded_div(b, two_pow(excess_bits(b))) * two_pow(excess_bits(b))
}

/// `x / unit` written with one decimal, as `{:.1}` writes the `f64` quotient.
pub open spec fn one_decimal(x: nat, unit: nat) -> Seq<char> {
    let t = rounded_div(10 * x, unit);
    decimal(t / 10) + seq!['.', digit_char(t % 10)]
}

pub open spec fn kib() -> nat {
    1024
}

pub open spec fn mib() -> nat {
    1024 * 1024
}

pub open spec fn gib() -> nat {
    1024 * 1024 * 1024
}

pub open spec fn tib() -> nat {
    1024 * 1024 * 1024 * 1024
}

/// The size column of a result: bytes below 1 KiB, else the largest binary
/// unit up to TiB that the size reaches, with one decimal.
pub open spec fn size_text(b: u64) -> Seq<char> {
    if b >= tib() {
        one_decimal(f64_value(b as nat), tib()) + " TiB"@
    } else if b >= gib() {
        one_decimal(f64_value(b as nat), gib()) + " GiB"@
    } else if b >= mib() {
        one_decimal(f64_value(b as nat), mib()) + " MiB"@
    } else if b >= kib() {
        one_decimal(f64_value(b as nat), kib()) + " KiB"@
    } else {
        decimal(b as nat) + " B"@
    }
}

fn rounded_div_exec(n: u128, d: u128) -> (r: u128)
    requires
        d > 0,
        n as int <= 0x100_0000_0000_0000_0000int,
        d as int <= 0x100_0000_0000_0000_0000int,
    ensures
        r as nat == rounded_div(n as nat, d as nat),
{
    let q = n / d;
    let r = n % d;
    if 2 * r > d || (2 * r == d && q % 2 == 1) {
        q + 1
    } else {
        q
    }
}

/// The value of `b as f64`, computed with integers.
fn f64_value_exec(b: u64) -> (r: u128)
    ensures
        r as nat == f64_value(b as nat),
        r <= 0x2_0000_0000_0000_0000,
{
    let mut v: u64 = b;
    let mut p: u64 = 1;
    let ghost mut s: nat = 0;
    while v >= 0x20_0000_0000_0000
        invariant
            p as nat == two_pow(s),
            1 <= p,
            v as nat == b as nat / p as nat,
            excess_bits(b as nat) == s + excess_bits(v as nat),
            p <= 0x1000,
        decreases v,
    {
        proof {
            lemma_div_denominator(b as int, p as int, 2);
            assert(p * 0x20_0000_0000_0000 <= b) by (nonlinear_arith)
                requires v >= 0x20_0000_0000_0000, v == b / p, p >= 1;
            assert(p < 0x800) by (nonlinear_arith)
                requires p * 0x20_0000_0000_0000 <= b, b < 0x1_0000_0000_0000_0000;
        }
        v = v / 2;
        p = p * 2;
        proof {
            s = s + 1;
        }
    }
    assert(excess_bits(v as nat) == 0);
    let q = rounded_div_exec(b as u128, p as u128);
    assert(q <= 0x20_0000_0000_0000);
    assert(q * (p as u128) <= 0x2_0000_0000_0000_0000) by (nonlinear_arith)
        requires q <= 0x20_0000_0000_0000, p <= 0x1000;
    let r = q * (p as u128);
    r
}

fn one_decimal_exec(x: u128, unit: u128) -> (r: String)
    requires
        unit > 0,
        unit <= 0x100_0000_0000,
        x <= 0x2_0000_0000_0000_0000,
        (x / unit) as int <= 0x1000_0000_0000_0000int,
    ensures
        r@ == one_decimal(x as nat, unit as nat),
{
    let t = rounded_div_exec(10 * x, unit);
    assert(t / 10 <= x / unit + 1) by (nonlinear_arith)
        requires t as int <= (10 * x as int) / (unit as int) + 1, unit > 0;
    let mut r = decimal_string((t / 10) as u64);
    r.append(".");
    let frac = (t % 10) as u64;
    let d = decimal_string(frac);
    assert(d@ == seq![digit_char(frac as nat)]);
    r.append(d.as_str());
    proof {
        reveal_strlit(".");
    }
    assert(r@ =~= one_decimal(x as nat, unit as nat));
    r
}

impl Torrent {
    /// The size of the torrent as the results table shows it.
    pub fn format_size(&self) -> (r: String)
        ensures
            r@ == size_text(self.size_bytes),
    {
        let b = self.size_bytes;
        if b < 1024 {
            let mut r = decimal_string(b);
            r.append(" B");
            return r;
        }
        let x = f64_value_exec(b);
        let (unit, suffix): (u128, &str) = if b >= 1024 * 1024 * 1024 * 1024 {
            (1024 * 1024 * 1024 * 1024, " TiB")
        } else if b >= 1024 * 1024 * 1024 {
            (1024 * 1024 * 1024, " GiB")
        } else if b >= 1024 * 1024 {
            (1024 * 1024, " MiB")
        } else {
            (1024, " KiB")
        };
        assert((x / unit) as int <= 0x1000_0000_0000_0000int) by (nonlinear_arith)
            requires x <= 0x2_0000_0000_0000_0000, unit >= 1024;
        let mut r = one_decimal_exec(x, unit);
        r.append(suffix);
        r
    }
}

} // verus!
