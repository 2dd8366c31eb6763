//! The results table printed for people: its lines, laid out for a
//! terminal of a given width.

use vstd::prelude::*;
use vstd::string::*;
use vstd::utf8::encode_utf8;
use crate::dedup::views;
use crate::text::{decimal, decimal_string, pad_left, pad_left_str, pad_right, pad_right_str, repeat, repeat_str};
use crate::torrent::{names_view, size_text, Torrent, TorrentView};

verus! {

/// The site names joined by commas.
pub open spec fn joined(ps: Seq<Seq<char>>) -> Seq<char>
    decreases ps.len(),
{
    if ps.len() == 0 {
        Seq::empty()
    } else if ps.len() == 1 {
        ps[0]
    } else {
        joined(ps.drop_last()) + ","@ + ps.last()
    }
}

/// The number of UTF-8 bytes of a text (`str::len`).
pub open spec fn byte_len(s: Seq<char>) -> nat {
    encode_utf8(s).len()
}

/// The widest site list of the results, in bytes (0 without results).
pub open spec fn widest(rs: Seq<TorrentView>) -> nat
    decreases rs.len(),
{
    if rs.len() == 0 {
        0
    } else {
        let w = byte_len(joined(rs.last().providers));
        let m = widest(rs.drop_last());
        if rs.len() == 1 || w > m {
            w
        } else {
            m
        }
    }
}

/// The room left for names: what the terminal width leaves after the other
/// columns, but at least 20 characters.
pub open spec fn name_width(rs: Seq<TorrentView>, term_width: nat) -> nat {
    let src = if rs.len() == 0 {
        6
    } else if widest(rs) > 3 {
        widest(rs)
    } else {
        3
    };
    let overhead = 34 + src;
    if term_width > overhead && (term_width - overhead) as nat > 20 {
        (term_width - overhead) as nat
    } else {
        20
    }
}

/// A name cut to `w` characters: longer names keep `w - 1` and end in `…`.
pub open spec fn cut_name(name: Seq<char>, w: nat) -> Seq<char> {
    if name.len() > w {
        name.take(w - 1) + "\u{2026}"@
    } else {
        name
    }
}

/// One line of the table, from its cells.
pub open spec fn table_line(
    index: Seq<char>,
    name: Seq<char>,
    w: nat,
    size: Seq<char>,
    s: Seq<char>,
    l: Seq<char>,
    src: Seq<char>,
) -> Seq<char> {
    pad_left(index, 3) + " | "@ + pad_right(name, w) + " | "@ + pad_left(size, 8) + " | "@
        + pad_left(s, 4) + " | "@ + pad_left(l, 4) + " | "@ + src
}

/// The line of result number `i` (counted from 0; shown from 1).
pub open spec fn result_line(t: TorrentView, i: nat, w: nat) -> Seq<char> {
    table_line(
        decimal(i + 1),
        cut_name(t.name, w),
        w,
        size_text(t.size_bytes),
        decimal(t.seeders as nat),
        decimal(t.leechers as nat),
        joined(t.providers),
    )
}

/// The lines printed for the results on a terminal `term_width` columns
/// wide: a notice when there are none; else a header, a rule as wide as the
/// terminal (at most 200), and one line per result.
pub open spec fn table_text(rs: Seq<TorrentView>, term_width: nat) -> Seq<Seq<char>> {
    if rs.len() == 0 {
        seq!["No results found."@]
    } else {
        let w = name_width(rs, term_width);
        seq![
            table_line("#"@, "Name"@, w, "Size"@, "S"@, "L"@, "Src"@),
            repeat("\u{2500}"@, if term_width < 200 { term_width } else { 200 }),
        ] + Seq::new(rs.len(), |i: int| result_line(rs[i], i as nat, w))
    }
}

/// Whether the widths of the table can be added up in a `usize`.
pub open spec fn widths_fit(rs: Seq<TorrentView>) -> bool {
    forall|i: int| 0 <= i < rs.len() ==> byte_len(joined(#[trigger] rs[i].providers)) + 34 <= usize::MAX
}

/// The site names of a result, joined by commas.
pub fn join_names(ps: &Vec<&'static str>) -> (r: String)
    ensures
        r@ == joined(names_view(ps@)),
{
    let ghost nv = names_view(ps@);
    let mut r = String::new();
    let mut i: usize = 0;
    while i < ps.len()
        invariant
            i <= ps@.len(),
            nv == names_view(ps@),
            r@ == joined(nv.take(i as int)),
        decreases ps@.len() - i,
    {
        if i > 0 {
            r.append(",");
        }
        r.append(ps[i]);
        assert(nv.take(i + 1).drop_last() =~= nv.take(i as int));
        assert(nv.take(i + 1).last() == ps@[i as int]@);
        if i == 0 {
            assert(r@ =~= joined(nv.take(1)));
        }
        i = i + 1;
    }
    assert(nv.take(ps@.len() as int) =~= nv);
    r
}

fn line_of(index: &str, name: &str, w: usize, size: &str, s: &str, l: &str, src: &str) -> (r: String)
    ensures
        r@ == table_line(index@, name@, w as nat, size@, s@, l@, src@),
{
    let mut r = pad_left_str(index, 3);
    r.append(" | ");
    let n = pad_right_str(name, w);
    r.append(n.as_str());
    r.append(" | ");
    let z = pad_left_str(size, 8);
    r.append(z.as_str());
    r.append(" | ");
    let a = pad_left_str(s, 4);
    r.append(a.as_str());
    r.append(" | ");
    let b = pad_left_str(l, 4);
    r.append(b.as_str());
    r.append(" | ");
    r.append(src);
    r
}

/// The lines of the results table, in order.
pub fn table_lines(results: &Vec<Torrent>, term_width: usize) -> (r: Vec<String>)
    requires
        widths_fit(views(results@)),
    ensures
        r@.map_values(|x: String| x@) == table_text(views(results@), term_width as nat),
{
    let ghost rs = views(results@);
    let mut out: Vec<String> = Vec::new();
    if results.len() == 0 {
        out.push(String::from_str("No results found."));
        assert(out@.map_values(|x: String| x@) =~= table_text(rs, term_width as nat));
        return out;
    }
    let mut widest_len: usize = 0;
    let mut i: usize = 0;
    while i < results.len()
        invariant
            i <= results@.len(),
            rs == views(results@),
            widths_fit(rs),
            widest_len as nat == widest(rs.take(i as int)),
        decreases results@.len() - i,
    {
        let j = join_names(&results[i].providers);
        let len = j.as_str().len();
        assert(rs.take(i + 1).drop_last() =~= rs.take(i as int));
        assert(rs.take(i + 1).last() == rs[i as int]);
        if i == 0 || len > widest_len {
            widest_len = len;
        }
        i = i + 1;
    }
    assert(rs.take(results@.len() as int) =~= rs);
    assert(widest_len as nat + 34 <= usize::MAX) by {
        if rs.len() > 0 {
            lemma_widest_is_one(rs);
        }
    }
    let src: usize = if widest_len > 3 {
        widest_len
    } else {
        3
    };
    let overhead = 34 + src;
    let w: usize = if term_width > overhead && term_width - overhead > 20 {
        term_width - overhead
    } else {
        20
    };
    assert(w as nat == name_width(rs, term_width as nat));
    out.push(line_of("#", "Name", w, "Size", "S", "L", "Src"));
    let rule_width: usize = if term_width < 200 {
        term_width
    } else {
        200
    };
    out.push(repeat_str("\u{2500}", rule_width));
    let ghost head = out@.map_values(|x: String| x@);
    let mut k: usize = 0;
    while k < results.len()
        invariant
            k <= results@.len(),
            rs == views(results@),
            w as nat == name_width(rs, term_width as nat),
            w >= 20,
            head.len() == 2,
            out@.map_values(|x: String| x@) == head + Seq::new(
                k as nat,
                |j: int| result_line(rs[j], j as nat, w as nat),
            ),
        decreases results@.len() - k,
    {
        let t = &results[k];
        let n = t.name.as_str().unicode_len();
        let name: String = if n > w {
            let mut c = String::from_str(t.name.as_str().substring_char(0, w - 1));
            c.append("\u{2026}");
            c
        } else {
            String::from_str(t.name.as_str())
        };
        let number = decimal_string((k + 1) as u64);
        let size = t.format_size();
        let s = decimal_string(t.seeders as u64);
        let l = decimal_string(t.leechers as u64);
        let src_names = join_names(&t.providers);
        let line = line_of(
            number.as_str(),
            name.as_str(),
            w,
            size.as_str(),
            s.as_str(),
            l.as_str(),
            src_names.as_str(),
        );
        let ghost before = out@.map_values(|x: String| x@);
        out.push(line);
        assert(rs[k as int] == t@);
        assert(out@.map_values(|x: String| x@) =~= before.push(line@));
        assert(line@ == result_line(rs[k as int], k as nat, w as nat));
        assert(head + Seq::new((k + 1) as nat, |j: int| result_line(rs[j], j as nat, w as nat))
            =~= (head + Seq::new(k as nat, |j: int| result_line(rs[j], j as nat, w as nat))).push(
            line@,
        ));
        k = k + 1;
    }
    assert(out@.map_values(|x: String| x@) =~= table_text(rs, term_width as nat));
    out
}

proof fn lemma_widest_is_one(rs: Seq<TorrentView>)
    requires
        rs.len() > 0,
    ensures
        exists|i: int| 0 <= i < rs.len() && widest(rs) == byte_len(joined(#[trigger] rs[i].providers)),
    decreases rs.len(),
{
    let w = byte_len(joined(rs.last().providers));
    if rs.len() == 1 || w > widest(rs.drop_last()) {
        assert(widest(rs) == byte_len(joined(rs[rs.len() - 1].providers)));
    } else {
        lemma_widest_is_one(rs.drop_last());
        let i = choose|i: int|
            0 <= i < rs.drop_last().len() && widest(rs.drop_last()) == byte_len(
                joined(#[trigger] rs.drop_last()[i].providers),
            );
        assert(rs.drop_last()[i] == rs[i]);
    }
}

/// The name column lines up: in every line of results the cut, padded
/// name takes exactly the name width, whatever the name.
pub proof fn lemma_name_column_width(name: Seq<char>, w: nat)
    requires
        w >= 1,
    ensures
        cut_name(name, w).len() <= w,
        name.len() <= w ==> cut_name(name, w) == name,
        pad_right(cut_name(name, w), w).len() == w,
{
    reveal_strlit("\u{2026}");
}

proof fn lemma_widest_bound(rs: Seq<TorrentView>)
    ensures
        forall|i: int|
            0 <= i < rs.len() ==> byte_len(joined(#[trigger] rs[i].providers)) <= widest(rs),
    decreases rs.len(),
{
    if rs.len() > 0 {
        let d = rs.drop_last();
        lemma_widest_bound(d);
        assert forall|i: int| 0 <= i < rs.len() implies byte_len(joined(#[trigger] rs[i].providers))
            <= widest(rs) by {
            if i < d.len() {
                assert(d[i] == rs[i]);
            }
        }
    }
}

/// The source column is as wide as the widest site list: every result's
/// comma-joined sites fit in it and some result's fill it. When the
/// terminal leaves more than 20 columns for names, each result's name
/// column, fixed columns and sites together fit in the terminal.
pub proof fn lemma_source_column(rs: Seq<TorrentView>, term_width: nat)
    ensures
        forall|i: int|
            0 <= i < rs.len() ==> byte_len(joined(#[trigger] rs[i].providers)) <= widest(rs),
        rs.len() > 0 ==> exists|i: int|
            0 <= i < rs.len() && widest(rs) == byte_len(joined(#[trigger] rs[i].providers)),
        name_width(rs, term_width) > 20 ==> forall|i: int|
            0 <= i < rs.len() ==> name_width(rs, term_width) + 34 + byte_len(
                joined(#[trigger] rs[i].providers),
            ) <= term_width,
{
    lemma_widest_bound(rs);
    if rs.len() > 0 {
        lemma_widest_is_one(rs);
    }
}

} // verus!
