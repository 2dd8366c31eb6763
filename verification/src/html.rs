//! Result tables of HTML pages: the cells of each row, with their text and
//! links. The HTML parsing and CSS matching are the `scraper` crate's.

use vstd::prelude::*;
use vstd::string::*;
use crate::text::starts_with;

verus! {

/// A link in a table cell: its text and its `href`, if it has one.
pub struct HtmlLink {
    pub text: String,
    pub href: Option<String>,
}

/// A table cell: all of its text, and its links in document order.
pub struct HtmlCell {
    pub text: String,
    pub links: Vec<HtmlLink>,
}

/// A link as plain values: its text and its `href`.
pub open spec fn link_view(l: HtmlLink) -> (Seq<char>, Option<Seq<char>>) {
    (
        l.text@,
        match l.href {
            Some(h) => Some(h@),
            None => None,
        },
    )
}

/// A cell as plain values: its text and its links.
pub open spec fn cell_view(c: HtmlCell) -> (Seq<char>, Seq<(Seq<char>, Option<Seq<char>>)>) {
    (c.text@, c.links@.map_values(|l: HtmlLink| link_view(l)))
}

/// Rows of cells as plain values.
pub open spec fn rows_view(rows: Seq<Vec<HtmlCell>>) -> Seq<
    Seq<(Seq<char>, Seq<(Seq<char>, Option<Seq<char>>)>)>,
> {
    rows.map_values(|row: Vec<HtmlCell>| row@.map_values(|c: HtmlCell| cell_view(c)))
}

/// Names whether `scraper::Selector::parse` accepts a CSS selector text.
pub uninterp spec fn selector_accepted(css: Seq<char>) -> bool;

/// The selector texts this library reads pages with: type selectors, and a
/// type selector with a class, joined by descendant combinators.
pub open spec fn listed_selector(css: Seq<char>) -> bool {
    ||| css == "td"@
    ||| css == "a"@
    ||| css == "tbody tr"@
    ||| css == "tbody tr.forum_header_border"@
}

/// Names the table that `scraper` reads from a page: the elements of the
/// parsed `html` that have a parent and match `row_css`, in the order in
/// which the parser created them (the order `Html::select` walks the tree);
/// each row as its descendants matching `cell_css`, in tree order; each
/// cell as its text and its descendants matching `link_css`, in tree order,
/// as (text, `href`).
pub uninterp spec fn page_rows(
    html: Seq<char>,
    row_css: Seq<char>,
    cell_css: Seq<char>,
    link_css: Seq<char>,
) -> Seq<Seq<(Seq<char>, Seq<(Seq<char>, Option<Seq<char>>)>)>>;

/// Calls `scraper::Selector::parse` on the three selector texts,
/// `scraper::Html::parse_document` on `html`, then `Html::select`,
/// `ElementRef::select`, `ElementRef::text` and `ElementRef::attr` to read
/// the table. The contract claims that it gives `None` exactly when one of
/// the three selectors is refused, that the listed selector texts are
/// accepted, and otherwise the table named by `page_rows`, which depends on
/// the four texts alone; neither which other selectors are refused nor how a
/// page is parsed is written out.
#[verifier::external_body]
fn page_table(html: &str, row_css: &str, cell_css: &str, link_css: &str) -> (r: Option<
    Vec<Vec<HtmlCell>>,
>)
    ensures
        r is Some <==> (selector_accepted(row_css@) && selector_accepted(cell_css@)
            && selector_accepted(link_css@)),
        listed_selector(row_css@) && listed_selector(cell_css@) && listed_selector(link_css@)
            ==> r is Some,
        r matches Some(v) ==> rows_view(v@) == page_rows(html@, row_css@, cell_css@, link_css@),
{
    let sel = |css: &str| scraper::Selector::parse(css).ok();
    let (rows, cells, links) = (sel(row_css)?, sel(cell_css)?, sel(link_css)?);
    let text = |e: scraper::ElementRef| e.text().collect::<String>();
    let doc = scraper::Html::parse_document(html);
    Some(doc.select(&rows).map(|row| row.select(&cells).map(|c| HtmlCell {
        text: text(c),
        links: c.select(&links).map(|l| HtmlLink { text: text(l), href: l.attr("href").map(String::from) }).collect(),
    }).collect()).collect())
}

/// The rows of an HTML page that match the CSS selector `row_css`, each as
/// the list of its `td` cells, each cell with its `a` links.
pub(crate) fn table_rows(html: &str, row_css: &str) -> (r: Vec<Vec<HtmlCell>>)
    requires
        listed_selector(row_css@),
    ensures
        rows_view(r@) == page_rows(html@, row_css@, "td"@, "a"@),
{
    match page_table(html, row_css, "td", "a") {
        Some(v) => v,
        None => Vec::new(),
    }
}

/// The `href` of the first link whose `href` starts with `magnet:`
/// (empty when there is none).
pub open spec fn first_magnet(links: Seq<HtmlLink>) -> Seq<char>
    decreases links.len(),
{
    if links.len() == 0 {
        Seq::empty()
    } else {
        match links[0].href {
            Some(h) => if "magnet:"@.is_prefix_of(h@) {
                h@
            } else {
                first_magnet(links.drop_first())
            },
            None => first_magnet(links.drop_first()),
        }
    }
}

/// The first magnet link among `links`.
pub fn find_magnet(links: &Vec<HtmlLink>) -> (r: String)
    ensures
        r@ == first_magnet(links@),
{
    let mut i: usize = 0;
    assert(links@.skip(0) =~= links@);
    while i < links.len()
        invariant
            i <= links@.len(),
            first_magnet(links@) == first_magnet(links@.skip(i as int)),
        decreases links@.len() - i,
    {
        assert(links@.skip(i as int)[0] == links@[i as int]);
        assert(links@.skip(i as int).drop_first() =~= links@.skip(i + 1));
        match &links[i].href {
            Some(h) => {
                if starts_with(h.as_str(), "magnet:") {
                    return String::from_str(h.as_str());
                }
            },
            None => {},
        }
        i = i + 1;
    }
    assert(links@.skip(i as int) =~= Seq::<HtmlLink>::empty());
    String::new()
}

/// Whether a link's `href` is a magnet link.
pub open spec fn is_magnet_link(l: HtmlLink) -> bool {
    l.href matches Some(h) && "magnet:"@.is_prefix_of(h@)
}

/// The magnet link of a cell is the `href` of its first link that is a
/// magnet link, whatever links follow; it is empty when no link is one.
pub proof fn lemma_first_magnet(links: Seq<HtmlLink>)
    ensures
        forall|k: int|
            0 <= k < links.len() && is_magnet_link(#[trigger] links[k]) && (forall|j: int|
                0 <= j < k ==> !is_magnet_link(links[j])) ==> first_magnet(links)
                == links[k].href.unwrap()@,
        (forall|j: int| 0 <= j < links.len() ==> !is_magnet_link(#[trigger] links[j]))
            ==> first_magnet(links) == Seq::<char>::empty(),
    decreases links.len(),
{
    if links.len() > 0 {
        let rest = links.drop_first();
        lemma_first_magnet(rest);
        assert forall|k: int|
            0 <= k < links.len() && is_magnet_link(#[trigger] links[k]) && (forall|j: int|
                0 <= j < k ==> !is_magnet_link(links[j])) implies first_magnet(links)
            == links[k].href.unwrap()@ by {
            if k > 0 {
                assert(!is_magnet_link(links[0]));
                assert(rest[k - 1] == links[k]);
                assert forall|j: int| 0 <= j < k - 1 implies !is_magnet_link(rest[j]) by {
                    assert(rest[j] == links[j + 1]);
                }
            }
        }
        if forall|j: int| 0 <= j < links.len() ==> !is_magnet_link(#[trigger] links[j]) {
            assert(!is_magnet_link(links[0]));
            assert forall|j: int| 0 <= j < rest.len() implies !is_magnet_link(#[trigger] rest[j]) by {
                assert(rest[j] == links[j + 1]);
            }
        }
    }
}

} // verus!
