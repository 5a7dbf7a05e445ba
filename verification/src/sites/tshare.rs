//! tshare: a search page lists posts as elements of class `list-item-row`;
//! a post's title is the text of the first `p` in its `matter` element, its
//! address the `href` of its first link. A post page holds its magnet as the
//! `href` of the first link in its second table cell.

use vstd::prelude::*;
use crate::html::{
    HtmlNode, NodeView, Selector, SelectorView, attr, attr_value, doc_view, find_below, find_doc,
    find_in_doc, find_under, law_find_in_doc_complete, law_first_match, opt_view, parse_html, parsed_html, selects,
    well_formed,
};
use crate::listing::{all_some, lemma_all_some_prefix, rank_rows, ranked, rows_view, sorted_desc};

verus! {

/// The posts of a search page, in page order.
pub open spec fn posts(doc: Seq<NodeView>) -> Seq<usize> {
    find_in_doc(doc, SelectorView::Attr("class"@, "list-item-row"@))
}

/// The row of post `i`: the text of the first `p` of its first `matter`
/// element, and the `href` of its first link; `None` where one is missing.
pub open spec fn post_row(doc: Seq<NodeView>, i: int) -> Option<(Seq<char>, Seq<char>)> {
    let matter = find_under(doc, i, SelectorView::Attr("class"@, "matter"@));
    let links = find_under(doc, i, SelectorView::Name("a"@));
    if matter.len() == 0 {
        None
    } else {
        let paragraphs = find_under(doc, matter[0] as int, SelectorView::Name("p"@));
        if paragraphs.len() == 0 || links.len() == 0 {
            None
        } else {
            match attr_value(doc[links[0] as int].attrs, "href"@) {
                Some(h) => Some((doc[paragraphs[0] as int].text, h)),
                None => None,
            }
        }
    }
}

/// The rows of the posts of a search page; `None` if a post lacks its title
/// or its address.
pub open spec fn listing_rows(doc: Seq<NodeView>) -> Option<Seq<(Seq<char>, Seq<char>)>> {
    all_some(posts(doc).map_values(|i: usize| post_row(doc, i as int)))
}

/// The magnet of a post page: the `href` of the first link in the second table
/// cell; `None` where there is no such cell, link or `href`.
pub open spec fn magnet_link(doc: Seq<NodeView>) -> Option<Seq<char>> {
    let cells = find_in_doc(doc, SelectorView::Name("td"@));
    if cells.len() < 2 {
        None
    } else {
        let links = find_under(doc, cells[1] as int, SelectorView::Name("a"@));
        if links.len() == 0 {
            None
        } else {
            attr_value(doc[links[0] as int].attrs, "href"@)
        }
    }
}

fn post_row_of(doc: &Vec<HtmlNode>, i: usize) -> (r: Option<(String, String)>)
    requires
        i < doc@.len(),
        well_formed(doc_view(doc@)),
    ensures
        match r {
            Some(row) => post_row(doc_view(doc@), i as int) == Some((row.0@, row.1@)),
            None => post_row(doc_view(doc@), i as int) is None,
        },
{
    let matter = find_below(doc, i, &Selector::Attr("class", "matter"));
    let links = find_below(doc, i, &Selector::Name("a"));
    if matter.len() == 0 {
        return None;
    }
    let paragraphs = find_below(doc, matter[0], &Selector::Name("p"));
    if paragraphs.len() == 0 || links.len() == 0 {
        return None;
    }
    assert(doc_view(doc@)[links@[0] as int] == doc@[links@[0] as int]@);
    assert(doc_view(doc@)[paragraphs@[0] as int] == doc@[paragraphs@[0] as int]@);
    match attr(&doc[links[0]], "href") {
        Some(h) => Some((doc[paragraphs[0]].text.clone(), h)),
        None => None,
    }
}

fn try_rows(doc: &Vec<HtmlNode>) -> (r: Option<Vec<(String, String)>>)
    requires
        well_formed(doc_view(doc@)),
    ensures
        match r {
            Some(v) => listing_rows(doc_view(doc@)) == Some(rows_view(v@)),
            None => listing_rows(doc_view(doc@)) is None,
        },
{
    let found = find_doc(doc, &Selector::Attr("class", "list-item-row"));
    let ghost d = doc_view(doc@);
    let ghost items = posts(d).map_values(|i: usize| post_row(d, i as int));
    let mut res: Vec<(String, String)> = Vec::new();
    let n = found.len();
    for k in 0..n
        invariant
            n == found@.len(),
            found@ == posts(d),
            d == doc_view(doc@),
            well_formed(d),
            items == posts(d).map_values(|i: usize| post_row(d, i as int)),
            forall|j: int| 0 <= j < found@.len() ==> #[trigger] found@[j] < doc@.len(),
            all_some(items.take(k as int)) == Some(rows_view(res@)),
    {
        assert(items.take(k + 1).drop_last() =~= items.take(k as int));
        let ghost before = rows_view(res@);
        match post_row_of(doc, found[k]) {
            Some(row) => {
                res.push(row);
                assert(rows_view(res@) =~= before.push((row.0@, row.1@)));
            },
            None => {
                proof {
                    lemma_all_some_prefix(items, k + 1);
                }
                return None;
            },
        }
    }
    assert(items.take(n as int) =~= items);
    Some(res)
}

/// The rows (title, address) of the posts of a search page, in page order.
pub fn rows_of(doc: &Vec<HtmlNode>) -> (r: Vec<(String, String)>)
    requires
        well_formed(doc_view(doc@)),
        listing_rows(doc_view(doc@)) is Some,
    ensures
        Some(rows_view(r@)) == listing_rows(doc_view(doc@)),
{
    try_rows(doc).unwrap()
}

/// The rows (title, address) of the posts of a search page, parsed from its
/// HTML; for a page on which every post has them.
pub fn get_data(body: &str) -> (r: Vec<(String, String)>)
    requires
        listing_rows(parsed_html(body@)) is Some,
    ensures
        Some(rows_view(r@)) == listing_rows(parsed_html(body@)),
{
    let doc = parse_html(body);
    rows_of(&doc)
}

/// The rows of the posts of a search page, parsed from its HTML; `None` where
/// a post lacks its title or its address.
pub fn get_data_checked(body: &str) -> (r: Option<Vec<(String, String)>>)
    ensures
        match r {
            Some(v) => listing_rows(parsed_html(body@)) == Some(rows_view(v@)),
            None => listing_rows(parsed_html(body@)) is None,
        },
{
    let doc = parse_html(body);
    match try_rows(&doc) {
        Some(_) => Some(get_data(body)),
        None => None,
    }
}

fn try_magnet(doc: &Vec<HtmlNode>) -> (r: Option<String>)
    requires
        well_formed(doc_view(doc@)),
    ensures
        opt_view(r) == magnet_link(doc_view(doc@)),
{
    let cells = find_doc(doc, &Selector::Name("td"));
    if cells.len() < 2 {
        return None;
    }
    let links = find_below(doc, cells[1], &Selector::Name("a"));
    if links.len() == 0 {
        return None;
    }
    assert(doc_view(doc@)[links@[0] as int] == doc@[links@[0] as int]@);
    attr(&doc[links[0]], "href")
}

/// The magnet of a post page: the `href` of the first link in its second
/// table cell.
pub fn magnet_of(doc: &Vec<HtmlNode>) -> (r: String)
    requires
        well_formed(doc_view(doc@)),
        magnet_link(doc_view(doc@)) is Some,
    ensures
        Some(r@) == magnet_link(doc_view(doc@)),
{
    try_magnet(doc).unwrap()
}

/// The magnet of a post page, parsed from its HTML; for a page on which
/// the second table cell has a link with an `href`.
pub fn get_magnet(body: &str) -> (r: String)
    requires
        magnet_link(parsed_html(body@)) is Some,
    ensures
        Some(r@) == magnet_link(parsed_html(body@)),
{
    let doc = parse_html(body);
    magnet_of(&doc)
}

/// The magnet of a post page, parsed from its HTML; `None` where
/// the page has no second table cell, or that cell no link with an `href`.
pub fn get_magnet_checked(body: &str) -> (r: Option<String>)
    ensures
        opt_view(r) == magnet_link(parsed_html(body@)),
{
    let doc = parse_html(body);
    match try_magnet(&doc) {
        Some(_) => Some(get_magnet(body)),
        None => None,
    }
}

/// The listing of a search: its rows (title, magnet), which may come in any
/// order, in descending order.
pub fn run(results: &Vec<(String, String)>) -> (r: Vec<(String, String)>)
    ensures
        rows_view(r@) == ranked(rows_view(results@).to_multiset()),
        sorted_desc(rows_view(r@)),
        rows_view(r@).to_multiset() == rows_view(results@).to_multiset(),
{
    rank_rows(results)
}

/// The magnet of a post page comes from its second table cell: where cell `c`
/// is the one table cell with exactly one table cell before it, and `l` is the
/// first link under `c`, the magnet is `l`'s `href`, whatever else the page holds.
pub proof fn law_magnet_from_second_cell(doc: Seq<NodeView>, c: int, j: int, k: int)
    requires
        doc.len() <= usize::MAX,
        0 <= j < c < doc.len(),
        doc[c].name == Some("td"@),
        doc[j].name == Some("td"@),
        forall|x: int| 0 <= x < c && #[trigger] doc[x].name == Some("td"@) ==> x == j,
        0 <= k < doc[c].descendants.len(),
        doc[doc[c].descendants[k] as int].name == Some("a"@),
        forall|y: int|
            0 <= y < k ==> doc[#[trigger] doc[c].descendants[y] as int].name != Some("a"@),
    ensures
        magnet_link(doc) == attr_value(doc[doc[c].descendants[k] as int].attrs, "href"@),
{
    let td = SelectorView::Name("td"@);
    law_find_in_doc_complete(doc, td);
    let cells = find_in_doc(doc, td);
    assert(selects(td, doc[c]));
    assert(selects(td, doc[j]));
    assert(cells.contains(c as usize));
    assert(cells.contains(j as usize));
    let p = choose|p: int| 0 <= p < cells.len() && cells[p] == c as usize;
    let q = choose|q: int| 0 <= q < cells.len() && cells[q] == j as usize;
    if q > p {
        assert(cells[p] < cells[q]);
    }
    assert(q < p);
    if p > 1 {
        assert(cells[0] < cells[1]);
        assert(cells[1] < cells[p]);
        assert(doc[cells[0] as int].name == Some("td"@));
        assert(doc[cells[1] as int].name == Some("td"@));
    }
    if q > 0 {
        assert(cells[0] < cells[q]);
        assert(doc[cells[0] as int].name == Some("td"@));
    }
    assert(p == 1);
    law_first_match(doc, doc[c].descendants, SelectorView::Name("a"@), k);
}

} // verus!
