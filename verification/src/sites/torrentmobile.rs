//! torrentmobile: a search page lists posts as elements of class
//! `media-heading`; a post's title is the trimmed text of its first link, its
//! address that link's `href` resolved against the search address. A post page
//! holds its magnet as the trimmed text of its first element of class
//! `list-group-item en font-14 break-word`.

use vstd::prelude::*;
use crate::DataStatus;
use crate::consts::{NO_MAGNET, TORRENTMOBILE_SEARCH_URL};
use crate::html::{
    HtmlNode, NodeView, Selector, SelectorView, attr, attr_value, doc_view, find_below, find_doc,
    find_in_doc, find_under, opt_view, parse_html, parsed_html, well_formed,
};
use crate::listing::{
    all_some, has_magnet, lemma_all_some_prefix, magnet_listing, ranked, rows_view, sorted_desc,
    with_magnet,
};
use crate::text::{trim, trimmed};

verus! {

/// The address that the `url` crate makes of `link` read against `base`
/// (`Url::parse(base)`, then `Url::join(link)`); `None` where either fails.
pub uninterp spec fn joined_url(base: Seq<char>, link: Seq<char>) -> Option<Seq<char>>;

/// Resolves `link` against `base` with `url::Url::parse` and `url::Url::join`.
/// Claimed: the result is `joined_url(base, link)`: the resolved address as
/// text, or `None` where `base` or the resolution is refused.
#[verifier::external_body]
fn join_url(base: &str, link: &str) -> (r: Option<String>)
    ensures
        opt_view(r) == joined_url(base@, link@),
{
    match url::Url::parse(base) {
        Ok(b) => b.join(link).ok().map(|u| u.as_str().to_owned()),
        Err(_) => None,
    }
}

/// The posts of a search page, in page order.
pub open spec fn posts(doc: Seq<NodeView>) -> Seq<usize> {
    find_in_doc(doc, SelectorView::Attr("class"@, "media-heading"@))
}

/// The row of post `i`: the trimmed text of its first link, and that link's
/// `href` resolved against the search address; `None` where the link, its
/// `href` or the resolution is missing.
pub open spec fn post_row(doc: Seq<NodeView>, i: int) -> Option<(Seq<char>, Seq<char>)> {
    let links = find_under(doc, i, SelectorView::Name("a"@));
    if links.len() == 0 {
        None
    } else {
        let a = doc[links[0] as int];
        match attr_value(a.attrs, "href"@) {
            None => None,
            Some(h) => match joined_url(TORRENTMOBILE_SEARCH_URL@, h) {
                None => None,
                Some(address) => Some((trimmed(a.text), address)),
            },
        }
    }
}

/// The rows of the posts of a search page; `None` if a post lacks its link or
/// its address.
pub open spec fn listing_rows(doc: Seq<NodeView>) -> Option<Seq<(Seq<char>, Seq<char>)>> {
    all_some(posts(doc).map_values(|i: usize| post_row(doc, i as int)))
}

/// The magnet of a post page: the trimmed text of its first magnet element, or
/// `NO MAGNET` without one.
pub open spec fn magnet_text(doc: Seq<NodeView>) -> Seq<char> {
    let items = find_in_doc(doc, SelectorView::Attr("class"@, "list-group-item en font-14 break-word"@));
    if items.len() == 0 {
        NO_MAGNET@
    } else {
        trimmed(doc[items[0] as int].text)
    }
}

fn post_row_of(doc: &Vec<HtmlNode>, i: usize) -> (r: Option<(String, String)>)
    requires
        i < doc@.len(),
        well_formed(doc_view(doc@)),
    ensures
        match r {
            Some(row) => post_row(doc_view(doc@), i as int) == Some((row.0@, row.1@)),
            None => post_row(doc_view(doc@), i as int) is None,
        },
{
    let links = find_below(doc, i, &Selector::Name("a"));
    if links.len() == 0 {
        return None;
    }
    let a = &doc[links[0]];
    assert(doc_view(doc@)[links@[0] as int] == a@);
    match attr(a, "href") {
        None => None,
        Some(h) => match join_url(TORRENTMOBILE_SEARCH_URL, h.as_str()) {
            None => None,
            Some(address) => Some((trim(a.text.as_str()), address)),
        },
    }
}

fn try_rows(doc: &Vec<HtmlNode>) -> (r: Option<Vec<(String, String)>>)
    requires
        well_formed(doc_view(doc@)),
    ensures
        match r {
            Some(v) => listing_rows(doc_view(doc@)) == Some(rows_view(v@)),
            None => listing_rows(doc_view(doc@)) is None,
        },
{
    let found = find_doc(doc, &Selector::Attr("class", "media-heading"));
    let ghost d = doc_view(doc@);
    let ghost items = posts(d).map_values(|i: usize| post_row(d, i as int));
    let mut res: Vec<(String, String)> = Vec::new();
    let n = found.len();
    for k in 0..n
        invariant
            n == found@.len(),
            found@ == posts(d),
            d == doc_view(doc@),
            well_formed(d),
            items == posts(d).map_values(|i: usize| post_row(d, i as int)),
            forall|j: int| 0 <= j < found@.len() ==> #[trigger] found@[j] < doc@.len(),
            all_some(items.take(k as int)) == Some(rows_view(res@)),
    {
        assert(items.take(k + 1).drop_last() =~= items.take(k as int));
        let ghost before = rows_view(res@);
        match post_row_of(doc, found[k]) {
            Some(row) => {
                res.push(row);
                assert(rows_view(res@) =~= before.push((row.0@, row.1@)));
            },
            None => {
                proof {
                    lemma_all_some_prefix(items, k + 1);
                }
                return None;
            },
        }
    }
    assert(items.take(n as int) =~= items);
    Some(res)
}

/// The rows (title, absolute address) of the posts of a search page, in page
/// order.
pub fn rows_of(doc: &Vec<HtmlNode>) -> (r: Vec<(String, String)>)
    requires
        well_formed(doc_view(doc@)),
        listing_rows(doc_view(doc@)) is Some,
    ensures
        Some(rows_view(r@)) == listing_rows(doc_view(doc@)),
{
    try_rows(doc).unwrap()
}

/// The rows (title, absolute address) of the posts of a search page, parsed
/// from its HTML; for a page on which every post has a link whose address
/// resolves.
pub fn get_data(body: &str) -> (r: Vec<(String, String)>)
    requires
        listing_rows(parsed_html(body@)) is Some,
    ensures
        Some(rows_view(r@)) == listing_rows(parsed_html(body@)),
{
    let doc = parse_html(body);
    rows_of(&doc)
}

/// The rows of the posts of a search page, parsed from its HTML; `None` where
/// a post lacks its link, or its address cannot be resolved.
pub fn get_data_checked(body: &str) -> (r: Option<Vec<(String, String)>>)
    ensures
        match r {
            Some(v) => listing_rows(parsed_html(body@)) == Some(rows_view(v@)),
            None => listing_rows(parsed_html(body@)) is None,
        },
{
    let doc = parse_html(body);
    match try_rows(&doc) {
        Some(_) => Some(get_data(body)),
        None => None,
    }
}

/// The magnet of a post page: the trimmed text of its first magnet element,
/// or `NO MAGNET` without one.
pub fn magnet_of(doc: &Vec<HtmlNode>) -> (r: String)
    ensures
        r@ == magnet_text(doc_view(doc@)),
{
    let items = find_doc(doc, &Selector::Attr("class", "list-group-item en font-14 break-word"));
    if items.len() == 0 {
        return NO_MAGNET.to_owned();
    }
    assert(doc_view(doc@)[items@[0] as int] == doc@[items@[0] as int]@);
    trim(doc[items[0]].text.as_str())
}

/// The magnet of a post page, parsed from its HTML.
pub fn get_magnet(body: &str) -> (r: String)
    ensures
        r@ == magnet_text(parsed_html(body@)),
{
    let doc = parse_html(body);
    magnet_of(&doc)
}

/// The listing of a search: the rows (title, magnet) of the posts, in any
/// order, become the rows that carry a magnet, in descending order. A search
/// that found no post is `NotFound`.
pub fn run(results: &Vec<(String, String)>) -> (r: (DataStatus, Vec<(String, String)>))
    ensures
        r.0 == (if results@.len() == 0 {
            DataStatus::NotFound
        } else {
            DataStatus::Found
        }),
        rows_view(r.1@) == ranked(with_magnet(rows_view(results@)).to_multiset()),
        sorted_desc(rows_view(r.1@)),
        forall|i: int|
            0 <= i < r.1@.len() ==> has_magnet(#[trigger] rows_view(r.1@)[i]) && rows_view(
                results@,
            ).contains(rows_view(r.1@)[i]),
{
    magnet_listing(results)
}

} // verus!
