//! ttobogo: a search page lists posts as elements of class `subject`, whose
//! `title` and `href` attributes give the post's title and address. A post page
//! holds its magnet in the `onclick` attribute of its `btn btn-blue` button,
//! as a 40-character info hash.

use vstd::prelude::*;
use crate::DataStatus;
use crate::consts::{MAGNET_PREFIX, NO_MAGNET};
use crate::html::{
    HtmlNode, NodeView, Selector, SelectorView, attr, attr_value, doc_view, find_doc, find_in_doc,
    law_find_in_doc_complete, opt_view, parse_html, parsed_html, well_formed,
};
use crate::listing::{
    all_some, law_all_some, magnet_listing, has_magnet, lemma_all_some_prefix, ranked, rows_view, sorted_desc,
    with_magnet,
};
use crate::text::{chars_of, prefixed_range};

verus! {

/// The row of a post: its `title` and `href` attributes, if it has both.
pub open spec fn post_row(n: NodeView) -> Option<(Seq<char>, Seq<char>)> {
    match (attr_value(n.attrs, "title"@), attr_value(n.attrs, "href"@)) {
        (Some(t), Some(h)) => Some((t, h)),
        _ => None,
    }
}

/// The posts of a search page, in page order.
pub open spec fn posts(doc: Seq<NodeView>) -> Seq<usize> {
    find_in_doc(doc, SelectorView::Attr("class"@, "subject"@))
}

/// The rows of the posts of a search page; `None` if a post lacks its title
/// or its address.
pub open spec fn listing_rows(doc: Seq<NodeView>) -> Option<Seq<(Seq<char>, Seq<char>)>> {
    all_some(posts(doc).map_values(|i: usize| post_row(doc[i as int])))
}

/// The characters an info hash is written with: digits and lower-case letters.
pub open spec fn is_hash_char(c: char) -> bool {
    ('0' <= c && c <= '9') || ('a' <= c && c <= 'z')
}

/// Whether 40 hash characters start at `p`.
pub open spec fn hash_run_at(s: Seq<char>, p: int) -> bool {
    0 <= p && p + 40 <= s.len() && forall|k: int| p <= k < p + 40 ==> is_hash_char(#[trigger] s[k])
}

/// The leftmost position from `p` on where 40 hash characters start.
pub open spec fn first_hash(s: Seq<char>, p: int) -> Option<int>
    decreases s.len() - p,
{
    if p < 0 || p + 40 > s.len() {
        None
    } else if hash_run_at(s, p) {
        Some(p)
    } else {
        first_hash(s, p + 1)
    }
}

/// Where `first_hash` finds a position, 40 hash characters start there.
pub proof fn lemma_first_hash(s: Seq<char>, p: int)
    ensures
        first_hash(s, p) matches Some(q) ==> p <= q && hash_run_at(s, q),
    decreases s.len() - p,
{
    if 0 <= p && p + 40 <= s.len() && !hash_run_at(s, p) {
        lemma_first_hash(s, p + 1);
    }
}

/// The magnet of a post page: `NO MAGNET` without a magnet button; the magnet
/// link of the first info hash of the button's `onclick` otherwise; `None`
/// where the button has no `onclick`, or one without an info hash.
pub open spec fn magnet_link(doc: Seq<NodeView>) -> Option<Seq<char>> {
    let buttons = find_in_doc(doc, SelectorView::Attr("class"@, "btn btn-blue"@));
    if buttons.len() == 0 {
        Some(NO_MAGNET@)
    } else {
        match attr_value(doc[buttons[0] as int].attrs, "onclick"@) {
            None => None,
            Some(handler) => match first_hash(handler, 0) {
                None => None,
                Some(p) => Some(MAGNET_PREFIX@ + handler.subrange(p, p + 40)),
            },
        }
    }
}

/// The row of a post node.
fn post_row_of(node: &HtmlNode) -> (r: Option<(String, String)>)
    ensures
        match r {
            Some(row) => post_row(node@) == Some((row.0@, row.1@)),
            None => post_row(node@) is None,
        },
{
    match (attr(node, "title"), attr(node, "href")) {
        (Some(t), Some(h)) => Some((t, h)),
        _ => None,
    }
}

fn try_rows(doc: &Vec<HtmlNode>) -> (r: Option<Vec<(String, String)>>)
    ensures
        match r {
            Some(v) => listing_rows(doc_view(doc@)) == Some(rows_view(v@)),
            None => listing_rows(doc_view(doc@)) is None,
        },
{
    let found = find_doc(doc, &Selector::Attr("class", "subject"));
    let ghost d = doc_view(doc@);
    let ghost items = posts(d).map_values(|i: usize| post_row(d[i as int]));
    let mut res: Vec<(String, String)> = Vec::new();
    let n = found.len();
    for k in 0..n
        invariant
            n == found@.len(),
            found@ == posts(d),
            d == doc_view(doc@),
            items == posts(d).map_values(|i: usize| post_row(d[i as int])),
            forall|j: int| 0 <= j < found@.len() ==> #[trigger] found@[j] < doc@.len(),
            all_some(items.take(k as int)) == Some(rows_view(res@)),
    {
        assert(items.take(k + 1).drop_last() =~= items.take(k as int));
        assert(d[found@[k as int] as int] == doc@[found@[k as int] as int]@);
        let ghost before = rows_view(res@);
        match post_row_of(&doc[found[k]]) {
            Some(row) => {
                res.push(row);
                assert(rows_view(res@) =~= before.push((row.0@, row.1@)));
            },
            None => {
                proof {
                    lemma_all_some_prefix(items, k + 1);
                }
                return None;
            },
        }
    }
    assert(items.take(n as int) =~= items);
    Some(res)
}

/// The rows (title, address) of the posts of a search page, in page order.
pub fn rows_of(doc: &Vec<HtmlNode>) -> (r: Vec<(String, String)>)
    requires
        listing_rows(doc_view(doc@)) is Some,
    ensures
        Some(rows_view(r@)) == listing_rows(doc_view(doc@)),
{
    try_rows(doc).unwrap()
}

/// The rows (title, address) of the posts of a search page, parsed from its
/// HTML; for a page on which every post has them.
pub fn get_data(body: &str) -> (r: Vec<(String, String)>)
    requires
        listing_rows(parsed_html(body@)) is Some,
    ensures
        Some(rows_view(r@)) == listing_rows(parsed_html(body@)),
{
    let doc = parse_html(body);
    rows_of(&doc)
}

/// The rows of the posts of a search page, parsed from its HTML; `None` where
/// a post lacks its title or its address.
pub fn get_data_checked(body: &str) -> (r: Option<Vec<(String, String)>>)
    ensures
        match r {
            Some(v) => listing_rows(parsed_html(body@)) == Some(rows_view(v@)),
            None => listing_rows(parsed_html(body@)) is None,
        },
{
    let doc = parse_html(body);
    match try_rows(&doc) {
        Some(_) => Some(get_data(body)),
        None => None,
    }
}

/// The leftmost position where 40 hash characters start.
fn find_hash(s: &Vec<char>) -> (r: Option<usize>)
    ensures
        match r {
            Some(p) => first_hash(s@, 0) == Some(p as int),
            None => first_hash(s@, 0) is None,
        },
{
    let n = s.len();
    let mut p: usize = 0;
    while n >= 40 && p <= n - 40
        invariant
            n == s@.len(),
            first_hash(s@, 0) == first_hash(s@, p as int),
        decreases n - p,
    {
        let mut k: usize = 0;
        let mut run = true;
        while k < 40
            invariant
                p + 40 <= n == s@.len(),
                k <= 40,
                run ==> forall|j: int| p <= j < p + k ==> is_hash_char(#[trigger] s@[j]),
                !run ==> !hash_run_at(s@, p as int),
            decreases 40 - k,
        {
            let c = s[p + k];
            if !(('0' <= c && c <= '9') || ('a' <= c && c <= 'z')) {
                assert(!is_hash_char(s@[p + k]));
                run = false;
            }
            k = k + 1;
        }
        if run {
            return Some(p);
        }
        p = p + 1;
    }
    None
}

fn try_magnet(doc: &Vec<HtmlNode>) -> (r: Option<String>)
    ensures
        opt_view(r) == magnet_link(doc_view(doc@)),
{
    let buttons = find_doc(doc, &Selector::Attr("class", "btn btn-blue"));
    if buttons.len() == 0 {
        return Some(NO_MAGNET.to_owned());
    }
    assert(doc_view(doc@)[buttons@[0] as int] == doc@[buttons@[0] as int]@);
    match attr(&doc[buttons[0]], "onclick") {
        None => None,
        Some(handler) => {
            let chars = chars_of(handler.as_str());
            match find_hash(&chars) {
                None => None,
                Some(p) => {
                    proof {
                        lemma_first_hash(chars@, 0);
                    }
                    Some(prefixed_range(MAGNET_PREFIX, &chars, p, p + 40))
                },
            }
        },
    }
}

/// The magnet of a post page: `NO MAGNET` without a magnet button, else the
/// magnet link of the info hash in the button's `onclick`.
pub fn magnet_of(doc: &Vec<HtmlNode>) -> (r: String)
    requires
        magnet_link(doc_view(doc@)) is Some,
    ensures
        Some(r@) == magnet_link(doc_view(doc@)),
{
    try_magnet(doc).unwrap()
}

/// The magnet of a post page, parsed from its HTML; for a page on which
/// a magnet button, if there is one, has an `onclick` with an info hash.
pub fn get_magnet(body: &str) -> (r: String)
    requires
        magnet_link(parsed_html(body@)) is Some,
    ensures
        Some(r@) == magnet_link(parsed_html(body@)),
{
    let doc = parse_html(body);
    magnet_of(&doc)
}

/// The magnet of a post page, parsed from its HTML; `None` where
/// the magnet button has no `onclick`, or one without an info hash.
pub fn get_magnet_checked(body: &str) -> (r: Option<String>)
    ensures
        opt_view(r) == magnet_link(parsed_html(body@)),
{
    let doc = parse_html(body);
    match try_magnet(&doc) {
        Some(_) => Some(get_magnet(body)),
        None => None,
    }
}

/// The listing of a search: the rows (title, magnet) of the posts, in any
/// order, become the rows that carry a magnet, in descending order. A search
/// that found no post is `NotFound`.
pub fn run(results: &Vec<(String, String)>) -> (r: (DataStatus, Vec<(String, String)>))
    ensures
        r.0 == (if results@.len() == 0 {
            DataStatus::NotFound
        } else {
            DataStatus::Found
        }),
        rows_view(r.1@) == ranked(with_magnet(rows_view(results@)).to_multiset()),
        sorted_desc(rows_view(r.1@)),
        forall|i: int|
            0 <= i < r.1@.len() ==> has_magnet(#[trigger] rows_view(r.1@)[i]) && rows_view(
                results@,
            ).contains(rows_view(r.1@)[i]),
{
    magnet_listing(results)
}

/// A magnet link as the post page gives it: the magnet prefix, then 40 hash
/// characters.
pub open spec fn is_page_magnet(m: Seq<char>) -> bool {
    let n = MAGNET_PREFIX@.len();
    &&& m.len() == n + 40
    &&& m.subrange(0, n as int) == MAGNET_PREFIX@
    &&& forall|k: int| n <= k < n + 40 ==> is_hash_char(#[trigger] m[k])
}

/// The magnet of a post page is `NO MAGNET`, or the magnet prefix followed by
/// 40 hash characters.
pub proof fn law_magnet_is_link_or_absent(doc: Seq<NodeView>)
    ensures
        magnet_link(doc) matches Some(m) ==> m == NO_MAGNET@ || is_page_magnet(m),
{
    let buttons = find_in_doc(doc, SelectorView::Attr("class"@, "btn btn-blue"@));
    if buttons.len() > 0 {
        if let Some(handler) = attr_value(doc[buttons[0] as int].attrs, "onclick"@) {
            lemma_first_hash(handler, 0);
            if let Some(p) = first_hash(handler, 0) {
                let m = MAGNET_PREFIX@ + handler.subrange(p, p + 40);
                let n = MAGNET_PREFIX@.len();
                assert(m.subrange(0, n as int) =~= MAGNET_PREFIX@);
                assert forall|k: int| n <= k < n + 40 implies is_hash_char(#[trigger] m[k]) by {
                    assert(m[k] == handler[p + (k - n)]);
                }
            }
        }
    }
}

/// Every post of a search page gives its row: each element of class `subject`
/// of the page, wherever it stands, has its (title, address) in the listing.
pub proof fn law_every_post_gives_a_row(doc: Seq<NodeView>, i: int)
    requires
        doc.len() <= usize::MAX,
        0 <= i < doc.len(),
        attr_value(doc[i].attrs, "class"@) == Some("subject"@),
        listing_rows(doc) is Some,
    ensures
        attr_value(doc[i].attrs, "title"@) is Some,
        attr_value(doc[i].attrs, "href"@) is Some,
        listing_rows(doc)->0.contains(
            (attr_value(doc[i].attrs, "title"@)->0, attr_value(doc[i].attrs, "href"@)->0),
        ),
{
    law_find_in_doc_complete(doc, SelectorView::Attr("class"@, "subject"@));
    let f = posts(doc);
    assert(f.contains(i as usize));
    let k = choose|k: int| 0 <= k < f.len() && f[k] == i as usize;
    let items = f.map_values(|j: usize| post_row(doc[j as int]));
    law_all_some(items);
    let r = listing_rows(doc)->0;
    assert(items[k] == post_row(doc[i]));
    assert(items[k] == Some(r[k]));
}

} // verus!
