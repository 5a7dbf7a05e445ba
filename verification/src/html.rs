//! An HTML document as the sites' pages give it: the nodes that the parser
//! produced, in document order, each with what the extraction reads of it.
//! Searching a document by element name or attribute value is verified here;
//! the parsing itself is done by the `select` crate.

use vstd::prelude::*;
use select::document::Document;
use select::node::Node;
use crate::listing::rows_view;
use crate::text::same_text;

verus! {

/// One node of a parsed document.
pub struct HtmlNode {
    /// The element's local name; `None` for text and comment nodes.
    pub name: Option<String>,
    /// The element's attributes (local name, value), in document order.
    pub attrs: Vec<(String, String)>,
    /// The text of the node and of all the nodes under it, in document order.
    pub text: String,
    /// The indices of the nodes under this one, in document order.
    pub descendants: Vec<usize>,
}

/// What a node holds, as characters and indices.
pub struct NodeView {
    pub name: Option<Seq<char>>,
    pub attrs: Seq<(Seq<char>, Seq<char>)>,
    pub text: Seq<char>,
    pub descendants: Seq<usize>,
}

/// The characters of an optional string.
pub open spec fn opt_view(o: Option<String>) -> Option<Seq<char>> {
    match o {
        Some(s) => Some(s@),
        None => None,
    }
}

impl View for HtmlNode {
    type V = NodeView;

    open spec fn view(&self) -> NodeView {
        NodeView {
            name: opt_view(self.name),
            attrs: rows_view(self.attrs@),
            text: self.text@,
            descendants: self.descendants@,
        }
    }
}

/// The views of the nodes of a document.
pub open spec fn doc_view(doc: Seq<HtmlNode>) -> Seq<NodeView> {
    doc.map_values(|n: HtmlNode| n@)
}

/// Every index that a node lists among its descendants is a node of the document.
pub open spec fn well_formed(doc: Seq<NodeView>) -> bool {
    forall|i: int, k: int|
        0 <= i < doc.len() && 0 <= k < doc[i].descendants.len() ==> #[trigger] doc[i].descendants[k]
            < doc.len()
}

/// The document that the HTML parser of the `select` crate makes of `html`.
pub uninterp spec fn parsed_html(html: Seq<char>) -> Seq<NodeView>;

/// Parses `html` with `select::document::Document::from` and reads each node
/// with `Node::name`, `Node::attrs`, `Node::text` and `Node::descendants`.
/// Claimed: the result is the document `parsed_html(html)`, and the
/// descendants of a node are nodes of the same document (they are found
/// through `Node::new`, which refuses an index past the last node).
/// Not claimed: anything of how the parser builds the tree.
#[verifier::external_body]
pub(crate) fn parse_html(html: &str) -> (doc: Vec<HtmlNode>)
    ensures
        doc_view(doc@) == parsed_html(html@),
        well_formed(doc_view(doc@)),
{
    let d = Document::from(html);
    (0..d.nodes.len()).map(|i| {
        let n = Node::new(&d, i).unwrap();
        HtmlNode {
            name: n.name().map(|s| s.to_string()),
            attrs: n.attrs().map(|(k, v)| (k.to_string(), v.to_string())).collect(),
            text: n.text(),
            descendants: n.descendants().map(|d| d.index()).collect(),
        }
    }).collect()
}

/// The value of the first attribute named `key`, as `Node::attr` finds it.
pub open spec fn attr_value(attrs: Seq<(Seq<char>, Seq<char>)>, key: Seq<char>) -> Option<
    Seq<char>,
>
    decreases attrs.len(),
{
    if attrs.len() == 0 {
        None
    } else if attrs[0].0 == key {
        Some(attrs[0].1)
    } else {
        attr_value(attrs.drop_first(), key)
    }
}

/// Which nodes a search picks: elements of a name, or elements whose attribute
/// has a value.
pub enum Selector<'a> {
    Name(&'a str),
    Attr(&'a str, &'a str),
}

pub enum SelectorView {
    Name(Seq<char>),
    Attr(Seq<char>, Seq<char>),
}

impl<'a> View for Selector<'a> {
    type V = SelectorView;

    open spec fn view(&self) -> SelectorView {
        match *self {
            Selector::Name(n) => SelectorView::Name(n@),
            Selector::Attr(k, v) => SelectorView::Attr(k@, v@),
        }
    }
}

/// Whether `sel` picks node `n`.
pub open spec fn selects(sel: SelectorView, n: NodeView) -> bool {
    match sel {
        SelectorView::Name(name) => n.name == Some(name),
        SelectorView::Attr(key, value) => attr_value(n.attrs, key) == Some(value),
    }
}

/// The candidates, in their order, that `sel` picks.
pub open spec fn matching(doc: Seq<NodeView>, cands: Seq<usize>, sel: SelectorView) -> Seq<usize>
    decreases cands.len(),
{
    if cands.len() == 0 {
        cands
    } else {
        let rest = matching(doc, cands.drop_last(), sel);
        if selects(sel, doc[cands.last() as int]) {
            rest.push(cands.last())
        } else {
            rest
        }
    }
}

/// The indices of all nodes of a document, in document order.
pub open spec fn all_nodes(len: nat) -> Seq<usize> {
    Seq::new(len, |i: int| i as usize)
}

/// The nodes of the document that `sel` picks, in document order.
pub open spec fn find_in_doc(doc: Seq<NodeView>, sel: SelectorView) -> Seq<usize> {
    matching(doc, all_nodes(doc.len()), sel)
}

/// The nodes under node `i` that `sel` picks, in document order.
pub open spec fn find_under(doc: Seq<NodeView>, i: int, sel: SelectorView) -> Seq<usize> {
    matching(doc, doc[i].descendants, sel)
}

/// The first of a sequence of indices, if any.
pub open spec fn first_of(s: Seq<usize>) -> Option<usize> {
    if s.len() > 0 {
        Some(s[0])
    } else {
        None
    }
}

/// The value of attribute `key` of `node`.
pub fn attr(node: &HtmlNode, key: &str) -> (r: Option<String>)
    ensures
        opt_view(r) == attr_value(node@.attrs, key@),
{
    let n = node.attrs.len();
    let mut i: usize = 0;
    assert(rows_view(node.attrs@).skip(0) =~= rows_view(node.attrs@));
    while i < n
        invariant
            n == node.attrs@.len(),
            i <= n,
            attr_value(node@.attrs, key@) == attr_value(node@.attrs.skip(i as int), key@),
        decreases n - i,
    {
        assert(node@.attrs.skip(i as int).drop_first() =~= node@.attrs.skip(i + 1));
        assert(node@.attrs.skip(i as int)[0] == node@.attrs[i as int]);
        if same_text(node.attrs[i].0.as_str(), key) {
            return Some(node.attrs[i].1.clone());
        }
        i = i + 1;
    }
    None
}

/// Whether `sel` picks `node`.
pub fn picks(sel: &Selector, node: &HtmlNode) -> (r: bool)
    ensures
        r == selects(sel@, node@),
{
    match sel {
        Selector::Name(name) => match &node.name {
            Some(n) => same_text(n.as_str(), name),
            None => false,
        },
        Selector::Attr(key, value) => match attr(node, key) {
            Some(v) => same_text(v.as_str(), value),
            None => false,
        },
    }
}

/// The candidates, in their order, that `sel` picks.
pub fn find_among(doc: &Vec<HtmlNode>, cands: &Vec<usize>, sel: &Selector) -> (r: Vec<usize>)
    requires
        forall|k: int| 0 <= k < cands@.len() ==> #[trigger] cands@[k] < doc@.len(),
    ensures
        r@ == matching(doc_view(doc@), cands@, sel@),
{
    let mut res: Vec<usize> = Vec::new();
    let n = cands.len();
    for k in 0..n
        invariant
            n == cands@.len(),
            forall|k: int| 0 <= k < cands@.len() ==> #[trigger] cands@[k] < doc@.len(),
            res@ == matching(doc_view(doc@), cands@.take(k as int), sel@),
    {
        assert(cands@.take(k + 1).drop_last() =~= cands@.take(k as int));
        assert(cands@.take(k + 1).last() == cands@[k as int]);
        let c = cands[k];
        assert(doc_view(doc@)[c as int] == doc@[c as int]@);
        if picks(sel, &doc[c]) {
            res.push(c);
        }
    }
    assert(cands@.take(n as int) =~= cands@);
    res
}

/// The indices of all nodes of `doc`, in order.
pub fn node_indices(doc: &Vec<HtmlNode>) -> (r: Vec<usize>)
    ensures
        r@ == all_nodes(doc@.len()),
{
    let mut res: Vec<usize> = Vec::new();
    for i in 0..doc.len()
        invariant
            res@ == all_nodes(i as nat),
    {
        res.push(i);
        assert(res@ =~= all_nodes((i + 1) as nat));
    }
    res
}

/// The nodes of `doc` that `sel` picks, in document order.
pub fn find_doc(doc: &Vec<HtmlNode>, sel: &Selector) -> (r: Vec<usize>)
    ensures
        r@ == find_in_doc(doc_view(doc@), sel@),
        forall|k: int| 0 <= k < r@.len() ==> #[trigger] r@[k] < doc@.len(),
{
    let all = node_indices(doc);
    let r = find_among(doc, &all, sel);
    proof {
        lemma_matching_among(doc_view(doc@), all@, sel@);
    }
    r
}

/// The nodes under node `i` that `sel` picks, in document order.
pub fn find_below(doc: &Vec<HtmlNode>, i: usize, sel: &Selector) -> (r: Vec<usize>)
    requires
        i < doc@.len(),
        well_formed(doc_view(doc@)),
    ensures
        r@ == find_under(doc_view(doc@), i as int, sel@),
        forall|k: int| 0 <= k < r@.len() ==> #[trigger] r@[k] < doc@.len(),
{
    proof {
        assert forall|k: int| 0 <= k < doc@[i as int].descendants@.len() implies #[trigger] doc@[
            i as int].descendants@[k] < doc@.len() by {
            assert(doc_view(doc@)[i as int].descendants[k] < doc_view(doc@).len());
        }
    }
    let r = find_among(doc, &doc[i].descendants, sel);
    proof {
        lemma_matching_among(doc_view(doc@), doc@[i as int].descendants@, sel@);
    }
    r
}

/// What a search picks is among its candidates.
pub proof fn lemma_matching_among(doc: Seq<NodeView>, cands: Seq<usize>, sel: SelectorView)
    ensures
        forall|k: int|
            0 <= k < matching(doc, cands, sel).len() ==> cands.contains(
                #[trigger] matching(doc, cands, sel)[k],
            ) && selects(sel, doc[matching(doc, cands, sel)[k] as int]),
    decreases cands.len(),
{
    if cands.len() > 0 {
        lemma_matching_among(doc, cands.drop_last(), sel);
        assert forall|k: int| 0 <= k < matching(doc, cands, sel).len() implies cands.contains(
            #[trigger] matching(doc, cands, sel)[k],
        ) && selects(sel, doc[matching(doc, cands, sel)[k] as int]) by {
            let m = matching(doc, cands.drop_last(), sel);
            if k < m.len() {
                let j = choose|j: int| 0 <= j < cands.drop_last().len() && cands.drop_last()[j] == m[k];
                assert(cands[j] == m[k]);
            } else {
                assert(cands[cands.len() - 1] == cands.last());
            }
        }
    }
}

proof fn lemma_matching_all_nodes(doc: Seq<NodeView>, sel: SelectorView, n: nat)
    requires
        n <= usize::MAX,
    ensures
        forall|k: int|
            0 <= k < matching(doc, all_nodes(n), sel).len() ==> #[trigger] matching(
                doc,
                all_nodes(n),
                sel,
            )[k] < n && selects(sel, doc[matching(doc, all_nodes(n), sel)[k] as int]),
        forall|i: int|
            0 <= i < n && selects(sel, doc[i]) ==> matching(doc, all_nodes(n), sel).contains(
                i as usize,
            ),
        forall|j: int, k: int|
            0 <= j < k < matching(doc, all_nodes(n), sel).len() ==> #[trigger] matching(
                doc,
                all_nodes(n),
                sel,
            )[j] < #[trigger] matching(doc, all_nodes(n), sel)[k],
    decreases n,
{
    if n > 0 {
        let m = (n - 1) as nat;
        lemma_matching_all_nodes(doc, sel, m);
        assert(all_nodes(n).drop_last() =~= all_nodes(m));
        assert(all_nodes(n).last() == m as usize);
        assert((m as usize) as int == m);
        let prev = matching(doc, all_nodes(m), sel);
        let cur = matching(doc, all_nodes(n), sel);
        assert forall|i: int| 0 <= i < n && selects(sel, doc[i]) implies cur.contains(i as usize) by {
            if i < m {
                let k = choose|k: int| 0 <= k < prev.len() && prev[k] == i as usize;
                assert(cur[k] == prev[k]);
            } else {
                assert(i == m);
                assert(selects(sel, doc[all_nodes(n).last() as int]));
                assert(cur[cur.len() - 1] == m as usize);
            }
        }
        assert forall|k: int| 0 <= k < cur.len() implies #[trigger] cur[k] < n && selects(
            sel,
            doc[cur[k] as int],
        ) by {
            if k < prev.len() {
                assert(cur[k] == prev[k]);
            }
        }
        assert forall|j: int, k: int| 0 <= j < k < cur.len() implies #[trigger] cur[j]
            < #[trigger] cur[k] by {
            if k < prev.len() {
                assert(cur[k] == prev[k] && cur[j] == prev[j]);
            } else {
                assert(cur[j] == prev[j]);
            }
        }
    }
}

/// A search of a document is complete and in document order: it holds every
/// node that the selector picks, no other, each once, by increasing index.
pub proof fn law_find_in_doc_complete(doc: Seq<NodeView>, sel: SelectorView)
    requires
        doc.len() <= usize::MAX,
    ensures
        forall|i: int|
            0 <= i < doc.len() ==> (selects(sel, doc[i]) <==> find_in_doc(doc, sel).contains(
                i as usize,
            )),
        forall|k: int|
            0 <= k < find_in_doc(doc, sel).len() ==> #[trigger] find_in_doc(doc, sel)[k]
                < doc.len(),
        forall|j: int, k: int|
            0 <= j < k < find_in_doc(doc, sel).len() ==> #[trigger] find_in_doc(doc, sel)[j]
                < #[trigger] find_in_doc(doc, sel)[k],
{
    lemma_matching_all_nodes(doc, sel, doc.len());
    let f = find_in_doc(doc, sel);
    assert forall|i: int| 0 <= i < doc.len() && f.contains(i as usize) implies selects(
        sel,
        doc[i],
    ) by {
        let k = choose|k: int| 0 <= k < f.len() && f[k] == i as usize;
        assert(f[k] < doc.len());
        assert(selects(sel, doc[f[k] as int]));
        assert(f[k] as int == i);
    }
}

proof fn lemma_matching_none(doc: Seq<NodeView>, cands: Seq<usize>, sel: SelectorView)
    requires
        forall|j: int| 0 <= j < cands.len() ==> !selects(sel, doc[#[trigger] cands[j] as int]),
    ensures
        matching(doc, cands, sel).len() == 0,
    decreases cands.len(),
{
    if cands.len() > 0 {
        assert(cands.last() == cands[cands.len() - 1]);
        lemma_matching_none(doc, cands.drop_last(), sel);
    }
}

proof fn lemma_matching_prefix(doc: Seq<NodeView>, cands: Seq<usize>, sel: SelectorView, m: int)
    requires
        0 <= m <= cands.len(),
    ensures
        matching(doc, cands.take(m), sel).len() <= matching(doc, cands, sel).len(),
        forall|i: int|
            0 <= i < matching(doc, cands.take(m), sel).len() ==> #[trigger] matching(
                doc,
                cands,
                sel,
            )[i] == matching(doc, cands.take(m), sel)[i],
    decreases cands.len(),
{
    if m == cands.len() {
        assert(cands.take(m) =~= cands);
    } else {
        let d = cands.drop_last();
        assert(cands.take(m) =~= d.take(m));
        lemma_matching_prefix(doc, d, sel, m);
    }
}

/// The first node that a search of candidates gives is the first candidate
/// that the selector picks.
pub proof fn law_first_match(doc: Seq<NodeView>, cands: Seq<usize>, sel: SelectorView, k: int)
    requires
        0 <= k < cands.len(),
        selects(sel, doc[cands[k] as int]),
        forall|j: int| 0 <= j < k ==> !selects(sel, doc[#[trigger] cands[j] as int]),
    ensures
        matching(doc, cands, sel).len() > 0,
        matching(doc, cands, sel)[0] == cands[k],
{
    let t = cands.take(k + 1);
    assert(t.drop_last() =~= cands.take(k));
    assert forall|j: int| 0 <= j < cands.take(k).len() implies !selects(
        sel,
        doc[#[trigger] cands.take(k)[j] as int],
    ) by {
        assert(cands.take(k)[j] == cands[j]);
    }
    lemma_matching_none(doc, cands.take(k), sel);
    assert(t.last() == cands[k]);
    assert(matching(doc, t, sel) == matching(doc, cands.take(k), sel).push(cands[k]));
    lemma_matching_prefix(doc, cands, sel, k + 1);
    assert(matching(doc, t, sel)[0] == cands[k]);
}

} // verus!
