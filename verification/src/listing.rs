//! Rows of a search result, `(title, magnet)`, and how a listing is formed from
//! them: rows without a magnet are dropped, and the rest are put in descending
//! order (by title, then by magnet), whatever order they came in.

use vstd::prelude::*;
use vstd::multiset::Multiset;
use crate::DataStatus;
use crate::consts::NO_MAGNET;
use crate::text::{
    same_text, text_le, text_less_eq, lemma_text_le_reflexive, lemma_text_le_total,
    lemma_text_le_antisymmetric, lemma_text_le_transitive,
};

verus! {

broadcast use vstd::seq_lib::group_to_multiset_ensures;

/// The characters of each string of each row.
pub open spec fn rows_view(rows: Seq<(String, String)>) -> Seq<(Seq<char>, Seq<char>)> {
    rows.map_values(|r: (String, String)| (r.0@, r.1@))
}

/// The order of rows: by title, then by magnet (the order of a pair of strings).
pub open spec fn row_le(p: (Seq<char>, Seq<char>), q: (Seq<char>, Seq<char>)) -> bool {
    if p.0 == q.0 {
        text_le(p.1, q.1)
    } else {
        text_le(p.0, q.0)
    }
}

/// Rows in descending order: no row is ordered after one that comes later.
pub open spec fn sorted_desc(s: Seq<(Seq<char>, Seq<char>)>) -> bool {
    forall|i: int, j: int| 0 <= i < j < s.len() ==> row_le(#[trigger] s[j], #[trigger] s[i])
}

/// The rows of `m`, each as often as `m` holds it, in descending order.
pub open spec fn ranked(m: Multiset<(Seq<char>, Seq<char>)>) -> Seq<(Seq<char>, Seq<char>)> {
    choose|r: Seq<(Seq<char>, Seq<char>)>| sorted_desc(r) && r.to_multiset() == m
}

/// Whether a row carries a magnet link.
pub open spec fn has_magnet(r: (Seq<char>, Seq<char>)) -> bool {
    r.1 != NO_MAGNET@
}

/// The rows that carry a magnet link, in their order.
pub open spec fn with_magnet(rows: Seq<(Seq<char>, Seq<char>)>) -> Seq<(Seq<char>, Seq<char>)>
    decreases rows.len(),
{
    if rows.len() == 0 {
        rows
    } else {
        let rest = with_magnet(rows.drop_last());
        if has_magnet(rows.last()) {
            rest.push(rows.last())
        } else {
            rest
        }
    }
}

/// Every row is ordered before or equal to itself.
pub proof fn lemma_row_le_reflexive(p: (Seq<char>, Seq<char>))
    ensures
        row_le(p, p),
{
    lemma_text_le_reflexive(p.1);
}

/// Any two rows are ordered one way or the other.
pub proof fn lemma_row_le_total(p: (Seq<char>, Seq<char>), q: (Seq<char>, Seq<char>))
    ensures
        row_le(p, q) || row_le(q, p),
{
    lemma_text_le_total(p.0, q.0);
    lemma_text_le_total(p.1, q.1);
}

/// Rows ordered both ways are equal.
pub proof fn lemma_row_le_antisymmetric(p: (Seq<char>, Seq<char>), q: (Seq<char>, Seq<char>))
    requires
        row_le(p, q),
        row_le(q, p),
    ensures
        p == q,
{
    if p.0 == q.0 {
        lemma_text_le_antisymmetric(p.1, q.1);
    } else {
        lemma_text_le_antisymmetric(p.0, q.0);
    }
}

/// The order of rows is transitive.
pub proof fn lemma_row_le_transitive(
    p: (Seq<char>, Seq<char>),
    q: (Seq<char>, Seq<char>),
    r: (Seq<char>, Seq<char>),
)
    requires
        row_le(p, q),
        row_le(q, r),
    ensures
        row_le(p, r),
{
    if p.0 == q.0 && q.0 == r.0 {
        lemma_text_le_transitive(p.1, q.1, r.1);
    } else if p.0 == q.0 {
    } else if q.0 == r.0 {
    } else {
        lemma_text_le_transitive(p.0, q.0, r.0);
        if p.0 == r.0 {
            lemma_text_le_antisymmetric(p.0, q.0);
        }
    }
}

/// Two descending sequences that hold the same rows, as often each, are equal:
/// the descending order of a collection of rows is unique.
pub proof fn lemma_sorted_unique(a: Seq<(Seq<char>, Seq<char>)>, b: Seq<(Seq<char>, Seq<char>)>)
    requires
        sorted_desc(a),
        sorted_desc(b),
        a.to_multiset() == b.to_multiset(),
    ensures
        a == b,
    decreases a.len(),
{
    assert(a.len() == a.to_multiset().len());
    assert(b.len() == b.to_multiset().len());
    if a.len() == 0 {
        assert(a =~= b);
    } else {
        let x = a[0];
        let y = b[0];
        assert(a.to_multiset().count(x) > 0) by {
            assert(a.contains(x));
        }
        assert(b.contains(x));
        let k = choose|k: int| 0 <= k < b.len() && b[k] == x;
        if k == 0 {
            lemma_row_le_reflexive(x);
        }
        assert(row_le(x, y));
        assert(b.to_multiset().count(y) > 0) by {
            assert(b.contains(y));
        }
        assert(a.contains(y));
        let l = choose|l: int| 0 <= l < a.len() && a[l] == y;
        if l == 0 {
            lemma_row_le_reflexive(y);
        }
        assert(row_le(y, x));
        lemma_row_le_antisymmetric(x, y);
        let a1 = a.remove(0);
        let b1 = b.remove(0);
        assert(a1.to_multiset() == a.to_multiset().remove(x));
        assert(b1.to_multiset() == b.to_multiset().remove(y));
        assert(sorted_desc(a1)) by {
            assert forall|i: int, j: int| 0 <= i < j < a1.len() implies row_le(
                #[trigger] a1[j],
                #[trigger] a1[i],
            ) by {
                assert(a1[j] == a[j + 1] && a1[i] == a[i + 1]);
            }
        }
        assert(sorted_desc(b1)) by {
            assert forall|i: int, j: int| 0 <= i < j < b1.len() implies row_le(
                #[trigger] b1[j],
                #[trigger] b1[i],
            ) by {
                assert(b1[j] == b[j + 1] && b1[i] == b[i + 1]);
            }
        }
        lemma_sorted_unique(a1, b1);
        assert(a =~= seq![x] + a1);
        assert(b =~= seq![y] + b1);
    }
}

/// A descending sequence of the rows of `m` is the one that `ranked` names.
pub proof fn lemma_ranked_is(r: Seq<(Seq<char>, Seq<char>)>, m: Multiset<(Seq<char>, Seq<char>)>)
    requires
        sorted_desc(r),
        r.to_multiset() == m,
    ensures
        ranked(m) == r,
{
    let c = ranked(m);
    assert(sorted_desc(c) && c.to_multiset() == m);
    lemma_sorted_unique(c, r);
}

/// Whether row `p` is ordered before or equal to row `q`.
pub fn row_less_eq(p: &(String, String), q: &(String, String)) -> (b: bool)
    ensures
        b == row_le((p.0@, p.1@), (q.0@, q.1@)),
{
    if p.0 == q.0 {
        text_less_eq(p.1.as_str(), q.1.as_str())
    } else {
        text_less_eq(p.0.as_str(), q.0.as_str())
    }
}

/// The rows in descending order, each as often as it occurs: the order in which
/// the rows came does not matter.
pub fn rank_rows(rows: &Vec<(String, String)>) -> (r: Vec<(String, String)>)
    ensures
        sorted_desc(rows_view(r@)),
        rows_view(r@).to_multiset() == rows_view(rows@).to_multiset(),
        rows_view(r@) == ranked(rows_view(rows@).to_multiset()),
{
    let mut res: Vec<(String, String)> = Vec::new();
    let n = rows.len();
    for i in 0..n
        invariant
            n == rows@.len(),
            sorted_desc(rows_view(res@)),
            rows_view(res@).to_multiset() == rows_view(rows@).take(i as int).to_multiset(),
    {
        let x = (rows[i].0.clone(), rows[i].1.clone());
        let ghost xv = (x.0@, x.1@);
        let ghost old_res = rows_view(res@);
        let mut j: usize = 0;
        assert(forall|k: int| 0 <= k < res@.len() ==> #[trigger] old_res[k] == (res@[k].0@, res@[k].1@));
        while j < res.len() && !row_less_eq(&res[j], &x)
            invariant
                j <= res@.len(),
                xv == (x.0@, x.1@),
                res@.len() == old_res.len(),
                forall|k: int| 0 <= k < res@.len() ==> #[trigger] old_res[k] == (res@[k].0@, res@[k].1@),
                forall|k: int| 0 <= k < j ==> !row_le(#[trigger] old_res[k], xv),
            decreases res@.len() - j,
        {
            j = j + 1;
        }
        let ghost jj = j as int;
        res.insert(j, x);
        proof {
            let nr = rows_view(res@);
            assert(nr =~= old_res.insert(jj, xv));
            assert(rows_view(rows@).take(i + 1) =~= rows_view(rows@).take(i as int).push(xv));
            assert forall|a: int, b: int| 0 <= a < b < nr.len() implies row_le(
                #[trigger] nr[b],
                #[trigger] nr[a],
            ) by {
                if b < jj {
                    assert(nr[a] == old_res[a] && nr[b] == old_res[b]);
                } else if b == jj {
                    assert(nr[a] == old_res[a]);
                    assert(!row_le(old_res[a], xv));
                    lemma_row_le_total(old_res[a], xv);
                } else if a == jj {
                    assert(nr[b] == old_res[b - 1]);
                    assert(row_le(old_res[jj], xv));
                    if b - 1 > jj {
                        lemma_row_le_transitive(old_res[b - 1], old_res[jj], xv);
                    }
                } else if a > jj {
                    assert(nr[a] == old_res[a - 1] && nr[b] == old_res[b - 1]);
                } else {
                    assert(nr[a] == old_res[a] && nr[b] == old_res[b - 1]);
                }
            }
        }
    }
    proof {
        assert(rows_view(rows@).take(n as int) =~= rows_view(rows@));
        lemma_ranked_is(rows_view(res@), rows_view(rows@).to_multiset());
    }
    res
}

/// How often `with_magnet(rows)` holds a row: as often as `rows` does if the row
/// carries a magnet, and never otherwise.
pub proof fn lemma_with_magnet_count(rows: Seq<(Seq<char>, Seq<char>)>, v: (Seq<char>, Seq<char>))
    ensures
        with_magnet(rows).to_multiset().count(v) == if has_magnet(v) {
            rows.to_multiset().count(v)
        } else {
            0
        },
    decreases rows.len(),
{
    broadcast use vstd::multiset::group_multiset_axioms;

    if rows.len() == 0 {
        assert(rows.to_multiset() =~= Multiset::empty());
    } else {
        let init = rows.drop_last();
        lemma_with_magnet_count(init, v);
        assert(rows =~= init.push(rows.last()));
        assert(rows.to_multiset() == init.to_multiset().insert(rows.last()));
        if has_magnet(rows.last()) {
            assert(with_magnet(rows) == with_magnet(init).push(rows.last()));
            assert(with_magnet(rows).to_multiset() == with_magnet(init).to_multiset().insert(
                rows.last(),
            ));
        }
    }
}

/// No row of `with_magnet(rows)` lacks a magnet, and each is a row of `rows`.
pub proof fn lemma_with_magnet_rows(rows: Seq<(Seq<char>, Seq<char>)>)
    ensures
        forall|i: int|
            0 <= i < with_magnet(rows).len() ==> has_magnet(#[trigger] with_magnet(rows)[i])
                && rows.contains(with_magnet(rows)[i]),
    decreases rows.len(),
{
    if rows.len() > 0 {
        let init = rows.drop_last();
        lemma_with_magnet_rows(init);
        assert forall|i: int| 0 <= i < with_magnet(rows).len() implies has_magnet(
            #[trigger] with_magnet(rows)[i],
        ) && rows.contains(with_magnet(rows)[i]) by {
            if i < with_magnet(init).len() {
                let k = choose|k: int| 0 <= k < init.len() && init[k] == with_magnet(init)[i];
                assert(rows[k] == init[k]);
            } else {
                assert(rows[rows.len() - 1] == rows.last());
            }
        }
    }
}

/// Rows that arrive in another order give the same listing: a listing depends
/// only on which rows came, and how often each.
pub proof fn law_listing_ignores_arrival_order(
    a: Seq<(Seq<char>, Seq<char>)>,
    b: Seq<(Seq<char>, Seq<char>)>,
)
    requires
        a.to_multiset() == b.to_multiset(),
    ensures
        ranked(with_magnet(a).to_multiset()) == ranked(with_magnet(b).to_multiset()),
        ranked(a.to_multiset()) == ranked(b.to_multiset()),
{
    assert forall|v: (Seq<char>, Seq<char>)|
        with_magnet(a).to_multiset().count(v) == with_magnet(b).to_multiset().count(v) by {
        lemma_with_magnet_count(a, v);
        lemma_with_magnet_count(b, v);
    }
    assert(with_magnet(a).to_multiset() =~= with_magnet(b).to_multiset());
}

/// The rows that carry a magnet link, in their order.
pub fn drop_missing(rows: &Vec<(String, String)>) -> (r: Vec<(String, String)>)
    ensures
        rows_view(r@) == with_magnet(rows_view(rows@)),
{
    let mut res: Vec<(String, String)> = Vec::new();
    let n = rows.len();
    for i in 0..n
        invariant
            n == rows@.len(),
            rows_view(res@) == with_magnet(rows_view(rows@).take(i as int)),
    {
        let ghost before = rows_view(res@);
        assert(rows_view(rows@).take(i + 1).drop_last() =~= rows_view(rows@).take(i as int));
        if !same_text(rows[i].1.as_str(), NO_MAGNET) {
            res.push((rows[i].0.clone(), rows[i].1.clone()));
            assert(rows_view(res@) =~= before.push(rows_view(rows@)[i as int]));
        }
    }
    assert(rows_view(rows@).take(n as int) =~= rows_view(rows@));
    res
}

/// All the values, if every item holds one; `None` if any item is missing.
pub open spec fn all_some<A>(items: Seq<Option<A>>) -> Option<Seq<A>>
    decreases items.len(),
{
    if items.len() == 0 {
        Some(Seq::empty())
    } else {
        match (all_some(items.drop_last()), items.last()) {
            (Some(r), Some(x)) => Some(r.push(x)),
            _ => None,
        }
    }
}

/// Once a prefix of the items misses a value, so do the items.
pub proof fn lemma_all_some_prefix<A>(items: Seq<Option<A>>, k: int)
    requires
        0 <= k <= items.len(),
        all_some(items.take(k)) is None,
    ensures
        all_some(items) is None,
    decreases items.len() - k,
{
    if k < items.len() {
        assert(items.take(k + 1).drop_last() =~= items.take(k));
        lemma_all_some_prefix(items, k + 1);
    } else {
        assert(items.take(k) =~= items);
    }
}

/// `all_some` holds values exactly when every item does, and then one value
/// per item, in order: a page gives one row per post, or none at all.
pub proof fn law_all_some<A>(items: Seq<Option<A>>)
    ensures
        all_some(items) is Some <==> forall|i: int| 0 <= i < items.len() ==> #[trigger] items[i] is Some,
        all_some(items) matches Some(r) ==> r.len() == items.len() && forall|i: int|
            0 <= i < items.len() ==> #[trigger] items[i] == Some(r[i]),
    decreases items.len(),
{
    if items.len() > 0 {
        let init = items.drop_last();
        law_all_some(init);
        assert forall|i: int| 0 <= i < init.len() implies #[trigger] init[i] == items[i] by {}
        if all_some(items) is Some {
            let r = all_some(items)->0;
            let r0 = all_some(init)->0;
            assert forall|i: int| 0 <= i < items.len() implies #[trigger] items[i] == Some(r[i]) by {
                if i < init.len() {
                    assert(init[i] == Some(r0[i]));
                }
            }
        } else if all_some(init) is Some {
            assert(items[items.len() - 1] is None);
        } else {
            let k = choose|k: int| 0 <= k < init.len() && !(init[k] is Some);
            assert(items[k] is None);
        }
    }
}

/// The listing of a search: its rows (title, magnet), which may come in any
/// order, become the rows that carry a magnet, in descending order. A search
/// without rows found no post: `NotFound`.
pub fn magnet_listing(results: &Vec<(String, String)>) -> (r: (DataStatus, Vec<(String, String)>))
    ensures
        r.0 == (if results@.len() == 0 {
            DataStatus::NotFound
        } else {
            DataStatus::Found
        }),
        rows_view(r.1@) == ranked(with_magnet(rows_view(results@)).to_multiset()),
        sorted_desc(rows_view(r.1@)),
        forall|i: int|
            0 <= i < r.1@.len() ==> has_magnet(#[trigger] rows_view(r.1@)[i]) && rows_view(
                results@,
            ).contains(rows_view(r.1@)[i]),
{
    if results.len() == 0 {
        let empty: Vec<(String, String)> = Vec::new();
        proof {
            assert(rows_view(results@) =~= Seq::empty());
            assert(rows_view(empty@) =~= Seq::empty());
            lemma_ranked_is(rows_view(empty@), with_magnet(rows_view(results@)).to_multiset());
        }
        return (DataStatus::NotFound, empty);
    }
    let kept = drop_missing(results);
    let rows = rank_rows(&kept);
    proof {
        lemma_with_magnet_rows(rows_view(results@));
        let rv = rows_view(rows@);
        let kv = rows_view(kept@);
        assert forall|i: int| 0 <= i < rv.len() implies has_magnet(#[trigger] rv[i])
            && rows_view(results@).contains(rv[i]) by {
            assert(rv.to_multiset().count(rv[i]) > 0) by {
                assert(rv.contains(rv[i]));
            }
            assert(kv.contains(rv[i]));
        }
    }
    (DataStatus::Found, rows)
}

} // verus!
