//! torrentube: a search page lists its results in a script, where each result
//! has a title written `'fn': '<title>'` and an info hash written
//! `'hs': '<40 characters>'`. Titles and hashes are read in page order and
//! paired by position.

use vstd::prelude::*;
use crate::consts::MAGNET_PREFIX;
use crate::listing::rows_view;
use crate::text::{chars_of, occurs_at, prefixed_range, starts_at, string_of_range, strings_view};

verus! {

/// What stands before a title in the page.
pub const TITLE_OPEN: &'static str = "'fn': '";

/// What stands before an info hash in the page.
pub const HASH_OPEN: &'static str = "'hs': '";

/// The first quote at or after `k` that no line feed precedes from `k` on.
pub open spec fn closing_quote(s: Seq<char>, k: int) -> Option<int>
    decreases s.len() - k,
{
    if k < 0 || k >= s.len() {
        None
    } else if s[k] == '\n' {
        None
    } else if s[k] == '\'' {
        Some(k)
    } else {
        closing_quote(s, k + 1)
    }
}

pub proof fn lemma_closing_quote(s: Seq<char>, k: int)
    ensures
        closing_quote(s, k) matches Some(e) ==> k <= e < s.len() && s[e] == '\'' && forall|j: int|
            k <= j < e ==> s[j] != '\n' && s[j] != '\'',
    decreases s.len() - k,
{
    if 0 <= k < s.len() && s[k] != '\n' && s[k] != '\'' {
        lemma_closing_quote(s, k + 1);
    }
}

/// Where the title of a match starting at `p` ends (the position of its
/// closing quote): the title is one character or more, none a line feed, up
/// to the first quote after its first character.
pub open spec fn title_at(s: Seq<char>, p: int) -> Option<int> {
    let q = p + TITLE_OPEN@.len();
    if starts_at(s, p, TITLE_OPEN@) && q < s.len() && s[q] != '\n' {
        closing_quote(s, q + 1)
    } else {
        None
    }
}

/// The titles from position `p` on: each match is taken at the leftmost
/// position where one starts, and the search goes on after its closing quote.
pub open spec fn titles_from(s: Seq<char>, p: int) -> Seq<Seq<char>>
    decreases s.len() - p,
{
    if p < 0 || p >= s.len() {
        Seq::empty()
    } else {
        match title_at(s, p) {
            Some(e) => {
                proof {
                    lemma_closing_quote(s, p + TITLE_OPEN@.len() + 1);
                }
                seq![s.subrange(p + TITLE_OPEN@.len(), e)] + titles_from(s, e + 1)
            },
            None => titles_from(s, p + 1),
        }
    }
}

/// The titles of a page, in page order.
pub open spec fn titles_in(s: Seq<char>) -> Seq<Seq<char>> {
    titles_from(s, 0)
}

/// The characters an info hash is written with: digits, ',' and lower-case letters.
pub open spec fn is_hash_char(c: char) -> bool {
    ('0' <= c && c <= '9') || c == ',' || ('a' <= c && c <= 'z')
}

/// Whether an info hash is written at `p`: the opening, 40 hash characters and
/// a closing quote.
pub open spec fn hash_at(s: Seq<char>, p: int) -> bool {
    let q = p + HASH_OPEN@.len();
    &&& starts_at(s, p, HASH_OPEN@)
    &&& q + 40 < s.len()
    &&& forall|k: int| q <= k < q + 40 ==> is_hash_char(#[trigger] s[k])
    &&& s[q + 40] == '\''
}

/// The magnet links of the info hashes from position `p` on, leftmost first,
/// the search going on after each closing quote.
pub open spec fn magnets_from(s: Seq<char>, p: int) -> Seq<Seq<char>>
    decreases s.len() - p,
{
    if p < 0 || p >= s.len() {
        Seq::empty()
    } else if hash_at(s, p) {
        let q = p + HASH_OPEN@.len();
        seq![MAGNET_PREFIX@ + s.subrange(q, q + 40)] + magnets_from(s, q + 41)
    } else {
        magnets_from(s, p + 1)
    }
}

/// The magnet links of a page, in page order.
pub open spec fn magnets_in(s: Seq<char>) -> Seq<Seq<char>> {
    magnets_from(s, 0)
}

/// Titles and magnets paired by position, as many pairs as the shorter has items.
pub open spec fn zip_rows(a: Seq<Seq<char>>, b: Seq<Seq<char>>) -> Seq<(Seq<char>, Seq<char>)> {
    Seq::new(if a.len() <= b.len() { a.len() } else { b.len() }, |i: int| (a[i], b[i]))
}

/// Row `i` pairs the `i`-th title with the `i`-th magnet, for as many rows as
/// the shorter of the two has items.
pub proof fn law_rows_pair_by_position(a: Seq<Seq<char>>, b: Seq<Seq<char>>)
    ensures
        zip_rows(a, b).len() == if a.len() <= b.len() {
            a.len()
        } else {
            b.len()
        },
        forall|i: int| 0 <= i < zip_rows(a, b).len() ==> #[trigger] zip_rows(a, b)[i] == (a[i], b[i]),
{
}

/// The end of the title that starts at `p`, if one does.
fn title_end(s: &Vec<char>, open: &Vec<char>, p: usize) -> (r: Option<usize>)
    requires
        open@ == TITLE_OPEN@,
    ensures
        match r {
            Some(e) => title_at(s@, p as int) == Some(e as int),
            None => title_at(s@, p as int) is None,
        },
{
    if !occurs_at(s, p, open) {
        return None;
    }
    let n = s.len();
    let q = p + open.len();
    if q >= s.len() || s[q] == '\n' {
        return None;
    }
    let mut k = q + 1;
    while k < s.len()
        invariant
            q < k <= s@.len(),
            s@.len() == s.len(),
            title_at(s@, p as int) == closing_quote(s@, k as int),
        decreases s@.len() - k,
    {
        if s[k] == '\n' {
            return None;
        }
        if s[k] == '\'' {
            return Some(k);
        }
        k = k + 1;
    }
    None
}

/// The titles of a page, in page order.
pub fn get_titles(text: &str) -> (r: Vec<String>)
    ensures
        strings_view(r@) == titles_in(text@),
{
    let v = chars_of(text);
    let open = chars_of(TITLE_OPEN);
    let n = v.len();
    let mut res: Vec<String> = Vec::new();
    let mut p: usize = 0;
    while p < n
        invariant
            n == v@.len(),
            v@ == text@,
            open@ == TITLE_OPEN@,
            p <= n,
            titles_in(v@) == strings_view(res@) + titles_from(v@, p as int),
        decreases n - p,
    {
        let ghost before = strings_view(res@);
        match title_end(&v, &open, p) {
            Some(e) => {
                proof {
                    lemma_closing_quote(v@, p + TITLE_OPEN@.len() + 1);
                }
                let t = string_of_range(&v, p + open.len(), e);
                res.push(t);
                assert(strings_view(res@) =~= before.push(t@));
                assert(titles_from(v@, p as int) == seq![t@] + titles_from(v@, e + 1));
                assert(strings_view(res@) + titles_from(v@, e + 1) =~= before + titles_from(
                    v@,
                    p as int,
                ));
                p = e + 1;
            },
            None => {
                p = p + 1;
            },
        }
    }
    assert(strings_view(res@) + titles_from(v@, p as int) =~= strings_view(res@));
    res
}

/// Whether an info hash is written at `p`.
fn hash_here(s: &Vec<char>, open: &Vec<char>, p: usize) -> (r: bool)
    requires
        open@ == HASH_OPEN@,
    ensures
        r == hash_at(s@, p as int),
{
    if !occurs_at(s, p, open) {
        return false;
    }
    let n = s.len();
    let q = p + open.len();
    if q > s.len() || 41 > s.len() - q {
        return false;
    }
    let mut k = q;
    while k < q + 40
        invariant
            q <= k <= q + 40,
            q + 40 < s@.len(),
            q == p + HASH_OPEN@.len(),
            starts_at(s@, p as int, HASH_OPEN@),
            s@.len() == s.len(),
            forall|j: int| q <= j < k ==> is_hash_char(#[trigger] s@[j]),
        decreases q + 40 - k,
    {
        let c = s[k];
        if !(('0' <= c && c <= '9') || c == ',' || ('a' <= c && c <= 'z')) {
            assert(!is_hash_char(s@[k as int]));
            return false;
        }
        k = k + 1;
    }
    s[q + 40] == '\''
}

/// The magnet links of the info hashes of a page, in page order.
pub fn get_magnets(text: &str) -> (r: Vec<String>)
    ensures
        strings_view(r@) == magnets_in(text@),
{
    let v = chars_of(text);
    let open = chars_of(HASH_OPEN);
    let n = v.len();
    let mut res: Vec<String> = Vec::new();
    let mut p: usize = 0;
    while p < n
        invariant
            n == v@.len(),
            v@ == text@,
            open@ == HASH_OPEN@,
            p <= n,
            magnets_in(v@) == strings_view(res@) + magnets_from(v@, p as int),
        decreases n - p,
    {
        let ghost before = strings_view(res@);
        if hash_here(&v, &open, p) {
            let q = p + open.len();
            let m = prefixed_range(MAGNET_PREFIX, &v, q, q + 40);
            res.push(m);
            assert(strings_view(res@) =~= before.push(m@));
            assert(strings_view(res@) + magnets_from(v@, q + 41) =~= before + magnets_from(
                v@,
                p as int,
            ));
            p = q + 41;
        } else {
            p = p + 1;
        }
    }
    assert(strings_view(res@) + magnets_from(v@, p as int) =~= strings_view(res@));
    res
}

/// The listing of a torrentube search page: its titles and magnet links,
/// paired in page order.
pub fn run(text: &str) -> (r: Vec<(String, String)>)
    ensures
        rows_view(r@) == zip_rows(titles_in(text@), magnets_in(text@)),
        r@.len() == if titles_in(text@).len() <= magnets_in(text@).len() {
            titles_in(text@).len()
        } else {
            magnets_in(text@).len()
        },
        forall|i: int|
            0 <= i < r@.len() ==> (#[trigger] r@[i]).0@ == titles_in(text@)[i] && r@[i].1@
                == magnets_in(text@)[i],
{
    let titles = get_titles(text);
    let magnets = get_magnets(text);
    let n = if titles.len() <= magnets.len() {
        titles.len()
    } else {
        magnets.len()
    };
    let mut res: Vec<(String, String)> = Vec::new();
    for i in 0..n
        invariant
            n <= titles@.len(),
            n <= magnets@.len(),
            rows_view(res@) == zip_rows(strings_view(titles@), strings_view(magnets@)).take(
                i as int,
            ),
    {
        let ghost before = rows_view(res@);
        res.push((titles[i].clone(), magnets[i].clone()));
        assert(rows_view(res@) =~= before.push((titles@[i as int]@, magnets@[i as int]@)));
        assert(strings_view(titles@)[i as int] == titles@[i as int]@);
        assert(strings_view(magnets@)[i as int] == magnets@[i as int]@);
        assert(rows_view(res@) =~= zip_rows(strings_view(titles@), strings_view(magnets@)).take(
            i + 1,
        ));
    }
    assert(zip_rows(strings_view(titles@), strings_view(magnets@)).take(n as int)
        =~= zip_rows(strings_view(titles@), strings_view(magnets@)));
    proof {
        law_rows_pair_by_position(titles_in(text@), magnets_in(text@));
        assert forall|i: int| 0 <= i < res@.len() implies (#[trigger] res@[i]).0@ == titles_in(
            text@,
        )[i] && res@[i].1@ == magnets_in(text@)[i] by {
            assert(rows_view(res@)[i] == (res@[i].0@, res@[i].1@));
        }
    }
    res
}

/// A magnet link as the page gives it: the magnet prefix, then 40 hash characters.
pub open spec fn is_page_magnet(m: Seq<char>) -> bool {
    let n = MAGNET_PREFIX@.len();
    &&& m.len() == n + 40
    &&& m.subrange(0, n as int) == MAGNET_PREFIX@
    &&& forall|k: int| n <= k < n + 40 ==> is_hash_char(#[trigger] m[k])
}

proof fn lemma_magnets_from(s: Seq<char>, p: int)
    ensures
        forall|i: int|
            0 <= i < magnets_from(s, p).len() ==> is_page_magnet(#[trigger] magnets_from(s, p)[i]),
    decreases s.len() - p,
{
    if 0 <= p < s.len() {
        if hash_at(s, p) {
            let q = p + HASH_OPEN@.len();
            lemma_magnets_from(s, q + 41);
            let m = MAGNET_PREFIX@ + s.subrange(q, q + 40);
            let n = MAGNET_PREFIX@.len();
            assert(m.subrange(0, n as int) =~= MAGNET_PREFIX@);
            assert forall|k: int| n <= k < n + 40 implies is_hash_char(#[trigger] m[k]) by {
                assert(m[k] == s[q + (k - n)]);
            }
            assert forall|i: int| 0 <= i < magnets_from(s, p).len() implies is_page_magnet(
                #[trigger] magnets_from(s, p)[i],
            ) by {
                assert(magnets_from(s, p) == seq![m] + magnets_from(s, q + 41));
                if i > 0 {
                    assert(magnets_from(s, p)[i] == magnets_from(s, q + 41)[i - 1]);
                } else {
                    assert(magnets_from(s, p)[i] == m);
                }
            }
        } else {
            lemma_magnets_from(s, p + 1);
            assert(magnets_from(s, p) == magnets_from(s, p + 1));
        }
    } else {
        assert(magnets_from(s, p).len() == 0);
    }
}

/// Every magnet link read from a page is the magnet prefix followed by 40
/// hash characters.
pub proof fn law_magnets_are_links(s: Seq<char>)
    ensures
        forall|i: int| 0 <= i < magnets_in(s).len() ==> is_page_magnet(#[trigger] magnets_in(s)[i]),
{
    lemma_magnets_from(s, 0);
}

proof fn lemma_titles_from(s: Seq<char>, p: int)
    ensures
        forall|i: int|
            0 <= i < titles_from(s, p).len() ==> (#[trigger] titles_from(s, p)[i]).len() > 0
                && !titles_from(s, p)[i].contains('\n'),
    decreases s.len() - p,
{
    if 0 <= p < s.len() {
        match title_at(s, p) {
            Some(e) => {
                let q = p + TITLE_OPEN@.len();
                lemma_closing_quote(s, q + 1);
                lemma_titles_from(s, e + 1);
                let t = s.subrange(q, e);
                assert(!t.contains('\n')) by {
                    assert forall|k: int| 0 <= k < t.len() implies t[k] != '\n' by {
                        assert(t[k] == s[q + k]);
                    }
                }
                assert forall|i: int| 0 <= i < titles_from(s, p).len() implies (
                #[trigger] titles_from(s, p)[i]).len() > 0 && !titles_from(s, p)[i].contains('\n') by {
                    assert(titles_from(s, p) == seq![t] + titles_from(s, e + 1));
                    if i > 0 {
                        assert(titles_from(s, p)[i] == titles_from(s, e + 1)[i - 1]);
                    } else {
                        assert(titles_from(s, p)[i] == t);
                    }
                }
            },
            None => {
                lemma_titles_from(s, p + 1);
                assert(titles_from(s, p) == titles_from(s, p + 1));
            },
        }
    } else {
        assert(titles_from(s, p).len() == 0);
    }
}

/// Every title read from a page is one line of at least one character.
pub proof fn law_titles_are_single_lines(s: Seq<char>)
    ensures
        forall|i: int|
            0 <= i < titles_in(s).len() ==> (#[trigger] titles_in(s)[i]).len() > 0
                && !titles_in(s)[i].contains('\n'),
{
    lemma_titles_from(s, 0);
}

/// The openings of titles and of info hashes hold no line feed.
proof fn lemma_openings_single_line()
    ensures
        !TITLE_OPEN@.contains('\n'),
        !HASH_OPEN@.contains('\n'),
        TITLE_OPEN@.len() > 0,
        HASH_OPEN@.len() > 0,
{
    reveal_strlit("'fn': '");
    reveal_strlit("'hs': '");
}

/// Where `a` ends with a line feed, a literal without line feeds occurs in
/// `a + b` at a position of `a` exactly where it occurs in `a`.
proof fn lemma_starts_at_prefix(a: Seq<char>, b: Seq<char>, p: int, lit: Seq<char>)
    requires
        a.len() > 0,
        a.last() == '\n',
        !lit.contains('\n'),
        0 <= p < a.len(),
    ensures
        starts_at(a + b, p, lit) == starts_at(a, p, lit),
{
    let s = a + b;
    let n = a.len();
    if p + lit.len() <= n {
        assert(s.subrange(p, p + lit.len()) =~= a.subrange(p, p + lit.len()));
    } else if starts_at(s, p, lit) {
        assert(s.subrange(p, p + lit.len())[n - 1 - p] == s[n - 1]);
        assert(s[n - 1] == a[n - 1]);
        assert(lit[n - 1 - p] == '\n');
        assert(lit.contains('\n'));
    }
}

/// A literal without line feeds that occurs in `a` ends before its last line feed.
proof fn lemma_starts_at_before_line_feed(a: Seq<char>, p: int, lit: Seq<char>)
    requires
        a.len() > 0,
        a.last() == '\n',
        !lit.contains('\n'),
        lit.len() > 0,
        starts_at(a, p, lit),
    ensures
        p + lit.len() < a.len(),
{
    let n = a.len() as int;
    if p + lit.len() == n {
        assert(a.subrange(p, n)[n - 1 - p] == a[n - 1]);
        assert(lit[n - 1 - p] == '\n');
        assert(lit.contains('\n'));
    }
}

/// A literal occurs in `a + b` at `a.len() + p` exactly where it occurs in `b` at `p`.
proof fn lemma_starts_at_shift(a: Seq<char>, b: Seq<char>, p: int, lit: Seq<char>)
    requires
        0 <= p,
    ensures
        starts_at(a + b, a.len() + p, lit) == starts_at(b, p, lit),
{
    let s = a + b;
    let n = a.len() as int;
    if p + lit.len() <= b.len() {
        assert(s.subrange(n + p, n + p + lit.len()) =~= b.subrange(p, p + lit.len()));
    }
}

proof fn lemma_closing_quote_prefix(a: Seq<char>, b: Seq<char>, k: int)
    requires
        a.len() > 0,
        a.last() == '\n',
        0 <= k < a.len(),
    ensures
        closing_quote(a + b, k) == closing_quote(a, k),
    decreases a.len() - k,
{
    let s = a + b;
    assert(s[k] == a[k]);
    if k < a.len() - 1 && a[k] != '\n' && a[k] != '\'' {
        lemma_closing_quote_prefix(a, b, k + 1);
    }
}

proof fn lemma_closing_quote_shift(a: Seq<char>, b: Seq<char>, k: int)
    requires
        0 <= k,
    ensures
        closing_quote(a + b, a.len() + k) == (match closing_quote(b, k) {
            Some(e) => Some(a.len() + e),
            None => None,
        }),
    decreases b.len() - k,
{
    let s = a + b;
    if k < b.len() {
        assert(s[a.len() + k] == b[k]);
        if b[k] != '\n' && b[k] != '\'' {
            lemma_closing_quote_shift(a, b, k + 1);
            assert(a.len() + k + 1 == a.len() + (k + 1));
        }
    }
}

proof fn lemma_title_at_prefix(a: Seq<char>, b: Seq<char>, p: int)
    requires
        a.len() > 0,
        a.last() == '\n',
        0 <= p < a.len(),
    ensures
        title_at(a + b, p) == title_at(a, p),
        title_at(a, p) matches Some(e) ==> p + TITLE_OPEN@.len() < e < a.len() - 1,
{
    let s = a + b;
    let q = p + TITLE_OPEN@.len();
    lemma_openings_single_line();
    lemma_starts_at_prefix(a, b, p, TITLE_OPEN@);
    if starts_at(a, p, TITLE_OPEN@) {
        lemma_starts_at_before_line_feed(a, p, TITLE_OPEN@);
        assert(s[q] == a[q]);
    }
    if starts_at(a, p, TITLE_OPEN@) && q < a.len() && a[q] != '\n' {
        assert(s[q] == a[q]);
        assert(q != a.len() - 1);
        lemma_closing_quote_prefix(a, b, q + 1);
        lemma_closing_quote(a, q + 1);
    }
}

proof fn lemma_title_at_shift(a: Seq<char>, b: Seq<char>, p: int)
    requires
        0 <= p,
    ensures
        title_at(a + b, a.len() + p) == (match title_at(b, p) {
            Some(e) => Some(a.len() + e),
            None => None,
        }),
{
    let s = a + b;
    let n = a.len() as int;
    let q = p + TITLE_OPEN@.len();
    lemma_starts_at_shift(a, b, p, TITLE_OPEN@);
    if starts_at(b, p, TITLE_OPEN@) && q < b.len() {
        assert(s[n + q] == b[q]);
        lemma_closing_quote_shift(a, b, q + 1);
        assert(n + p + TITLE_OPEN@.len() + 1 == n + (q + 1));
    }
}

proof fn lemma_titles_shift(a: Seq<char>, b: Seq<char>, p: int)
    requires
        0 <= p,
    ensures
        titles_from(a + b, a.len() + p) == titles_from(b, p),
    decreases b.len() - p,
{
    let s = a + b;
    let n = a.len() as int;
    if p < b.len() {
        lemma_title_at_shift(a, b, p);
        match title_at(b, p) {
            Some(e) => {
                lemma_closing_quote(b, p + TITLE_OPEN@.len() + 1);
                lemma_titles_shift(a, b, e + 1);
                assert(s.subrange(n + p + TITLE_OPEN@.len(), n + e) =~= b.subrange(
                    p + TITLE_OPEN@.len(),
                    e,
                ));
                assert(n + e + 1 == n + (e + 1));
            },
            None => {
                lemma_titles_shift(a, b, p + 1);
                assert(n + p + 1 == n + (p + 1));
            },
        }
    }
}

proof fn lemma_titles_prefix(a: Seq<char>, b: Seq<char>, p: int)
    requires
        a.len() > 0,
        a.last() == '\n',
        0 <= p <= a.len(),
    ensures
        titles_from(a + b, p) == titles_from(a, p) + titles_from(a + b, a.len() as int),
    decreases a.len() - p,
{
    let s = a + b;
    if p == a.len() {
        assert(titles_from(a, p) =~= Seq::<Seq<char>>::empty());
        assert(titles_from(a, p) + titles_from(s, p) =~= titles_from(s, p));
    } else {
        lemma_title_at_prefix(a, b, p);
        match title_at(a, p) {
            Some(e) => {
                lemma_titles_prefix(a, b, e + 1);
                let t = a.subrange(p + TITLE_OPEN@.len(), e);
                assert(s.subrange(p + TITLE_OPEN@.len(), e) =~= t);
                assert(titles_from(s, p) == seq![t] + titles_from(s, e + 1));
                assert(titles_from(a, p) == seq![t] + titles_from(a, e + 1));
                assert(seq![t] + (titles_from(a, e + 1) + titles_from(s, a.len() as int))
                    =~= (seq![t] + titles_from(a, e + 1)) + titles_from(s, a.len() as int));
            },
            None => {
                lemma_titles_prefix(a, b, p + 1);
            },
        }
    }
}

/// A text that ends with a line feed splits the titles at that point: no
/// title crosses a line break.
pub proof fn law_titles_split_at_line_feed(a: Seq<char>, b: Seq<char>)
    requires
        a.len() > 0,
        a.last() == '\n',
    ensures
        titles_in(a + b) == titles_in(a) + titles_in(b),
{
    lemma_titles_prefix(a, b, 0);
    lemma_titles_shift(a, b, 0);
}

proof fn lemma_hash_at_prefix(a: Seq<char>, b: Seq<char>, p: int)
    requires
        a.len() > 0,
        a.last() == '\n',
        0 <= p < a.len(),
    ensures
        hash_at(a + b, p) == hash_at(a, p),
        hash_at(a, p) ==> p + HASH_OPEN@.len() + 41 < a.len(),
{
    let s = a + b;
    let n = a.len() as int;
    let q = p + HASH_OPEN@.len();
    lemma_openings_single_line();
    lemma_starts_at_prefix(a, b, p, HASH_OPEN@);
    if starts_at(a, p, HASH_OPEN@) {
        lemma_starts_at_before_line_feed(a, p, HASH_OPEN@);
        if q + 40 < n - 1 {
            assert forall|k: int| q <= k < q + 40 implies s[k] == a[k] by {}
            assert(s[q + 40] == a[q + 40]);
        } else if q + 40 == n - 1 {
            assert(s[q + 40] == a[q + 40]);
        } else if hash_at(s, p) {
            assert(q <= n - 1 < q + 40);
            assert(is_hash_char(s[n - 1]));
            assert(s[n - 1] == a[n - 1]);
        }
    }
}

proof fn lemma_magnets_shift(a: Seq<char>, b: Seq<char>, p: int)
    requires
        0 <= p,
    ensures
        magnets_from(a + b, a.len() + p) == magnets_from(b, p),
    decreases b.len() - p,
{
    let s = a + b;
    let n = a.len() as int;
    if p < b.len() {
        let q = p + HASH_OPEN@.len();
        lemma_starts_at_shift(a, b, p, HASH_OPEN@);
        if q + 40 < b.len() {
            assert forall|k: int| q <= k <= q + 40 implies s[n + k] == b[k] by {}
            assert((forall|k: int| n + q <= k < n + q + 40 ==> is_hash_char(#[trigger] s[k]))
                <==> (forall|k: int| q <= k < q + 40 ==> is_hash_char(#[trigger] b[k]))) by {
                assert forall|k: int| n + q <= k < n + q + 40 && (forall|j: int|
                    q <= j < q + 40 ==> is_hash_char(#[trigger] b[j])) implies is_hash_char(s[k]) by {
                    assert(s[k] == b[k - n]);
                }
                assert forall|k: int| q <= k < q + 40 && (forall|j: int|
                    n + q <= j < n + q + 40 ==> is_hash_char(#[trigger] s[j])) implies is_hash_char(b[k]) by {
                    assert(s[n + k] == b[k]);
                }
            }
            assert(s[n + q + 40] == b[q + 40]);
        }
        assert(hash_at(s, n + p) == hash_at(b, p));
        if hash_at(b, p) {
            lemma_magnets_shift(a, b, q + 41);
            assert(s.subrange(n + q, n + q + 40) =~= b.subrange(q, q + 40));
            assert(n + p + HASH_OPEN@.len() + 41 == n + (q + 41));
        } else {
            lemma_magnets_shift(a, b, p + 1);
            assert(n + p + 1 == n + (p + 1));
        }
    }
}

proof fn lemma_magnets_prefix(a: Seq<char>, b: Seq<char>, p: int)
    requires
        a.len() > 0,
        a.last() == '\n',
        0 <= p <= a.len(),
    ensures
        magnets_from(a + b, p) == magnets_from(a, p) + magnets_from(a + b, a.len() as int),
    decreases a.len() - p,
{
    let s = a + b;
    if p == a.len() {
        assert(magnets_from(a, p) + magnets_from(s, p) =~= magnets_from(s, p));
    } else {
        lemma_hash_at_prefix(a, b, p);
        let q = p + HASH_OPEN@.len();
        if hash_at(a, p) {
            lemma_magnets_prefix(a, b, q + 41);
            let m = MAGNET_PREFIX@ + a.subrange(q, q + 40);
            assert(s.subrange(q, q + 40) =~= a.subrange(q, q + 40));
            assert(magnets_from(s, p) == seq![m] + magnets_from(s, q + 41));
            assert(magnets_from(a, p) == seq![m] + magnets_from(a, q + 41));
            assert(seq![m] + (magnets_from(a, q + 41) + magnets_from(s, a.len() as int))
                =~= (seq![m] + magnets_from(a, q + 41)) + magnets_from(s, a.len() as int));
        } else {
            lemma_magnets_prefix(a, b, p + 1);
        }
    }
}

/// A text that ends with a line feed splits the magnet links at that point:
/// no info hash crosses a line break.
pub proof fn law_magnets_split_at_line_feed(a: Seq<char>, b: Seq<char>)
    requires
        a.len() > 0,
        a.last() == '\n',
    ensures
        magnets_in(a + b) == magnets_in(a) + magnets_in(b),
{
    lemma_magnets_prefix(a, b, 0);
    lemma_magnets_shift(a, b, 0);
}

} // verus!
