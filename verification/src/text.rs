//! Character-level helpers on strings, with their specifications: building
//! strings, Unicode whitespace trimming and the lexicographic order of strings.

use vstd::prelude::*;
use vstd::utf8::{encode_utf8, encode_utf8_decode_utf8};

verus! {

/// Appends one character to a string (`String::push`).
/// Claimed: the string afterwards holds its former characters followed by `c`.
#[verifier::external_body]
pub(crate) fn push_char(s: &mut String, c: char)
    ensures
        final(s)@ == old(s)@.push(c),
{
    s.push(c);
}

/// The characters of `s`, in order.
pub fn chars_of(s: &str) -> (v: Vec<char>)
    ensures
        v@ == s@,
{
    let mut v: Vec<char> = Vec::new();
    for c in it: s.chars()
        invariant
            v@ == it.seq().take(it.index()),
    {
        v.push(c);
    }
    v
}

/// The string made of `chars[lo..hi]`.
pub fn string_of_range(chars: &Vec<char>, lo: usize, hi: usize) -> (s: String)
    requires
        lo <= hi <= chars@.len(),
    ensures
        s@ == chars@.subrange(lo as int, hi as int),
{
    let mut s = String::new();
    let mut i = lo;
    while i < hi
        invariant
            lo <= i <= hi <= chars@.len(),
            s@ == chars@.subrange(lo as int, i as int),
        decreases hi - i,
    {
        push_char(&mut s, chars[i]);
        i = i + 1;
    }
    s
}

/// The string `prefix` followed by `chars[lo..hi]`.
pub fn prefixed_range(prefix: &str, chars: &Vec<char>, lo: usize, hi: usize) -> (s: String)
    requires
        lo <= hi <= chars@.len(),
    ensures
        s@ == prefix@ + chars@.subrange(lo as int, hi as int),
{
    let mut s = prefix.to_owned();
    let mut i = lo;
    while i < hi
        invariant
            lo <= i <= hi <= chars@.len(),
            s@ == prefix@ + chars@.subrange(lo as int, i as int),
        decreases hi - i,
    {
        push_char(&mut s, chars[i]);
        i = i + 1;
    }
    s
}

/// Whether two strings hold the same characters.
pub fn same_text(a: &str, b: &str) -> (r: bool)
    ensures
        r == (a@ == b@),
{
    let x = a.to_owned();
    let y = b.to_owned();
    x == y
}

/// The characters with the Unicode property White_Space, which is what
/// `char::is_whitespace` and `str::trim` go by.
pub open spec fn is_white_space(c: char) -> bool {
    let n = c as u32;
    ||| 0x9 <= n <= 0xd
    ||| n == 0x20
    ||| n == 0x85
    ||| n == 0xa0
    ||| n == 0x1680
    ||| 0x2000 <= n <= 0x200a
    ||| n == 0x2028
    ||| n == 0x2029
    ||| n == 0x202f
    ||| n == 0x205f
    ||| n == 0x3000
}

/// `s` without its leading whitespace.
pub open spec fn trim_start(s: Seq<char>) -> Seq<char>
    decreases s.len(),
{
    if s.len() > 0 && is_white_space(s[0]) {
        trim_start(s.drop_first())
    } else {
        s
    }
}

/// `s` without its trailing whitespace.
pub open spec fn trim_end(s: Seq<char>) -> Seq<char>
    decreases s.len(),
{
    if s.len() > 0 && is_white_space(s.last()) {
        trim_end(s.drop_last())
    } else {
        s
    }
}

/// `s` without leading and trailing whitespace, as `str::trim` gives it.
pub open spec fn trimmed(s: Seq<char>) -> Seq<char> {
    trim_end(trim_start(s))
}

/// Whether `c` has the White_Space property.
pub fn white_space(c: char) -> (r: bool)
    ensures
        r == is_white_space(c),
{
    let n = c as u32;
    (0x9 <= n && n <= 0xd) || n == 0x20 || n == 0x85 || n == 0xa0 || n == 0x1680 || (0x2000 <= n
        && n <= 0x200a) || n == 0x2028 || n == 0x2029 || n == 0x202f || n == 0x205f || n == 0x3000
}

/// `s` with leading and trailing whitespace removed.
pub fn trim(s: &str) -> (r: String)
    ensures
        r@ == trimmed(s@),
{
    let v = chars_of(s);
    let n = v.len();
    let mut lo: usize = 0;
    assert(v@.subrange(0, n as int) =~= v@);
    while lo < n && white_space(v[lo])
        invariant
            lo <= n == v@.len(),
            trim_start(v@) == trim_start(v@.subrange(lo as int, n as int)),
        decreases n - lo,
    {
        assert(v@.subrange(lo as int, n as int).drop_first() =~= v@.subrange(lo + 1, n as int));
        lo = lo + 1;
    }
    assert(trim_start(v@) == v@.subrange(lo as int, n as int));
    let mut hi: usize = n;
    while hi > lo && white_space(v[hi - 1])
        invariant
            lo <= hi <= n == v@.len(),
            trim_end(v@.subrange(lo as int, n as int)) == trim_end(
                v@.subrange(lo as int, hi as int),
            ),
        decreases hi - lo,
    {
        assert(v@.subrange(lo as int, hi as int).drop_last() =~= v@.subrange(
            lo as int,
            hi - 1,
        ));
        hi = hi - 1;
    }
    string_of_range(&v, lo, hi)
}

/// The lexicographic order of byte sequences.
pub open spec fn bytes_le(a: Seq<u8>, b: Seq<u8>) -> bool
    decreases a.len(),
{
    if a.len() == 0 {
        true
    } else if b.len() == 0 {
        false
    } else if a[0] != b[0] {
        a[0] < b[0]
    } else {
        bytes_le(a.drop_first(), b.drop_first())
    }
}

/// The order of strings, as `str` and `String` compare: lexicographic over
/// their UTF-8 bytes.
pub open spec fn text_le(a: Seq<char>, b: Seq<char>) -> bool {
    bytes_le(encode_utf8(a), encode_utf8(b))
}

proof fn lemma_bytes_le_reflexive(a: Seq<u8>)
    ensures
        bytes_le(a, a),
    decreases a.len(),
{
    if a.len() > 0 {
        lemma_bytes_le_reflexive(a.drop_first());
    }
}

proof fn lemma_bytes_le_total(a: Seq<u8>, b: Seq<u8>)
    ensures
        bytes_le(a, b) || bytes_le(b, a),
    decreases a.len(),
{
    if a.len() > 0 && b.len() > 0 && a[0] == b[0] {
        lemma_bytes_le_total(a.drop_first(), b.drop_first());
    }
}

proof fn lemma_bytes_le_antisymmetric(a: Seq<u8>, b: Seq<u8>)
    requires
        bytes_le(a, b),
        bytes_le(b, a),
    ensures
        a == b,
    decreases a.len(),
{
    if a.len() > 0 && b.len() > 0 {
        lemma_bytes_le_antisymmetric(a.drop_first(), b.drop_first());
        assert(a =~= seq![a[0]] + a.drop_first());
        assert(b =~= seq![b[0]] + b.drop_first());
    }
}

proof fn lemma_bytes_le_transitive(a: Seq<u8>, b: Seq<u8>, c: Seq<u8>)
    requires
        bytes_le(a, b),
        bytes_le(b, c),
    ensures
        bytes_le(a, c),
    decreases a.len(),
{
    if a.len() > 0 && b.len() > 0 && c.len() > 0 && a[0] == b[0] && b[0] == c[0] {
        lemma_bytes_le_transitive(a.drop_first(), b.drop_first(), c.drop_first());
    }
}

/// Every string is ordered before or equal to itself.
pub proof fn lemma_text_le_reflexive(a: Seq<char>)
    ensures
        text_le(a, a),
{
    lemma_bytes_le_reflexive(encode_utf8(a));
}

/// Any two strings are ordered one way or the other.
pub proof fn lemma_text_le_total(a: Seq<char>, b: Seq<char>)
    ensures
        text_le(a, b) || text_le(b, a),
{
    lemma_bytes_le_total(encode_utf8(a), encode_utf8(b));
}

/// Strings ordered both ways are equal: their UTF-8 bytes are, and decoding
/// them gives back the strings.
pub proof fn lemma_text_le_antisymmetric(a: Seq<char>, b: Seq<char>)
    requires
        text_le(a, b),
        text_le(b, a),
    ensures
        a == b,
{
    lemma_bytes_le_antisymmetric(encode_utf8(a), encode_utf8(b));
    encode_utf8_decode_utf8(a);
    encode_utf8_decode_utf8(b);
}

/// The order of strings is transitive.
pub proof fn lemma_text_le_transitive(a: Seq<char>, b: Seq<char>, c: Seq<char>)
    requires
        text_le(a, b),
        text_le(b, c),
    ensures
        text_le(a, c),
{
    lemma_bytes_le_transitive(encode_utf8(a), encode_utf8(b), encode_utf8(c));
}

/// Whether the bytes `x` begin the bytes `y`.
pub open spec fn bytes_prefix(x: Seq<u8>, y: Seq<u8>) -> bool {
    x.len() <= y.len() && x == y.take(x.len() as int)
}

/// Whether `x` and `y` agree on their first `i` bytes and `x`'s byte `i` is the
/// smaller.
pub open spec fn smaller_at(x: Seq<u8>, y: Seq<u8>, i: int) -> bool {
    0 <= i < x.len() && i < y.len() && x.take(i) == y.take(i) && x[i] < y[i]
}

proof fn lemma_bytes_le_lexicographic(x: Seq<u8>, y: Seq<u8>)
    ensures
        bytes_le(x, y) <==> (bytes_prefix(x, y) || exists|i: int| #[trigger] smaller_at(x, y, i)),
    decreases x.len(),
{
    if x.len() == 0 {
        assert(x =~= y.take(0));
    } else if y.len() == 0 {
        if exists|i: int| #[trigger] smaller_at(x, y, i) {
            let i = choose|i: int| #[trigger] smaller_at(x, y, i);
        }
    } else if x[0] != y[0] {
        if x[0] < y[0] {
            assert(x.take(0) =~= y.take(0));
            assert(smaller_at(x, y, 0));
        } else {
            if bytes_prefix(x, y) {
                assert(x[0] == y.take(x.len() as int)[0]);
            }
            if exists|i: int| #[trigger] smaller_at(x, y, i) {
                let i = choose|i: int| #[trigger] smaller_at(x, y, i);
                if i > 0 {
                    assert(x.take(i)[0] == y.take(i)[0]);
                }
            }
        }
    } else {
        let xs = x.drop_first();
        let ys = y.drop_first();
        lemma_bytes_le_lexicographic(xs, ys);
        if bytes_prefix(x, y) {
            assert(xs =~= ys.take(xs.len() as int)) by {
                assert forall|k: int| 0 <= k < xs.len() implies #[trigger] xs[k] == ys.take(xs.len() as int)[k] by {
                    assert(x[k + 1] == y.take(x.len() as int)[k + 1]);
                }
            }
        }
        if bytes_prefix(xs, ys) {
            assert(x =~= y.take(x.len() as int)) by {
                assert forall|k: int| 0 <= k < x.len() implies #[trigger] x[k] == y.take(x.len() as int)[k] by {
                    if k > 0 {
                        assert(xs[k - 1] == ys.take(xs.len() as int)[k - 1]);
                    }
                }
            }
        }
        if exists|i: int| #[trigger] smaller_at(x, y, i) {
            let i = choose|i: int| #[trigger] smaller_at(x, y, i);
            if i == 0 {
                assert(false);
            }
            assert(xs.take(i - 1) =~= ys.take(i - 1)) by {
                assert forall|k: int| 0 <= k < i - 1 implies #[trigger] xs.take(i - 1)[k] == ys.take(i - 1)[k] by {
                    assert(x.take(i)[k + 1] == y.take(i)[k + 1]);
                }
            }
            assert(smaller_at(xs, ys, i - 1));
        }
        if exists|i: int| #[trigger] smaller_at(xs, ys, i) {
            let i = choose|i: int| #[trigger] smaller_at(xs, ys, i);
            assert(x.take(i + 1) =~= y.take(i + 1)) by {
                assert forall|k: int| 0 <= k < i + 1 implies #[trigger] x.take(i + 1)[k] == y.take(i + 1)[k] by {
                    if k > 0 {
                        assert(xs.take(i)[k - 1] == ys.take(i)[k - 1]);
                    }
                }
            }
            assert(smaller_at(x, y, i + 1));
        }
    }
}

/// The order of strings is lexicographic over their UTF-8 bytes, as `str`
/// compares: `a` comes before or equal to `b` exactly when `a`'s bytes begin
/// `b`'s, or the two agree up to a byte where `a`'s is the smaller, whatever
/// their lengths.
pub proof fn law_text_order_is_lexicographic(a: Seq<char>, b: Seq<char>)
    ensures
        text_le(a, b) <==> (bytes_prefix(encode_utf8(a), encode_utf8(b)) || exists|i: int|
            #[trigger] smaller_at(encode_utf8(a), encode_utf8(b), i)),
{
    lemma_bytes_le_lexicographic(encode_utf8(a), encode_utf8(b));
}

/// No printable ASCII character is whitespace: only the space and the controls
/// tab, line feed, vertical tab, form feed and carriage return are, below 0x80.
pub proof fn law_white_space_ascii(c: char)
    ensures
        0x21 <= (c as u32) <= 0x7e ==> !is_white_space(c),
        (c as u32) < 0x80 ==> (is_white_space(c) <==> ((c as u32) == 0x20 || 0x9 <= (c as u32)
            <= 0xd)),
{
}

/// Trimming keeps a text whose first and last characters are printable ASCII
/// other than the space.
pub proof fn law_trim_keeps_printable_ends(s: Seq<char>)
    requires
        s.len() > 0,
        0x21 <= (s[0] as u32) <= 0x7e,
        0x21 <= (s.last() as u32) <= 0x7e,
    ensures
        trimmed(s) == s,
{
    assert(trim_start(s) == s);
    assert(trim_end(s) == s);
}

/// Whether `a` is ordered before or equal to `b`.
pub fn text_less_eq(a: &str, b: &str) -> (r: bool)
    ensures
        r == text_le(a@, b@),
{
    let x = a.as_bytes();
    let y = b.as_bytes();
    let mut i: usize = 0;
    assert(x@.skip(0) =~= x@);
    assert(y@.skip(0) =~= y@);
    while i < x.len() && i < y.len() && x[i] == y[i]
        invariant
            i <= x@.len(),
            i <= y@.len(),
            bytes_le(x@, y@) == bytes_le(x@.skip(i as int), y@.skip(i as int)),
        decreases x@.len() - i,
    {
        assert(x@.skip(i as int).drop_first() =~= x@.skip(i + 1));
        assert(y@.skip(i as int).drop_first() =~= y@.skip(i + 1));
        i = i + 1;
    }
    if i == x.len() {
        true
    } else if i == y.len() {
        false
    } else {
        x[i] < y[i]
    }
}

/// The characters of each string.
pub open spec fn strings_view(v: Seq<String>) -> Seq<Seq<char>> {
    v.map_values(|s: String| s@)
}

/// Whether `lit` occurs in `s` at position `p`.
pub open spec fn starts_at(s: Seq<char>, p: int, lit: Seq<char>) -> bool {
    0 <= p && p + lit.len() <= s.len() && s.subrange(p, p + lit.len()) == lit
}

/// Whether `lit` occurs in `s` at position `p`.
pub fn occurs_at(s: &Vec<char>, p: usize, lit: &Vec<char>) -> (r: bool)
    ensures
        r == starts_at(s@, p as int, lit@),
{
    if p > s.len() || lit.len() > s.len() - p {
        return false;
    }
    let mut k: usize = 0;
    while k < lit.len()
        invariant
            p + lit@.len() <= s@.len(),
            s@.len() == s.len(),
            k <= lit@.len(),
            forall|j: int| 0 <= j < k ==> s@[p + j] == lit@[j],
        decreases lit@.len() - k,
    {
        if s[p + k] != lit[k] {
            assert(s@.subrange(p as int, p + lit@.len())[k as int] != lit@[k as int]);
            return false;
        }
        k = k + 1;
    }
    assert(s@.subrange(p as int, p + lit@.len()) =~= lit@);
    true
}

proof fn lemma_trim_start(s: Seq<char>)
    ensures
        trim_start(s).len() > 0 ==> !is_white_space(trim_start(s)[0]),
        exists|i: int| 0 <= i <= s.len() && trim_start(s) == s.subrange(i, s.len() as int),
    decreases s.len(),
{
    if s.len() > 0 && is_white_space(s[0]) {
        lemma_trim_start(s.drop_first());
        let i = choose|i: int|
            0 <= i <= s.drop_first().len() && trim_start(s.drop_first()) == s.drop_first().subrange(
                i,
                s.drop_first().len() as int,
            );
        assert(s.drop_first().subrange(i, s.drop_first().len() as int) =~= s.subrange(
            i + 1,
            s.len() as int,
        ));
    } else {
        assert(s.subrange(0, s.len() as int) =~= s);
    }
}

proof fn lemma_trim_end(s: Seq<char>)
    ensures
        trim_end(s).len() > 0 ==> !is_white_space(trim_end(s).last()),
        trim_end(s).len() > 0 && s.len() > 0 ==> trim_end(s)[0] == s[0],
        exists|j: int| 0 <= j <= s.len() && trim_end(s) == s.subrange(0, j),
    decreases s.len(),
{
    if s.len() > 0 && is_white_space(s.last()) {
        lemma_trim_end(s.drop_last());
        let j = choose|j: int|
            0 <= j <= s.drop_last().len() && trim_end(s.drop_last()) == s.drop_last().subrange(0, j);
        assert(s.drop_last().subrange(0, j) =~= s.subrange(0, j));
    } else {
        assert(s.subrange(0, s.len() as int) =~= s);
    }
}

/// Trimming leaves no whitespace at either end, and keeps a contiguous part of
/// the text.
pub proof fn law_trimmed_has_no_outer_space(s: Seq<char>)
    ensures
        trimmed(s).len() > 0 ==> !is_white_space(trimmed(s)[0]) && !is_white_space(
            trimmed(s).last(),
        ),
        exists|i: int, j: int| 0 <= i <= j <= s.len() && trimmed(s) == s.subrange(i, j),
{
    lemma_trim_start(s);
    lemma_trim_end(trim_start(s));
    let t = trim_start(s);
    let i = choose|i: int| 0 <= i <= s.len() && t == s.subrange(i, s.len() as int);
    let j = choose|j: int| 0 <= j <= t.len() && trim_end(t) == t.subrange(0, j);
    assert(t.subrange(0, j) =~= s.subrange(i, i + j));
}

} // verus!
