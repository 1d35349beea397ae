//! Character-level helpers over strings: whitespace, trimming, substring
//! search and the lexicographic order of strings.

use vstd::prelude::*;

verus! {

/// The characters with the Unicode `White_Space` property.
pub open spec fn is_space(c: char) -> bool {
    c == '\t' || c == '\n' || c == '\u{0B}' || c == '\u{0C}' || c == '\r' || c == ' '
        || c == '\u{85}' || c == '\u{A0}' || c == '\u{1680}' || ('\u{2000}' <= c
        && c <= '\u{200A}') || c == '\u{2028}' || c == '\u{2029}' || c == '\u{202F}'
        || c == '\u{205F}' || c == '\u{3000}'
}

pub fn is_space_char(c: char) -> (r: bool)
    ensures
        r == is_space(c),
{
    c == '\t' || c == '\n' || c == '\u{0B}' || c == '\u{0C}' || c == '\r' || c == ' '
        || c == '\u{85}' || c == '\u{A0}' || c == '\u{1680}' || ('\u{2000}' <= c
        && c <= '\u{200A}') || c == '\u{2028}' || c == '\u{2029}' || c == '\u{202F}'
        || c == '\u{205F}' || c == '\u{3000}'
}

/// The characters of `s`, in order.
pub fn chars_of(s: &str) -> (v: Vec<char>)
    ensures
        v@ == s@,
{
    let mut v: Vec<char> = Vec::new();
    for c in it: s.chars()
        invariant
            v@ == it.seq().subrange(0, it.index() as int),
    {
        v.push(c);
    }
    v
}


/// Every character of `s` is whitespace (the empty string included).
pub open spec fn is_blank(s: Seq<char>) -> bool {
    forall|i: int| 0 <= i < s.len() ==> is_space(#[trigger] s[i])
}

/// `s` without its leading whitespace.
pub open spec fn trim_start(s: Seq<char>) -> Seq<char>
    decreases s.len(),
{
    if s.len() > 0 && is_space(s[0]) {
        trim_start(s.drop_first())
    } else {
        s
    }
}

/// `s` without its trailing whitespace.
pub open spec fn trim_end(s: Seq<char>) -> Seq<char>
    decreases s.len(),
{
    if s.len() > 0 && is_space(s.last()) {
        trim_end(s.drop_last())
    } else {
        s
    }
}

/// `s` without its surrounding whitespace.
pub open spec fn trim(s: Seq<char>) -> Seq<char> {
    trim_end(trim_start(s))
}

/// `needle` occurs in `hay` as a contiguous run of characters.
pub open spec fn contains_seq(hay: Seq<char>, needle: Seq<char>) -> bool {
    exists|i: int|
        0 <= i && i + needle.len() <= hay.len() && #[trigger] hay.subrange(i, i + needle.len())
            == needle
}

/// Lexicographic order on character sequences, comparing code points; this
/// is the order of `String`.
pub open spec fn seq_lt(a: Seq<char>, b: Seq<char>) -> bool
    decreases a.len(),
{
    if a.len() == 0 {
        b.len() > 0
    } else if b.len() == 0 {
        false
    } else if a[0] != b[0] {
        a[0] < b[0]
    } else {
        seq_lt(a.drop_first(), b.drop_first())
    }
}

pub proof fn lemma_seq_lt_transitive(a: Seq<char>, b: Seq<char>, c: Seq<char>)
    requires
        seq_lt(a, b),
        seq_lt(b, c),
    ensures
        seq_lt(a, c),
    decreases a.len(),
{
    if a.len() > 0 && b.len() > 0 && c.len() > 0 && a[0] == b[0] && b[0] == c[0] {
        lemma_seq_lt_transitive(a.drop_first(), b.drop_first(), c.drop_first());
    }
}

pub proof fn lemma_seq_lt_total(a: Seq<char>, b: Seq<char>)
    ensures
        seq_lt(a, b) || seq_lt(b, a) || a == b,
    decreases a.len(),
{
    if a.len() > 0 && b.len() > 0 {
        if a[0] == b[0] {
            lemma_seq_lt_total(a.drop_first(), b.drop_first());
            if a.drop_first() == b.drop_first() {
                assert(a == seq![a[0]] + a.drop_first());
                assert(b == seq![b[0]] + b.drop_first());
            }
        }
    } else if a.len() == 0 && b.len() == 0 {
        assert(a == b);
    }
}

/// The position of the first `c` in `s`, or the length of `s` where there is
/// none.
pub open spec fn index_of(s: Seq<char>, c: char) -> int
    decreases s.len(),
{
    if s.len() == 0 {
        0
    } else if s[0] == c {
        0
    } else {
        1 + index_of(s.drop_first(), c)
    }
}

pub proof fn lemma_index_of(s: Seq<char>, c: char)
    ensures
        0 <= index_of(s, c) <= s.len(),
        forall|j: int| 0 <= j < index_of(s, c) ==> s[j] != c,
        index_of(s, c) < s.len() ==> s[index_of(s, c)] == c,
    decreases s.len(),
{
    if s.len() > 0 && s[0] != c {
        lemma_index_of(s.drop_first(), c);
        assert forall|j: int| 0 <= j < index_of(s, c) implies s[j] != c by {
            if j > 0 {
                assert(s[j] == s.drop_first()[j - 1]);
            }
        }
    }
}

/// The position of the first `x` in `c[a..b]`, counted from the start of `c`,
/// or `b` where there is none.
pub fn find_char(c: &Vec<char>, a: usize, b: usize, x: char) -> (r: usize)
    requires
        a <= b <= c.len(),
    ensures
        a <= r <= b,
        r == a + index_of(c@.subrange(a as int, b as int), x),
{
    let mut i = a;
    while i < b && c[i] != x
        invariant
            a <= i <= b <= c.len(),
            index_of(c@.subrange(a as int, b as int), x) == (i - a) + index_of(
                c@.subrange(i as int, b as int),
                x,
            ),
        decreases b - i,
    {
        assert(c@.subrange(i as int, b as int).drop_first() == c@.subrange(i + 1, b as int));
        i = i + 1;
    }
    i
}

/// The lower-case form of `s`.
pub uninterp spec fn lower_of(s: Seq<char>) -> Seq<char>;

/// Relies on `str::to_lowercase`: the lower-case form, which depends on the
/// characters alone; the empty string stays empty.
#[verifier::external_body]
pub(crate) fn lowercase(s: &str) -> (r: String)
    ensures
        r@ == lower_of(s@),
        s@.len() == 0 ==> r@.len() == 0,
{
    s.to_lowercase()
}

/// Whether every character of `s` is whitespace.
pub fn is_blank_str(s: &str) -> (r: bool)
    ensures
        r == is_blank(s@),
{
    let v = chars_of(s);
    let mut i: usize = 0;
    while i < v.len()
        invariant
            v@ == s@,
            i <= v.len(),
            forall|j: int| 0 <= j < i ==> is_space(#[trigger] s@[j]),
        decreases v.len() - i,
    {
        if !is_space_char(v[i]) {
            return false;
        }
        i = i + 1;
    }
    true
}

proof fn lemma_trim_start_step(c: Seq<char>, a: int, b: int)
    requires
        0 <= a < b <= c.len(),
        is_space(c[a]),
    ensures
        trim_start(c.subrange(a, b)) == trim_start(c.subrange(a + 1, b)),
{
    assert(c.subrange(a, b).drop_first() == c.subrange(a + 1, b));
}

proof fn lemma_trim_end_step(c: Seq<char>, a: int, b: int)
    requires
        0 <= a < b <= c.len(),
        is_space(c[b - 1]),
    ensures
        trim_end(c.subrange(a, b)) == trim_end(c.subrange(a, b - 1)),
{
    assert(c.subrange(a, b).drop_last() == c.subrange(a, b - 1));
}

/// The bounds of `c[a..b]` with its surrounding whitespace removed.
pub fn trim_bounds(c: &Vec<char>, a: usize, b: usize) -> (r: (usize, usize))
    requires
        a <= b <= c.len(),
    ensures
        a <= r.0 <= r.1 <= b,
        c@.subrange(r.0 as int, r.1 as int) == trim(c@.subrange(a as int, b as int)),
{
    let mut lo = a;
    while lo < b && is_space_char(c[lo])
        invariant
            a <= lo <= b <= c.len(),
            trim_start(c@.subrange(a as int, b as int)) == trim_start(
                c@.subrange(lo as int, b as int),
            ),
        decreases b - lo,
    {
        proof {
            lemma_trim_start_step(c@, lo as int, b as int);
        }
        lo = lo + 1;
    }
    assert(trim_start(c@.subrange(lo as int, b as int)) == c@.subrange(lo as int, b as int));
    let mut hi = b;
    while hi > lo && is_space_char(c[hi - 1])
        invariant
            a <= lo <= hi <= b <= c.len(),
            trim(c@.subrange(a as int, b as int)) == trim_end(c@.subrange(lo as int, hi as int)),
        decreases hi - lo,
    {
        proof {
            lemma_trim_end_step(c@, lo as int, hi as int);
        }
        hi = hi - 1;
    }
    (lo, hi)
}

/// Whether `c[a..b]` is the character sequence `lit`.
pub fn range_equals(c: &Vec<char>, a: usize, b: usize, lit: &Vec<char>) -> (r: bool)
    requires
        a <= b <= c.len(),
    ensures
        r == (c@.subrange(a as int, b as int) == lit@),
{
    if b - a != lit.len() {
        return false;
    }
    let mut i: usize = 0;
    while i < lit.len()
        invariant
            b - a == lit.len(),
            a <= b <= c.len(),
            i <= lit.len(),
            forall|j: int| 0 <= j < i ==> c@[a + j] == lit@[j],
        decreases lit.len() - i,
    {
        if c[a + i] != lit[i] {
            assert(c@.subrange(a as int, b as int)[i as int] != lit@[i as int]);
            return false;
        }
        i = i + 1;
    }
    assert(c@.subrange(a as int, b as int) == lit@);
    true
}

/// Whether `needle` occurs in `hay`.
pub fn contains_str(hay: &str, needle: &str) -> (r: bool)
    ensures
        r == contains_seq(hay@, needle@),
{
    let h = chars_of(hay);
    let n = chars_of(needle);
    if n.len() > h.len() {
        return false;
    }
    let mut i: usize = 0;
    while n.len() <= h.len() - i
        invariant
            h@ == hay@,
            n@ == needle@,
            i <= h.len(),
            forall|k: int| 0 <= k < i ==> #[trigger] hay@.subrange(k, k + needle@.len()) != needle@,
        decreases h.len() - i,
    {
        if range_equals(&h, i, i + n.len(), &n) {
            return true;
        }
        proof {
            if n.len() == 0 {
                assert(h@.subrange(i as int, i as int) =~= n@);
            }
        }
        i = i + 1;
    }
    assert forall|k: int|
        0 <= k && k + needle@.len() <= hay@.len() implies #[trigger] hay@.subrange(
        k,
        k + needle@.len(),
    ) != needle@ by {}
    false
}

/// Whether `a` comes strictly before `b` in the order of strings.
pub fn str_lt(a: &str, b: &str) -> (r: bool)
    ensures
        r == seq_lt(a@, b@),
{
    let x = chars_of(a);
    let y = chars_of(b);
    let mut i: usize = 0;
    assert(a@.subrange(0, a@.len() as int) == a@);
    assert(b@.subrange(0, b@.len() as int) == b@);
    while i < x.len() && i < y.len() && x[i] == y[i]
        invariant
            x@ == a@,
            y@ == b@,
            i <= x.len(),
            i <= y.len(),
            seq_lt(a@, b@) == seq_lt(a@.subrange(i as int, a@.len() as int), b@.subrange(i as int, b@.len() as int)),
        decreases x.len() - i,
    {
        proof {
            let sa = a@.subrange(i as int, a@.len() as int);
            let sb = b@.subrange(i as int, b@.len() as int);
            assert(sa.drop_first() == a@.subrange(i + 1, a@.len() as int));
            assert(sb.drop_first() == b@.subrange(i + 1, b@.len() as int));
        }
        i = i + 1;
    }
    proof {
        let sa = a@.subrange(i as int, a@.len() as int);
        let sb = b@.subrange(i as int, b@.len() as int);
        if sa.len() > 0 && sb.len() > 0 {
            assert(sa[0] == x@[i as int]);
            assert(sb[0] == y@[i as int]);
        }
    }
    if i == x.len() {
        i < y.len()
    } else if i == y.len() {
        false
    } else {
        x[i] < y[i]
    }
}

/// Each element comes strictly before the next, so none occurs twice.
pub open spec fn strictly_sorted(s: Seq<Seq<char>>) -> bool {
    forall|i: int, j: int| 0 <= i < j < s.len() ==> seq_lt(#[trigger] s[i], #[trigger] s[j])
}

/// Adds `x` to the strictly sorted `v`, where it is not there yet.
pub fn insert_sorted(v: &mut Vec<String>, x: String)
    requires
        strictly_sorted(old(v).deep_view()),
    ensures
        strictly_sorted(final(v).deep_view()),
        final(v).deep_view().to_set() == old(v).deep_view().to_set().insert(x@),
        forall|k: int|
            0 <= k < final(v).len() ==> old(v).deep_view().contains(#[trigger] final(v).deep_view()[k])
                || final(v).deep_view()[k] == x@,
{
    let ghost o = v.deep_view();
    let mut i: usize = 0;
    while i < v.len() && str_lt(v[i].as_str(), x.as_str())
        invariant
            o == v.deep_view(),
            i <= v.len(),
            forall|j: int| 0 <= j < i ==> seq_lt(#[trigger] o[j], x@),
        decreases v.len() - i,
    {
        i = i + 1;
    }
    if i < v.len() && v[i] == x {
        assert(o.to_set().insert(x@) =~= o.to_set()) by {
            assert(o[i as int] == x@);
        }
        return;
    }
    proof {
        if i < o.len() {
            lemma_seq_lt_total(o[i as int], x@);
        }
    }
    v.insert(i, x);
    let ghost n = v.deep_view();
    assert forall|k: int| 0 <= k < n.len() implies #[trigger] n[k] == (if k < i {
        o[k]
    } else if k == i {
        x@
    } else {
        o[k - 1]
    }) by {
        if k < i {
            assert(v@[k] == old(v)@[k]);
        } else if k > i {
            assert(v@[k] == old(v)@[k - 1]);
        }
    }
    assert forall|a: int, b: int| 0 <= a < b < n.len() implies seq_lt(#[trigger] n[a], #[trigger] n[b]) by {
        if a == i && b > i + 1 {
            lemma_seq_lt_transitive(x@, o[i as int], o[b - 1]);
        } else if a < i && b > i {
            assert(seq_lt(o[a], o[b - 1]));
        }
    }
    assert(n.to_set() =~= o.to_set().insert(x@)) by {
        assert(n[i as int] == x@);
        assert forall|y: Seq<char>| o.to_set().contains(y) implies n.to_set().contains(y) by {
            let k = choose|k: int| 0 <= k < o.len() && o[k] == y;
            if k < i {
                assert(n[k] == y);
            } else {
                assert(n[k + 1] == y);
            }
        }
    }
}

} // verus!
