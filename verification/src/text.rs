//! Character classes and the spec-level machinery for scanning text:
//! first-index-of searches, whitespace trimming, and string equality.
use vstd::prelude::*;

verus! {

/// What `char::is_alphabetic` returns; the result depends on the character
/// alone, so it can be given a name that contracts may use.
pub uninterp spec fn alpha_char(c: char) -> bool;

/// Relies on `char::is_alphabetic`: the Unicode `Alphabetic` property, which
/// within ASCII holds exactly for the letters `A`-`Z` and `a`-`z`.
#[verifier::external_body]
pub fn is_alpha(c: char) -> (r: bool)
    ensures
        r == alpha_char(c),
        (c as u32) < 128 ==> (r <==> (65 <= (c as u32) <= 90 || 97 <= (c as u32) <= 122)),
{
    c.is_alphabetic()
}

/// The Unicode `White_Space` property, written out: this is the list that
/// `char::is_whitespace` documents.
pub open spec fn ws_char(c: char) -> bool {
    ||| 0x9 <= (c as u32) <= 0xd
    ||| (c as u32) == 0x20
    ||| (c as u32) == 0x85
    ||| (c as u32) == 0xa0
    ||| (c as u32) == 0x1680
    ||| 0x2000 <= (c as u32) <= 0x200a
    ||| (c as u32) == 0x2028
    ||| (c as u32) == 0x2029
    ||| (c as u32) == 0x202f
    ||| (c as u32) == 0x205f
    ||| (c as u32) == 0x3000
}

pub fn is_ws(c: char) -> (r: bool)
    ensures
        r == ws_char(c),
{
    let u = c as u32;
    (0x9 <= u && u <= 0xd) || u == 0x20 || u == 0x85 || u == 0xa0 || u == 0x1680
        || (0x2000 <= u && u <= 0x200a) || u == 0x2028 || u == 0x2029 || u == 0x202f
        || u == 0x205f || u == 0x3000
}

pub open spec fn digit_char(c: char) -> bool {
    48 <= (c as u32) <= 57
}

pub open spec fn digit_val(c: char) -> int {
    (c as u32) - 48
}

pub fn is_digit(c: char) -> (r: bool)
    ensures
        r == digit_char(c),
{
    let u = c as u32;
    48 <= u && u <= 57
}

/// Index of the first character at or after `from` satisfying `p`, or the
/// length of `s` if there is none.
pub open spec fn first_from(s: Seq<char>, from: int, p: spec_fn(char) -> bool) -> int
    decreases s.len() - from,
{
    if from < 0 || from >= s.len() {
        s.len() as int
    } else if p(s[from]) {
        from
    } else {
        first_from(s, from + 1, p)
    }
}

pub proof fn lemma_first_from(s: Seq<char>, from: int, p: spec_fn(char) -> bool)
    requires
        0 <= from <= s.len(),
    ensures
        from <= first_from(s, from, p) <= s.len(),
        first_from(s, from, p) < s.len() ==> p(s[first_from(s, from, p)]),
        forall|i: int| from <= i < first_from(s, from, p) ==> !p(#[trigger] s[i]),
    decreases s.len() - from,
{
    if from < s.len() && !p(s[from]) {
        lemma_first_from(s, from + 1, p);
    }
}

/// A search can be started anywhere in the unsearched region without
/// changing the result.
pub proof fn lemma_first_from_shift(s: Seq<char>, from: int, mid: int, p: spec_fn(char) -> bool)
    requires
        0 <= from <= mid <= s.len(),
        forall|i: int| from <= i < mid ==> !p(#[trigger] s[i]),
    ensures
        first_from(s, from, p) == first_from(s, mid, p),
    decreases s.len() - from,
{
    if from < mid {
        lemma_first_from_shift(s, from + 1, mid, p);
    }
}

/// `s` with leading and trailing whitespace removed.
pub open spec fn trim_spec(s: Seq<char>) -> Seq<char> {
    let a = first_from(s, 0, |c: char| !ws_char(c));
    if a == s.len() {
        Seq::<char>::empty()
    } else {
        let b = last_non_ws(s);
        s.subrange(a, b + 1)
    }
}

/// Index of the last non-whitespace character of `s` (meaningful only when
/// one exists).
pub open spec fn last_non_ws(s: Seq<char>) -> int
    decreases s.len(),
{
    if s.len() == 0 {
        -1
    } else if !ws_char(s.last()) {
        s.len() - 1
    } else {
        last_non_ws(s.drop_last())
    }
}

pub proof fn lemma_last_non_ws(s: Seq<char>)
    ensures
        -1 <= last_non_ws(s) < s.len(),
        last_non_ws(s) >= 0 ==> !ws_char(s[last_non_ws(s)]),
        forall|i: int| last_non_ws(s) < i < s.len() ==> ws_char(#[trigger] s[i]),
        (last_non_ws(s) == -1) <==> (forall|i: int| 0 <= i < s.len() ==> ws_char(#[trigger] s[i])),
    decreases s.len(),
{
    if s.len() > 0 && ws_char(s.last()) {
        lemma_last_non_ws(s.drop_last());
        assert forall|i: int| last_non_ws(s) < i < s.len() implies ws_char(#[trigger] s[i]) by {
            if i < s.len() - 1 {
                assert(s.drop_last()[i] == s[i]);
            }
        }
    }
}

pub proof fn lemma_trim_spec(s: Seq<char>)
    ensures
        trim_spec(s).len() <= s.len(),
        trim_spec(s).len() > 0 ==> !ws_char(trim_spec(s)[0]) && !ws_char(trim_spec(s).last()),
        (trim_spec(s).len() == 0) <==> (forall|i: int| 0 <= i < s.len() ==> ws_char(#[trigger] s[i])),
{
    let p = |c: char| !ws_char(c);
    lemma_first_from(s, 0, p);
    lemma_last_non_ws(s);
    let a = first_from(s, 0, p);
    if a < s.len() {
        let b = last_non_ws(s);
        assert(!ws_char(s[a]));
        assert(b >= a) by {
            if b < a {
                assert(ws_char(s[a]));
            }
        }
        assert(trim_spec(s)[0] == s[a]);
        assert(trim_spec(s).last() == s[b]);
    }
}

/// Exact executable counterpart of `trim_spec`, working on character
/// indices.
pub fn trim_str<'a>(s: &'a str) -> (r: &'a str)
    ensures
        r@ == trim_spec(s@),
{
    let n = s.unicode_len();
    let mut a: usize = 0;
    while a < n && is_ws(s.get_char(a))
        invariant
            0 <= a <= n,
            n == s@.len(),
            forall|i: int| 0 <= i < a ==> ws_char(#[trigger] s@[i]),
        decreases n - a,
    {
        a = a + 1;
    }
    proof {
        lemma_first_from_shift(s@, 0, a as int, |c: char| !ws_char(c));
        lemma_first_from(s@, a as int, |c: char| !ws_char(c));
    }
    if a == n {
        proof {
            lemma_trim_spec(s@);
        }
        let r = s.substring_char(n, n);
        proof {
            assert(r@ =~= trim_spec(s@));
        }
        return r;
    }
    let mut b: usize = n;
    while b > a && is_ws(s.get_char(b - 1))
        invariant
            a <= b <= n,
            n == s@.len(),
            a < n,
            !ws_char(s@[a as int]),
            forall|i: int| b <= i < n ==> ws_char(#[trigger] s@[i]),
        decreases b,
    {
        b = b - 1;
    }
    proof {
        lemma_last_non_ws(s@);
        // b - 1 is the last non-whitespace index
        assert(b > a);
        assert(!ws_char(s@[b - 1]));
        assert(last_non_ws(s@) == b - 1) by {
            let l = last_non_ws(s@);
            if l > b - 1 {
                assert(ws_char(s@[l]));
            }
            if l < b - 1 {
                assert(ws_char(s@[b - 1]));
            }
        }
        assert(first_from(s@, 0, |c: char| !ws_char(c)) == a as int);
    }
    let r = s.substring_char(a, b);
    proof {
        assert(r@ =~= trim_spec(s@));
    }
    r
}

/// `s` with leading whitespace removed.
pub open spec fn trim_start_spec(s: Seq<char>) -> Seq<char> {
    s.skip(first_from(s, 0, |c: char| !ws_char(c)))
}

pub fn trim_start_str<'a>(s: &'a str) -> (r: &'a str)
    ensures
        r@ == trim_start_spec(s@),
{
    let n = s.unicode_len();
    let mut a: usize = 0;
    while a < n && is_ws(s.get_char(a))
        invariant
            0 <= a <= n,
            n == s@.len(),
            forall|i: int| 0 <= i < a ==> ws_char(#[trigger] s@[i]),
        decreases n - a,
    {
        a = a + 1;
    }
    proof {
        lemma_first_from_shift(s@, 0, a as int, |c: char| !ws_char(c));
        lemma_first_from(s@, a as int, |c: char| !ws_char(c));
    }
    let r = s.substring_char(a, n);
    proof {
        assert(r@ =~= trim_start_spec(s@));
    }
    r
}

/// The suffix of `s` from the first non-whitespace character at or after
/// `from`.
pub fn after_ws<'a>(s: &'a str, from: usize) -> (r: &'a str)
    requires
        from <= s@.len(),
    ensures
        r@ == s@.skip(first_from(s@, from as int, |c: char| !ws_char(c))),
{
    let n = s.unicode_len();
    let mut p = from;
    while p < n && is_ws(s.get_char(p))
        invariant
            from <= p <= n,
            n == s@.len(),
            forall|i: int| from <= i < p ==> ws_char(#[trigger] s@[i]),
        decreases n - p,
    {
        p = p + 1;
    }
    proof {
        lemma_first_from_shift(s@, from as int, p as int, |c: char| !ws_char(c));
        lemma_first_from(s@, p as int, |c: char| !ws_char(c));
    }
    let r = s.substring_char(p, n);
    proof {
        assert(r@ =~= s@.skip(first_from(s@, from as int, |c: char| !ws_char(c))));
    }
    r
}

/// Whether `c` introduces an end-of-line comment.
pub open spec fn spec_is_comment_char(c: char) -> bool {
    c == ';' || c == '#'
}

/// Index of the rightmost comment character of the last physical line of
/// `s`, or -1: scanning from the end, the first comment character found
/// before any newline.
pub open spec fn comment_cut(s: Seq<char>) -> int
    decreases s.len(),
{
    if s.len() == 0 {
        -1
    } else if s.last() == '\n' {
        -1
    } else if spec_is_comment_char(s.last()) {
        s.len() - 1
    } else {
        comment_cut(s.drop_last())
    }
}

/// `s` cut at the rightmost comment character of its last physical line.
pub open spec fn trim_comment_spec(s: Seq<char>) -> Seq<char> {
    if comment_cut(s) >= 0 {
        s.take(comment_cut(s))
    } else {
        s
    }
}

/// Characters at or after `m` that are neither newlines nor comment starts
/// do not affect the cut.
pub proof fn lemma_cut_scan(s: Seq<char>, m: int)
    requires
        0 <= m <= s.len(),
        forall|i: int| m <= i < s.len() ==> (#[trigger] s[i]) != '\n' && !spec_is_comment_char(
            s[i],
        ),
    ensures
        comment_cut(s) == comment_cut(s.take(m)),
    decreases s.len() - m,
{
    if m < s.len() {
        assert(s.drop_last() =~= s.take(s.len() - 1));
        lemma_cut_scan(s.take(s.len() - 1), m);
        assert(s.take(s.len() - 1).take(m) =~= s.take(m));
    } else {
        assert(s.take(m) =~= s);
    }
}

/// Character-for-character equality of two string slices.
pub fn str_eq(a: &str, b: &str) -> (r: bool)
    ensures
        r == (a@ == b@),
{
    let n = a.unicode_len();
    if n != b.unicode_len() {
        proof {
            assert(a@ != b@);
        }
        return false;
    }
    let mut i: usize = 0;
    while i < n
        invariant
            0 <= i <= n,
            n == a@.len(),
            n == b@.len(),
            forall|j: int| 0 <= j < i ==> a@[j] == b@[j],
        decreases n - i,
    {
        if a.get_char(i) != b.get_char(i) {
            proof {
                assert(a@[i as int] != b@[i as int]);
            }
            return false;
        }
        i = i + 1;
    }
    proof {
        assert(a@ =~= b@);
    }
    true
}

/// Whether `c` occurs in `s`.
pub fn contains_char(s: &str, c: char) -> (r: bool)
    ensures
        r == (exists|i: int| 0 <= i < s@.len() && s@[i] == c),
{
    let n = s.unicode_len();
    let mut i: usize = 0;
    while i < n
        invariant
            0 <= i <= n,
            n == s@.len(),
            forall|j: int| 0 <= j < i ==> s@[j] != c,
        decreases n - i,
    {
        if s.get_char(i) == c {
            return true;
        }
        i = i + 1;
    }
    false
}

} // verus!
