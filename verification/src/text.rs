//! Character-level text utilities: whitespace trimming, splitting into
//! words, and substring search, each proved against a spec function.

use vstd::prelude::*;
use vstd::string::StringExecFns;
use vstd::utf8::{decode_utf8, valid_utf8};

verus! {

/// Whether `c` has the Unicode `White_Space` property, which
/// `char::is_whitespace` tests: U+0009 to U+000D, U+0020, U+0085, U+00A0,
/// U+1680, U+2000 to U+200A, U+2028, U+2029, U+202F, U+205F and U+3000.
pub open spec fn char_is_whitespace(c: char) -> bool {
    let u = c as u32;
    ||| 0x09 <= u && u <= 0x0D
    ||| u == 0x20
    ||| u == 0x85
    ||| u == 0xA0
    ||| u == 0x1680
    ||| 0x2000 <= u && u <= 0x200A
    ||| u == 0x2028
    ||| u == 0x2029
    ||| u == 0x202F
    ||| u == 0x205F
    ||| u == 0x3000
}

/// Whether `c` is whitespace, as `char::is_whitespace` decides it.
pub fn is_whitespace(c: char) -> (r: bool)
    ensures
        r == char_is_whitespace(c),
{
    let u = c as u32;
    (0x09 <= u && u <= 0x0D) || u == 0x20 || u == 0x85 || u == 0xA0 || u == 0x1680 || (0x2000 <= u
        && u <= 0x200A) || u == 0x2028 || u == 0x2029 || u == 0x202F || u == 0x205F || u == 0x3000
}

/// An ASCII character.
pub open spec fn is_ascii_char(c: char) -> bool {
    (c as u32) < 0x80
}

/// An ASCII letter or digit.
pub open spec fn is_ascii_alphanumeric(c: char) -> bool {
    ('0' <= c && c <= '9') || ('a' <= c && c <= 'z') || ('A' <= c && c <= 'Z')
}

/// Whether `c`, not ASCII, is alphabetic or numeric, as `char::is_alphanumeric` decides it.
pub uninterp spec fn non_ascii_is_alphanumeric(c: char) -> bool;

/// Whether `c` is alphabetic or numeric, as `char::is_alphanumeric` decides
/// it: among ASCII characters, the letters and digits.
pub open spec fn char_is_alphanumeric(c: char) -> bool {
    if is_ascii_char(c) {
        is_ascii_alphanumeric(c)
    } else {
        non_ascii_is_alphanumeric(c)
    }
}

/// Trusted: `char::is_alphanumeric` on a character; its result is the name
/// `non_ascii_is_alphanumeric` (the Unicode `Alphabetic` and `Numeric`
/// properties). The library calls it only on characters that are not ASCII.
#[verifier::external_body]
fn unicode_is_alphanumeric(c: char) -> (r: bool)
    ensures
        r == non_ascii_is_alphanumeric(c),
{
    c.is_alphanumeric()
}

/// Whether `c` is alphabetic or numeric.
pub fn is_alphanumeric(c: char) -> (r: bool)
    ensures
        r == char_is_alphanumeric(c),
{
    if (c as u32) < 0x80 {
        ('0' <= c && c <= '9') || ('a' <= c && c <= 'z') || ('A' <= c && c <= 'Z')
    } else {
        unicode_is_alphanumeric(c)
    }
}

/// The characters of `s`, in order.
pub fn chars_of(s: &str) -> (r: Vec<char>)
    ensures
        r@ == s@,
{
    let mut r: Vec<char> = Vec::new();
    for c in it: s.chars()
        invariant
            it.seq() == s@,
            r@ == s@.take(it.index()),
    {
        r.push(c);
        assert(r@ =~= s@.take(it.index() + 1));
    }
    assert(r@ =~= s@);
    r
}

/// Trusted: collecting characters into a `String` gives a string of exactly those characters.
#[verifier::external_body]
pub(crate) fn string_from_chars(cs: &[char]) -> (r: String)
    ensures
        r@ == cs@,
{
    cs.iter().collect()
}

/// Characters that trimming removes from the ends of a string.
#[derive(Clone, Copy, PartialEq, Eq, Debug)]
pub enum TrimClass {
    /// Unicode whitespace (`str::trim`).
    Whitespace,
    /// Everything that is not alphanumeric.
    NonAlphanumeric,
}

pub open spec fn in_class(k: TrimClass, c: char) -> bool {
    match k {
        TrimClass::Whitespace => char_is_whitespace(c),
        TrimClass::NonAlphanumeric => !char_is_alphanumeric(c),
    }
}

pub fn char_in_class(k: TrimClass, c: char) -> (r: bool)
    ensures
        r == in_class(k, c),
{
    match k {
        TrimClass::Whitespace => is_whitespace(c),
        TrimClass::NonAlphanumeric => !is_alphanumeric(c),
    }
}

/// `s` without its leading characters of class `k`.
pub open spec fn skip_leading(s: Seq<char>, k: TrimClass) -> Seq<char>
    decreases s.len(),
{
    if s.len() > 0 && in_class(k, s[0]) {
        skip_leading(s.drop_first(), k)
    } else {
        s
    }
}

/// `s` without its trailing characters of class `k`.
pub open spec fn skip_trailing(s: Seq<char>, k: TrimClass) -> Seq<char>
    decreases s.len(),
{
    if s.len() > 0 && in_class(k, s.last()) {
        skip_trailing(s.drop_last(), k)
    } else {
        s
    }
}

/// `s` without leading and trailing characters of class `k`.
pub open spec fn trim_by(s: Seq<char>, k: TrimClass) -> Seq<char> {
    skip_trailing(skip_leading(s, k), k)
}

/// What `str::trim` gives back.
pub open spec fn trimmed(s: Seq<char>) -> Seq<char> {
    trim_by(s, TrimClass::Whitespace)
}

proof fn lemma_skip_leading_shape(s: Seq<char>, k: TrimClass)
    ensures
        skip_leading(s, k).len() <= s.len(),
        skip_leading(s, k) == s.skip(s.len() - skip_leading(s, k).len()),
        skip_leading(s, k).len() > 0 ==> !in_class(k, skip_leading(s, k)[0]),
    decreases s.len(),
{
    if s.len() > 0 && in_class(k, s[0]) {
        lemma_skip_leading_shape(s.drop_first(), k);
        let t = skip_leading(s.drop_first(), k);
        assert(s.drop_first().skip(s.drop_first().len() - t.len()) =~= s.skip(s.len() - t.len()));
    } else {
        assert(s.skip(0) =~= s);
    }
}

proof fn lemma_skip_trailing_shape(s: Seq<char>, k: TrimClass)
    ensures
        skip_trailing(s, k).len() <= s.len(),
        skip_trailing(s, k) == s.take(skip_trailing(s, k).len() as int),
        skip_trailing(s, k).len() > 0 ==> !in_class(k, skip_trailing(s, k).last()),
    decreases s.len(),
{
    if s.len() > 0 && in_class(k, s.last()) {
        lemma_skip_trailing_shape(s.drop_last(), k);
        let t = skip_trailing(s.drop_last(), k);
        assert(s.drop_last().take(t.len() as int) =~= s.take(t.len() as int));
    } else {
        assert(s.take(s.len() as int) =~= s);
    }
}

/// Trimming twice trims no more than trimming once.
pub proof fn law_trim_idempotent(s: Seq<char>, k: TrimClass)
    ensures
        trim_by(trim_by(s, k), k) == trim_by(s, k),
{
    let a = skip_leading(s, k);
    let r = skip_trailing(a, k);
    lemma_skip_leading_shape(s, k);
    lemma_skip_trailing_shape(a, k);
    if r.len() == 0 {
        assert(skip_leading(r, k) == r);
        assert(skip_trailing(r, k) == r);
    } else {
        assert(r[0] == a[0]);
        assert(skip_leading(r, k) == r);
        assert(skip_trailing(r, k) == r);
    }
}

/// Text made of whitespace only has no words.
pub proof fn law_split_words_blank(s: Seq<char>)
    requires
        forall|i: int| 0 <= i < s.len() ==> char_is_whitespace(#[trigger] s[i]),
    ensures
        split_words(s) == Seq::<Seq<char>>::empty(),
    decreases s.len(),
{
    if s.len() > 0 {
        let d = s.drop_first();
        assert forall|i: int| 0 <= i < d.len() implies char_is_whitespace(#[trigger] d[i]) by {
            assert(d[i] == s[i + 1]);
        }
        law_split_words_blank(d);
    }
}

/// Leading whitespace does not change the words.
pub proof fn law_split_words_leading_space(c: char, s: Seq<char>)
    requires
        char_is_whitespace(c),
    ensures
        split_words(seq![c] + s) == split_words(s),
{
    assert((seq![c] + s).drop_first() =~= s);
}

proof fn lemma_word_len_of_word(w: Seq<char>, rest: Seq<char>, i: int)
    requires
        0 <= i <= w.len(),
        forall|t: int| 0 <= t < w.len() ==> !char_is_whitespace(#[trigger] w[t]),
        rest.len() == 0 || char_is_whitespace(rest[0]),
    ensures
        word_len((w + rest).skip(i)) == w.len() - i,
    decreases w.len() - i,
{
    if i < w.len() {
        lemma_word_len_of_word(w, rest, i + 1);
        assert((w + rest).skip(i).drop_first() =~= (w + rest).skip(i + 1));
    } else {
        assert((w + rest).skip(i) =~= rest);
    }
}

/// A word (non-empty, no whitespace in it) that is followed by the end of
/// the text or by whitespace is the first word, and the words of what
/// follows come after it.
pub proof fn law_split_words_first_word(w: Seq<char>, rest: Seq<char>)
    requires
        w.len() > 0,
        forall|t: int| 0 <= t < w.len() ==> !char_is_whitespace(#[trigger] w[t]),
        rest.len() == 0 || char_is_whitespace(rest[0]),
    ensures
        split_words(w + rest) == seq![w] + split_words(rest),
{
    lemma_word_len_of_word(w, rest, 0);
    assert((w + rest).skip(0) =~= w + rest);
    assert((w + rest)[0] == w[0]);
    assert((w + rest).take(w.len() as int) =~= w);
    assert((w + rest).skip(w.len() as int) =~= rest);
}

proof fn lemma_skip_leading_prefix(a: Seq<char>, m: Seq<char>, k: TrimClass)
    requires
        forall|i: int| 0 <= i < a.len() ==> in_class(k, #[trigger] a[i]),
        m.len() == 0 || !in_class(k, m[0]),
    ensures
        skip_leading(a + m, k) == m,
    decreases a.len(),
{
    if a.len() > 0 {
        let d = a.drop_first();
        assert forall|i: int| 0 <= i < d.len() implies in_class(k, #[trigger] d[i]) by {
            assert(d[i] == a[i + 1]);
        }
        assert((a + m).drop_first() =~= d + m);
        assert((a + m)[0] == a[0]);
        lemma_skip_leading_prefix(d, m, k);
    } else {
        assert(a + m =~= m);
    }
}

proof fn lemma_skip_trailing_suffix(m: Seq<char>, b: Seq<char>, k: TrimClass)
    requires
        forall|i: int| 0 <= i < b.len() ==> in_class(k, #[trigger] b[i]),
        m.len() == 0 || !in_class(k, m.last()),
    ensures
        skip_trailing(m + b, k) == m,
    decreases b.len(),
{
    if b.len() > 0 {
        let d = b.drop_last();
        assert forall|i: int| 0 <= i < d.len() implies in_class(k, #[trigger] d[i]) by {
            assert(d[i] == b[i]);
        }
        assert((m + b).drop_last() =~= m + d);
        assert((m + b).last() == b.last());
        assert(b.last() == b[b.len() - 1]);
        lemma_skip_trailing_suffix(m, d, k);
    } else {
        assert(m + b =~= m);
    }
}

/// Trimming removes exactly the characters of the class at both ends: the
/// middle part, which starts and ends with a character outside the class,
/// is what remains.
pub proof fn law_trim_strips_ends(a: Seq<char>, m: Seq<char>, b: Seq<char>, k: TrimClass)
    requires
        forall|i: int| 0 <= i < a.len() ==> in_class(k, #[trigger] a[i]),
        forall|i: int| 0 <= i < b.len() ==> in_class(k, #[trigger] b[i]),
        m.len() > 0,
        !in_class(k, m[0]),
        !in_class(k, m.last()),
    ensures
        trim_by(a + m + b, k) == m,
{
    assert(a + m + b =~= a + (m + b));
    assert((m + b)[0] == m[0]);
    lemma_skip_leading_prefix(a, m + b, k);
    lemma_skip_trailing_suffix(m, b, k);
}

/// The bounds `(lo, hi)` such that `s[lo..hi]` is `s` trimmed of class `k`.
pub fn trim_bounds(s: &Vec<char>, k: TrimClass) -> (r: (usize, usize))
    ensures
        r.0 <= r.1 <= s.len(),
        s@.subrange(r.0 as int, r.1 as int) == trim_by(s@, k),
{
    let n = s.len();
    let mut lo: usize = 0;
    assert(s@.skip(0) =~= s@);
    while lo < n && char_in_class(k, s[lo])
        invariant
            lo <= n == s.len(),
            skip_leading(s@, k) == skip_leading(s@.skip(lo as int), k),
        decreases n - lo,
    {
        assert(s@.skip(lo as int).drop_first() =~= s@.skip(lo + 1));
        lo = lo + 1;
    }
    assert(skip_leading(s@, k) == s@.skip(lo as int));
    assert(s@.skip(lo as int) =~= s@.subrange(lo as int, n as int));
    let mut hi: usize = n;
    while hi > lo && char_in_class(k, s[hi - 1])
        invariant
            lo <= hi <= n == s.len(),
            trim_by(s@, k) == skip_trailing(s@.subrange(lo as int, hi as int), k),
        decreases hi,
    {
        assert(s@.subrange(lo as int, hi as int).drop_last() =~= s@.subrange(lo as int, hi - 1));
        hi = hi - 1;
    }
    (lo, hi)
}

/// A copy of `s[lo..hi]`.
pub fn copy_range(s: &Vec<char>, lo: usize, hi: usize) -> (r: Vec<char>)
    requires
        lo <= hi <= s.len(),
    ensures
        r@ == s@.subrange(lo as int, hi as int),
{
    let mut r: Vec<char> = Vec::new();
    let mut i = lo;
    while i < hi
        invariant
            lo <= i <= hi <= s.len(),
            r@ == s@.subrange(lo as int, i as int),
        decreases hi - i,
    {
        r.push(s[i]);
        i = i + 1;
        assert(r@ =~= s@.subrange(lo as int, i as int));
    }
    r
}

/// `s` without leading and trailing whitespace, as `str::trim` gives it.
pub fn trim(s: &str) -> (r: String)
    ensures
        r@ == trimmed(s@),
{
    let cs = chars_of(s);
    let (lo, hi) = trim_bounds(&cs, TrimClass::Whitespace);
    let part = copy_range(&cs, lo, hi);
    string_from_chars(part.as_slice())
}

/// Length of the run of non-whitespace characters at the start of `s`.
pub open spec fn word_len(s: Seq<char>) -> nat
    decreases s.len(),
{
    if s.len() == 0 || char_is_whitespace(s[0]) {
        0
    } else {
        1 + word_len(s.drop_first())
    }
}

pub proof fn lemma_word_len_bound(s: Seq<char>)
    ensures
        word_len(s) <= s.len(),
        s.len() > 0 && !char_is_whitespace(s[0]) ==> word_len(s) >= 1,
    decreases s.len(),
{
    if s.len() > 0 && !char_is_whitespace(s[0]) {
        lemma_word_len_bound(s.drop_first());
    }
}

/// The maximal runs of non-whitespace characters of `s`, in order, as
/// `str::split_whitespace` yields them.
pub open spec fn split_words(s: Seq<char>) -> Seq<Seq<char>>
    decreases s.len(),
{
    if s.len() == 0 {
        seq![]
    } else if char_is_whitespace(s[0]) {
        split_words(s.drop_first())
    } else {
        proof {
            lemma_word_len_bound(s);
        }
        seq![s.take(word_len(s) as int)] + split_words(s.skip(word_len(s) as int))
    }
}

proof fn lemma_word_len_run(s: Seq<char>, i: int, j: int)
    requires
        0 <= i <= j <= s.len(),
        forall|t: int| i <= t < j ==> !char_is_whitespace(#[trigger] s[t]),
        j == s.len() || char_is_whitespace(s[j]),
    ensures
        word_len(s.skip(i)) == j - i,
    decreases j - i,
{
    if i < j {
        lemma_word_len_run(s, i + 1, j);
        assert(s.skip(i).drop_first() =~= s.skip(i + 1));
    }
}

/// The words of `s`, split at whitespace.
pub fn split_whitespace(s: &Vec<char>) -> (r: Vec<Vec<char>>)
    ensures
        r.deep_view() == split_words(s@),
{
    let n = s.len();
    let mut out: Vec<Vec<char>> = Vec::new();
    let mut i: usize = 0;
    assert(s@.skip(0) =~= s@);
    while i < n
        invariant
            i <= n == s.len(),
            split_words(s@) == out.deep_view() + split_words(s@.skip(i as int)),
        decreases n - i,
    {
        if is_whitespace(s[i]) {
            assert(s@.skip(i as int).drop_first() =~= s@.skip(i + 1));
            i = i + 1;
        } else {
            let start = i;
            while i < n && !is_whitespace(s[i])
                invariant
                    start <= i <= n == s.len(),
                    forall|t: int| start <= t < i ==> !char_is_whitespace(#[trigger] s@[t]),
                decreases n - i,
            {
                i = i + 1;
            }
            proof {
                lemma_word_len_run(s@, start as int, i as int);
                let rest = s@.skip(start as int);
                assert(rest.take((i - start) as int) =~= s@.subrange(start as int, i as int));
                assert(rest.skip((i - start) as int) =~= s@.skip(i as int));
            }
            let word = copy_range(s, start, i);
            let ghost before = out.deep_view();
            assert(word.deep_view() =~= word@);
            out.push(word);
            assert(out.deep_view().len() == before.len() + 1);
            assert(forall|t: int| 0 <= t < before.len() ==> out.deep_view()[t] == before[t]);
            assert(out.deep_view()[before.len() as int] == word@);
            assert(out.deep_view() =~= before.push(s@.subrange(start as int, i as int)));
        }
    }
    assert(s@.skip(n as int) =~= Seq::<char>::empty());
    assert(out.deep_view() + Seq::<Seq<char>>::empty() =~= out.deep_view());
    out
}

/// `needle` occurs in `hay` at position `i`.
pub open spec fn occurs_at(hay: Seq<char>, needle: Seq<char>, i: int) -> bool {
    0 <= i && i + needle.len() <= hay.len() && hay.subrange(i, i + needle.len()) == needle
}

/// `needle` occurs somewhere in `hay`, as `str::contains` decides it.
pub open spec fn has_substring(hay: Seq<char>, needle: Seq<char>) -> bool {
    exists|i: int| occurs_at(hay, needle, i)
}

/// Whether `needle` occurs in `hay`.
pub fn contains_chars(hay: &Vec<char>, needle: &Vec<char>) -> (r: bool)
    ensures
        r == has_substring(hay@, needle@),
{
    let n = hay.len();
    let m = needle.len();
    if m > n {
        assert forall|i: int| !occurs_at(hay@, needle@, i) by {}
        return false;
    }
    let mut i: usize = 0;
    while i <= n - m
        invariant
            m <= n,
            n == hay.len(),
            m == needle.len(),
            forall|k: int| 0 <= k < i ==> !occurs_at(hay@, needle@, k),
        decreases n - m + 1 - i,
    {
        let mut j: usize = 0;
        while j < m && hay[i + j] == needle[j]
            invariant
                j <= m,
                i + m <= n,
                n == hay.len(),
                m == needle.len(),
                forall|t: int| 0 <= t < j ==> hay@[i + t] == needle@[t],
            decreases m - j,
        {
            j = j + 1;
        }
        if j == m {
            assert(hay@.subrange(i as int, i + m) =~= needle@);
            assert(occurs_at(hay@, needle@, i as int));
            return true;
        }
        assert(hay@.subrange(i as int, i + m)[j as int] != needle@[j as int]);
        i = i + 1;
    }
    assert forall|k: int| !occurs_at(hay@, needle@, k) by {}
    false
}

/// The ASCII letter `c` in lower case; any other character as it is.
pub open spec fn ascii_lower(c: char) -> char {
    if 'A' <= c && c <= 'Z' {
        ((c as u32) + 32) as char
    } else {
        c
    }
}

/// `s` with its ASCII letters in lower case.
pub open spec fn lower_text(s: Seq<char>) -> Seq<char> {
    s.map_values(|c: char| ascii_lower(c))
}

/// All characters of `s` are ASCII.
pub open spec fn is_ascii_text(s: Seq<char>) -> bool {
    forall|i: int| 0 <= i < s.len() ==> is_ascii_char(#[trigger] s[i])
}

/// What `str::to_lowercase` gives back for `s` when `s` is not all ASCII.
pub uninterp spec fn non_ascii_lowercase(s: Seq<char>) -> Seq<char>;

/// What `str::to_lowercase` gives back for `s`: an ASCII text has each
/// letter lowered; any other text is lowered by the Unicode mappings.
pub open spec fn lowercase(s: Seq<char>) -> Seq<char> {
    if is_ascii_text(s) {
        lower_text(s)
    } else {
        non_ascii_lowercase(s)
    }
}

/// Trusted: `str::to_lowercase`; its result is the name
/// `non_ascii_lowercase`. The library calls it only on text that is not all
/// ASCII.
#[verifier::external_body]
fn unicode_to_lowercase(s: &str) -> (r: String)
    ensures
        r@ == non_ascii_lowercase(s@),
{
    s.to_lowercase()
}

/// `s` in lower case, as `str::to_lowercase` gives it.
pub fn to_lowercase(s: &str) -> (r: String)
    ensures
        r@ == lowercase(s@),
{
    let cs = chars_of(s);
    let n = cs.len();
    let mut i: usize = 0;
    while i < n
        invariant
            i <= n == cs.len(),
            cs@ == s@,
            forall|t: int| 0 <= t < i ==> is_ascii_char(#[trigger] cs@[t]),
        decreases n - i,
    {
        if (cs[i] as u32) >= 0x80 {
            assert(!is_ascii_char(s@[i as int]));
            return unicode_to_lowercase(s);
        }
        i = i + 1;
    }
    let mut lower: Vec<char> = Vec::new();
    let mut k: usize = 0;
    while k < n
        invariant
            k <= n == cs.len(),
            cs@ == s@,
            lower@ == lower_text(s@.take(k as int)),
        decreases n - k,
    {
        let c = cs[k];
        let l = if 'A' <= c && c <= 'Z' {
            ((c as u32) + 32) as u8 as char
        } else {
            c
        };
        lower.push(l);
        k = k + 1;
        assert(lower@ =~= lower_text(s@.take(k as int)));
    }
    assert(s@.take(n as int) =~= s@);
    string_from_chars(lower.as_slice())
}

/// The ASCII letter `c` in upper case; any other character as it is.
pub open spec fn ascii_upper(c: char) -> char {
    if 'a' <= c && c <= 'z' {
        ((c as u32) - 32) as char
    } else {
        c
    }
}

/// `s` with its ASCII letters in upper case.
pub open spec fn upper_text(s: Seq<char>) -> Seq<char> {
    s.map_values(|c: char| ascii_upper(c))
}

/// Each of `ws` with its ASCII letters in upper case.
pub open spec fn upper_words(ws: Seq<Seq<char>>) -> Seq<Seq<char>> {
    ws.map_values(|w: Seq<char>| upper_text(w))
}

/// Every one of `ws` is ASCII text.
pub open spec fn all_ascii(ws: Seq<Seq<char>>) -> bool {
    forall|i: int| 0 <= i < ws.len() ==> is_ascii_text(#[trigger] ws[i])
}

pub proof fn lemma_ascii_upper_char(c: char)
    requires
        is_ascii_char(c),
    ensures
        is_ascii_char(ascii_upper(c)),
        ascii_lower(ascii_upper(c)) == ascii_lower(c),
        char_is_whitespace(ascii_upper(c)) == char_is_whitespace(c),
        char_is_alphanumeric(ascii_upper(c)) == char_is_alphanumeric(c),
        forall|k: TrimClass| in_class(k, ascii_upper(c)) == in_class(k, c),
{
    if 'a' <= c && c <= 'z' {
        let u = ascii_upper(c);
        assert((u as u32) == (c as u32) - 32);
        assert('A' <= u && u <= 'Z');
        assert(((u as u32) + 32) as char == c);
    }
}

pub proof fn lemma_lowercase_upper(s: Seq<char>)
    requires
        is_ascii_text(s),
    ensures
        is_ascii_text(upper_text(s)),
        lowercase(upper_text(s)) == lowercase(s),
{
    assert forall|i: int| 0 <= i < s.len() implies is_ascii_char(#[trigger] upper_text(s)[i]) by {
        lemma_ascii_upper_char(s[i]);
    }
    assert forall|i: int| 0 <= i < s.len() implies #[trigger] lower_text(upper_text(s))[i]
        == lower_text(s)[i] by {
        lemma_ascii_upper_char(s[i]);
    }
    assert(lower_text(upper_text(s)) =~= lower_text(s));
}

proof fn lemma_upper_text_shape(s: Seq<char>)
    ensures
        upper_text(s).len() == s.len(),
        forall|i: int| 0 <= i < s.len() ==> #[trigger] upper_text(s)[i] == ascii_upper(s[i]),
        s.len() > 0 ==> upper_text(s).drop_first() == upper_text(s.drop_first()),
        s.len() > 0 ==> upper_text(s).drop_last() == upper_text(s.drop_last()),
        forall|n: int| 0 <= n <= s.len() ==> #[trigger] upper_text(s).take(n) == upper_text(s.take(n)),
        forall|n: int| 0 <= n <= s.len() ==> #[trigger] upper_text(s).skip(n) == upper_text(s.skip(n)),
{
    if s.len() > 0 {
        assert(upper_text(s).drop_first() =~= upper_text(s.drop_first()));
        assert(upper_text(s).drop_last() =~= upper_text(s.drop_last()));
    }
    assert forall|n: int| 0 <= n <= s.len() implies #[trigger] upper_text(s).take(n) == upper_text(s.take(n)) by {
        assert(upper_text(s).take(n) =~= upper_text(s.take(n)));
    }
    assert forall|n: int| 0 <= n <= s.len() implies #[trigger] upper_text(s).skip(n) == upper_text(s.skip(n)) by {
        assert(upper_text(s).skip(n) =~= upper_text(s.skip(n)));
    }
}

proof fn lemma_word_len_upper(s: Seq<char>)
    requires
        is_ascii_text(s),
    ensures
        word_len(upper_text(s)) == word_len(s),
    decreases s.len(),
{
    lemma_upper_text_shape(s);
    if s.len() > 0 {
        lemma_ascii_upper_char(s[0]);
        lemma_word_len_upper(s.drop_first());
    }
}

/// Upper-casing ASCII text upper-cases its words and changes nothing else
/// about them.
pub proof fn lemma_split_words_upper(s: Seq<char>)
    requires
        is_ascii_text(s),
    ensures
        split_words(upper_text(s)) == upper_words(split_words(s)),
        all_ascii(split_words(s)),
    decreases s.len(),
{
    lemma_upper_text_shape(s);
    if s.len() == 0 {
        assert(upper_words(split_words(s)) =~= Seq::<Seq<char>>::empty());
    } else {
        lemma_ascii_upper_char(s[0]);
        if char_is_whitespace(s[0]) {
            lemma_split_words_upper(s.drop_first());
        } else {
            lemma_word_len_upper(s);
            lemma_word_len_bound(s);
            let n = word_len(s) as int;
            lemma_split_words_upper(s.skip(n));
            let rest = split_words(s.skip(n));
            assert(upper_words(seq![s.take(n)] + rest) =~= seq![upper_text(s.take(n))] + upper_words(rest));
            assert forall|i: int| 0 <= i < split_words(s).len() implies is_ascii_text(#[trigger] split_words(s)[i]) by {
                if i > 0 {
                    assert(split_words(s)[i] == rest[i - 1]);
                }
            }
        }
    }
}

proof fn lemma_skip_leading_upper(s: Seq<char>, k: TrimClass)
    requires
        is_ascii_text(s),
    ensures
        skip_leading(upper_text(s), k) == upper_text(skip_leading(s, k)),
        is_ascii_text(skip_leading(s, k)),
    decreases s.len(),
{
    lemma_upper_text_shape(s);
    if s.len() > 0 {
        lemma_ascii_upper_char(s[0]);
        if in_class(k, s[0]) {
            lemma_skip_leading_upper(s.drop_first(), k);
        }
    }
}

proof fn lemma_skip_trailing_upper(s: Seq<char>, k: TrimClass)
    requires
        is_ascii_text(s),
    ensures
        skip_trailing(upper_text(s), k) == upper_text(skip_trailing(s, k)),
        is_ascii_text(skip_trailing(s, k)),
    decreases s.len(),
{
    lemma_upper_text_shape(s);
    if s.len() > 0 {
        lemma_ascii_upper_char(s.last());
        assert(upper_text(s).last() == ascii_upper(s.last()));
        if in_class(k, s.last()) {
            lemma_skip_trailing_upper(s.drop_last(), k);
        }
    }
}

/// Trimming commutes with upper-casing ASCII text.
pub proof fn lemma_trim_upper(s: Seq<char>, k: TrimClass)
    requires
        is_ascii_text(s),
    ensures
        trim_by(upper_text(s), k) == upper_text(trim_by(s, k)),
        is_ascii_text(trim_by(s, k)),
{
    lemma_skip_leading_upper(s, k);
    lemma_skip_trailing_upper(skip_leading(s, k), k);
}

/// What `String::from_utf8_lossy` decodes `bytes` to.
pub uninterp spec fn utf8_lossy(bytes: Seq<u8>) -> Seq<char>;

/// Trusted: `String::from_utf8_lossy`. Its result is the name `utf8_lossy`
/// of the bytes; as its documentation states, bytes that are valid UTF-8
/// are decoded as they are.
#[verifier::external_body]
pub(crate) fn decode_utf8_lossy(bytes: &[u8]) -> (r: String)
    ensures
        r@ == utf8_lossy(bytes@),
        valid_utf8(bytes@) ==> r@ == decode_utf8(bytes@),
{
    String::from_utf8_lossy(bytes).into_owned()
}

/// The texts of `parts` one after another.
pub open spec fn concat(parts: Seq<Seq<char>>) -> Seq<char>
    decreases parts.len(),
{
    if parts.len() == 0 {
        seq![]
    } else {
        concat(parts.drop_last()) + parts.last()
    }
}

/// All of `parts` joined with nothing between them.
pub fn join_all(parts: &Vec<String>) -> (r: String)
    ensures
        r@ == concat(parts.deep_view()),
{
    let mut r = String::new();
    let n = parts.len();
    let mut i: usize = 0;
    while i < n
        invariant
            i <= n == parts.len(),
            r@ == concat(parts.deep_view().take(i as int)),
        decreases n - i,
    {
        assert(parts.deep_view().take(i + 1).drop_last() =~= parts.deep_view().take(i as int));
        r.append(parts[i].as_str());
        i = i + 1;
    }
    assert(parts.deep_view().take(n as int) =~= parts.deep_view());
    r
}

} // verus!
