//! Incremental extraction of the candidate texts from the segmented JSON
//! array that the model's streaming endpoint sends, one chunk at a time.

use vstd::prelude::*;
use crate::json::{json_field, json_field_at, JsonField, JsonFieldView};
use crate::text::{chars_of, concat, copy_range, decode_utf8_lossy, join_all, string_from_chars, utf8_lossy};

verus! {

/// Where the text of the first candidate stands in each streamed object.
pub const CANDIDATE_TEXT_POINTER: &'static str = "/candidates/0/content/parts/0/text";

/// Where a left-to-right reading of JSON text stands: how many objects are
/// open, whether it is inside a string literal, and whether the previous
/// character was a backslash inside one.
pub struct ScanState {
    pub depth: int,
    pub in_string: bool,
    pub escaped: bool,
}

/// The state after reading `c` in state `st`. Inside a string, `\` escapes
/// the next character and an unescaped `"` ends the string; outside, `"`
/// starts a string and `{` and `}` open and close an object.
pub open spec fn scan_step(st: ScanState, c: char) -> ScanState {
    if st.in_string {
        if st.escaped {
            ScanState { depth: st.depth, in_string: true, escaped: false }
        } else if c == '\\' {
            ScanState { depth: st.depth, in_string: true, escaped: true }
        } else if c == '"' {
            ScanState { depth: st.depth, in_string: false, escaped: false }
        } else {
            st
        }
    } else if c == '"' {
        ScanState { depth: st.depth, in_string: true, escaped: false }
    } else if c == '{' {
        ScanState { depth: st.depth + 1, in_string: false, escaped: false }
    } else if c == '}' {
        ScanState { depth: st.depth - 1, in_string: false, escaped: false }
    } else {
        st
    }
}

/// The state after reading `s[lo..hi]` from the start state.
pub open spec fn scan(s: Seq<char>, lo: int, hi: int) -> ScanState
    decreases hi - lo,
{
    if hi <= lo {
        ScanState { depth: 0, in_string: false, escaped: false }
    } else {
        scan_step(scan(s, lo, hi - 1), s[hi - 1])
    }
}

/// `s[k]` is the `}` that closes the object opened at `start`: read from
/// `start`, it stands outside any string literal with one object open.
pub open spec fn closes_at(s: Seq<char>, start: int, k: int) -> bool {
    &&& s[k] == '}'
    &&& !scan(s, start, k).in_string
    &&& scan(s, start, k).depth == 1
}

/// Index of the first `{` in `s` at or after `i`.
pub open spec fn open_from(s: Seq<char>, i: int) -> Option<int>
    decreases s.len() - i,
{
    if i < 0 || i >= s.len() {
        None
    } else if s[i] == '{' {
        Some(i)
    } else {
        open_from(s, i + 1)
    }
}

/// Scanning `s` from `k` on, the end (exclusive) of the first `}` that
/// closes the object opened at `start`.
pub open spec fn close_from(s: Seq<char>, start: int, k: int) -> Option<int>
    decreases s.len() - k,
{
    if k < 0 || k >= s.len() {
        None
    } else if closes_at(s, start, k) {
        Some(k + 1)
    } else {
        close_from(s, start, k + 1)
    }
}

pub proof fn lemma_open_from_bounds(s: Seq<char>, i: int)
    ensures
        open_from(s, i) matches Some(j) ==> i <= j < s.len() && s[j] == '{',
    decreases s.len() - i,
{
    if 0 <= i < s.len() && s[i] != '{' {
        lemma_open_from_bounds(s, i + 1);
    }
}

pub proof fn lemma_close_from_bounds(s: Seq<char>, start: int, k: int)
    ensures
        close_from(s, start, k) matches Some(e) ==> k < e <= s.len(),
    decreases s.len() - k,
{
    if 0 <= k < s.len() && !closes_at(s, start, k) {
        lemma_close_from_bounds(s, start, k + 1);
    }
}

/// Splits `s` into the complete objects found in it, in order, and what is
/// left to wait for more input: the first `{`, up to the `}` that balances
/// it outside string literals, gives one object; scanning goes on after it. What follows
/// the last object is kept, whether or not it holds a `{`.
pub open spec fn extract(s: Seq<char>) -> (Seq<Seq<char>>, Seq<char>)
    decreases s.len(),
{
    match open_from(s, 0) {
        None => (seq![], s),
        Some(st) => match close_from(s, st, st) {
            None => (seq![], s),
            Some(e) => {
                proof {
                    lemma_open_from_bounds(s, 0);
                    lemma_close_from_bounds(s, st, st);
                }
                let (objs, rest) = extract(s.skip(e));
                (seq![s.subrange(st, e)] + objs, rest)
            },
        },
    }
}

/// The candidate texts of `objs`, in order, skipping objects that are not
/// JSON or hold no text there.
pub open spec fn candidate_texts(objs: Seq<Seq<char>>) -> Seq<Seq<char>>
    decreases objs.len(),
{
    if objs.len() == 0 {
        seq![]
    } else {
        let before = candidate_texts(objs.drop_last());
        match json_field_at(objs.last(), CANDIDATE_TEXT_POINTER@) {
            JsonFieldView::Text(t) => before.push(t),
            _ => before,
        }
    }
}

proof fn lemma_scan_prefix(x: Seq<char>, y: Seq<char>, lo: int, hi: int)
    requires
        0 <= lo,
        hi <= x.len(),
    ensures
        scan(x + y, lo, hi) == scan(x, lo, hi),
    decreases hi - lo,
{
    if hi > lo {
        lemma_scan_prefix(x, y, lo, hi - 1);
    }
}

proof fn lemma_open_prefix(x: Seq<char>, y: Seq<char>, i: int)
    requires
        0 <= i,
    ensures
        open_from(x, i) is Some ==> open_from(x + y, i) == open_from(x, i),
    decreases x.len() - i,
{
    if i < x.len() && x[i] != '{' {
        lemma_open_prefix(x, y, i + 1);
    }
}

proof fn lemma_close_prefix(x: Seq<char>, y: Seq<char>, start: int, k: int)
    requires
        0 <= start,
        0 <= k,
    ensures
        close_from(x, start, k) is Some ==> close_from(x + y, start, k) == close_from(x, start, k),
    decreases x.len() - k,
{
    if k < x.len() {
        lemma_scan_prefix(x, y, start, k);
        if !closes_at(x, start, k) {
            lemma_close_prefix(x, y, start, k + 1);
        }
    }
}

/// Extraction is unaffected by where the input is cut: extracting from
/// `x + y` gives the objects of `x`, then those found in what `x` left over
/// followed by `y`, and the same remainder.
pub proof fn law_extract_append(x: Seq<char>, y: Seq<char>)
    ensures
        extract(x + y) == (extract(x).0 + extract(extract(x).1 + y).0, extract(extract(x).1 + y).1),
    decreases x.len(),
{
    lemma_open_from_bounds(x, 0);
    lemma_open_prefix(x, y, 0);
    match open_from(x, 0) {
        None => {
            assert(extract(x).0 + extract(x + y).0 =~= extract(x + y).0);
        },
        Some(st) => {
            lemma_close_from_bounds(x, st, st);
            lemma_close_prefix(x, y, st, st);
            match close_from(x, st, st) {
                None => {
                    assert(extract(x).0 + extract(x + y).0 =~= extract(x + y).0);
                },
                Some(e) => {
                    let tail = x.skip(e);
                    law_extract_append(tail, y);
                    assert((x + y).skip(e) =~= tail + y);
                    assert((x + y).subrange(st, e) =~= x.subrange(st, e));
                    let a = extract(tail);
                    let b = extract(a.1 + y);
                    assert(seq![x.subrange(st, e)] + (a.0 + b.0) =~= (seq![x.subrange(st, e)] + a.0) + b.0);
                },
            }
        },
    }
}

/// What extraction leaves over holds no complete object: extracting from it
/// again finds nothing and leaves it as it is.
pub proof fn law_extract_rest_is_idle(s: Seq<char>)
    ensures
        extract(extract(s).1) == (Seq::<Seq<char>>::empty(), extract(s).1),
    decreases s.len(),
{
    lemma_open_from_bounds(s, 0);
    if let Some(st) = open_from(s, 0) {
        lemma_close_from_bounds(s, st, st);
        if let Some(e) = close_from(s, st, st) {
            law_extract_rest_is_idle(s.skip(e));
        }
    }
}

/// The candidate texts of two runs of objects are those of each, in order.
pub proof fn lemma_candidate_texts_append(a: Seq<Seq<char>>, b: Seq<Seq<char>>)
    ensures
        candidate_texts(a + b) == candidate_texts(a) + candidate_texts(b),
    decreases b.len(),
{
    if b.len() == 0 {
        assert(a + b =~= a);
        assert(candidate_texts(a) + candidate_texts(b) =~= candidate_texts(a));
    } else {
        lemma_candidate_texts_append(a, b.drop_last());
        assert((a + b).drop_last() =~= a + b.drop_last());
        assert((a + b).last() == b.last());
        let ta = candidate_texts(a);
        let tb = candidate_texts(b.drop_last());
        match json_field_at(b.last(), CANDIDATE_TEXT_POINTER@) {
            JsonFieldView::Text(t) => {
                assert((ta + tb).push(t) =~= ta + tb.push(t));
            },
            _ => {},
        }
    }
}

/// Feeding the parser `a` and then `c` yields the same texts, in the same
/// order, and leaves the same buffer, as feeding it `a + c` at once.
pub proof fn law_push_chunking(buffered: Seq<char>, a: Seq<char>, c: Seq<char>)
    ensures
        ({
            let first = extract(buffered + a);
            let second = extract(first.1 + c);
            let once = extract(buffered + (a + c));
            &&& candidate_texts(first.0) + candidate_texts(second.0) == candidate_texts(once.0)
            &&& second.1 == once.1
        }),
{
    assert(buffered + (a + c) =~= (buffered + a) + c);
    law_extract_append(buffered + a, c);
    let first = extract(buffered + a);
    let second = extract(first.1 + c);
    lemma_candidate_texts_append(first.0, second.0);
}

/// Feeding the parser nothing yields nothing and leaves its buffer as it is.
pub proof fn law_push_empty_is_idle(p: GeminiStreamParser, text: Seq<char>)
    ensures
        extract(extract(p@.text + text).1 + Seq::<char>::empty()).1 == extract(p@.text + text).1,
        candidate_texts(extract(extract(p@.text + text).1 + Seq::<char>::empty()).0).len() == 0,
{
    let rest = extract(p@.text + text).1;
    assert(rest + Seq::<char>::empty() =~= rest);
    law_extract_rest_is_idle(p@.text + text);
}

/// Length of the prefix of `b` that ends with its last ASCII byte (0 if it
/// has none).
pub open spec fn ascii_end(b: Seq<u8>) -> nat
    decreases b.len(),
{
    if b.len() == 0 {
        0
    } else if b.last() < 0x80 {
        b.len()
    } else {
        ascii_end(b.drop_last())
    }
}

/// Length of the run of non-ASCII bytes at the start of `b`.
pub open spec fn non_ascii_run(b: Seq<u8>) -> nat
    decreases b.len(),
{
    if b.len() == 0 || b[0] < 0x80 {
        0
    } else {
        1 + non_ascii_run(b.drop_first())
    }
}

pub proof fn lemma_non_ascii_run_bound(b: Seq<u8>)
    ensures
        non_ascii_run(b) <= b.len(),
        b.len() > 0 && b[0] >= 0x80 ==> non_ascii_run(b) >= 1,
    decreases b.len(),
{
    if b.len() > 0 && b[0] >= 0x80 {
        lemma_non_ascii_run_bound(b.drop_first());
    }
}

/// The text that the bytes `b` decode to: each ASCII byte is its character,
/// and each run of other bytes is decoded as `String::from_utf8_lossy`
/// decodes it.
pub open spec fn decode_stream(b: Seq<u8>) -> Seq<char>
    decreases b.len(),
{
    if b.len() == 0 {
        seq![]
    } else if b[0] < 0x80 {
        seq![b[0] as char] + decode_stream(b.drop_first())
    } else {
        proof {
            lemma_non_ascii_run_bound(b);
        }
        utf8_lossy(b.take(non_ascii_run(b) as int)) + decode_stream(b.skip(non_ascii_run(b) as int))
    }
}

/// What handling the chunk `bytes` in state `v` leads to: the new state and
/// the texts found, joined.
pub open spec fn chunk_step(v: ParserView, bytes: Seq<u8>) -> (ParserView, Seq<char>) {
    let all = v.pending + bytes;
    let e = ascii_end(all) as int;
    let found = extract(v.text + decode_stream(all.take(e)));
    (ParserView { pending: all.skip(e), text: found.1 }, concat(candidate_texts(found.0)))
}

/// Where the last ASCII byte of `b` ends.
fn find_ascii_end(b: &Vec<u8>) -> (e: usize)
    ensures
        e == ascii_end(b@),
        e <= b@.len(),
{
    let mut k: usize = b.len();
    assert(b@.take(k as int) =~= b@);
    while k > 0 && b[k - 1] >= 0x80
        invariant
            k <= b.len(),
            ascii_end(b@) == ascii_end(b@.take(k as int)),
        decreases k,
    {
        assert(b@.take(k as int).drop_last() =~= b@.take(k - 1));
        k = k - 1;
    }
    proof {
        if k > 0 {
            assert(b@.take(k as int).last() == b@[k - 1]);
        }
    }
    k
}

proof fn lemma_non_ascii_run_exact(b: Seq<u8>, i: int, j: int)
    requires
        0 <= i <= j <= b.len(),
        forall|t: int| i <= t < j ==> #[trigger] b[t] >= 0x80,
        j == b.len() || b[j] < 0x80,
    ensures
        non_ascii_run(b.skip(i)) == j - i,
    decreases j - i,
{
    if i < j {
        lemma_non_ascii_run_exact(b, i + 1, j);
        assert(b.skip(i).drop_first() =~= b.skip(i + 1));
    }
}

/// The text that `b` decodes to.
fn decode_stream_bytes(b: &Vec<u8>) -> (r: Vec<char>)
    ensures
        r@ == decode_stream(b@),
{
    let n = b.len();
    let mut r: Vec<char> = Vec::new();
    let mut i: usize = 0;
    assert(b@.skip(0) =~= b@);
    assert(r@ + decode_stream(b@) =~= decode_stream(b@));
    while i < n
        invariant
            i <= n == b.len(),
            decode_stream(b@) == r@ + decode_stream(b@.skip(i as int)),
        decreases n - i,
    {
        let ghost rest = b@.skip(i as int);
        if b[i] < 0x80 {
            let c = b[i] as char;
            proof {
                assert(rest.drop_first() =~= b@.skip(i + 1));
                assert(r@.push(c) + decode_stream(b@.skip(i + 1)) =~= r@ + (seq![c] + decode_stream(b@.skip(i + 1))));
            }
            r.push(c);
            i = i + 1;
        } else {
            let start = i;
            while i < n && b[i] >= 0x80
                invariant
                    start <= i <= n == b.len(),
                    forall|t: int| start <= t < i ==> #[trigger] b@[t] >= 0x80,
                decreases n - i,
            {
                i = i + 1;
            }
            let mut seg: Vec<u8> = Vec::new();
            let mut k: usize = start;
            while k < i
                invariant
                    start <= k <= i <= n == b.len(),
                    seg@ == b@.subrange(start as int, k as int),
                decreases i - k,
            {
                seg.push(b[k]);
                k = k + 1;
                assert(seg@ =~= b@.subrange(start as int, k as int));
            }
            let s = decode_utf8_lossy(seg.as_slice());
            let mut cs = chars_of(s.as_str());
            proof {
                lemma_non_ascii_run_exact(b@, start as int, i as int);
                assert(rest.take((i - start) as int) =~= seg@);
                assert(rest.skip((i - start) as int) =~= b@.skip(i as int));
                assert(r@ + cs@ + decode_stream(b@.skip(i as int)) =~= r@ + (cs@ + decode_stream(b@.skip(i as int))));
            }
            r.append(&mut cs);
        }
    }
    assert(b@.skip(n as int) =~= Seq::<u8>::empty());
    assert(r@ + Seq::<char>::empty() =~= r@);
    r
}

proof fn lemma_ascii_end_shape(b: Seq<u8>)
    ensures
        ascii_end(b) <= b.len(),
        ascii_end(b) > 0 ==> b[ascii_end(b) - 1] < 0x80,
        forall|i: int| ascii_end(b) <= i < b.len() ==> #[trigger] b[i] >= 0x80,
    decreases b.len(),
{
    if b.len() > 0 && b.last() >= 0x80 {
        let d = b.drop_last();
        lemma_ascii_end_shape(d);
        assert forall|i: int| ascii_end(b) <= i < b.len() implies #[trigger] b[i] >= 0x80 by {
            if i < d.len() {
                assert(d[i] == b[i]);
            }
        }
        if ascii_end(b) > 0 {
            assert(d[ascii_end(d) - 1] == b[ascii_end(b) - 1]);
        }
    }
}

proof fn lemma_ascii_end_none(b: Seq<u8>)
    requires
        forall|i: int| 0 <= i < b.len() ==> #[trigger] b[i] >= 0x80,
    ensures
        ascii_end(b) == 0,
    decreases b.len(),
{
    if b.len() > 0 {
        lemma_ascii_end_none(b.drop_last());
    }
}

proof fn lemma_ascii_end_append(x: Seq<u8>, y: Seq<u8>)
    ensures
        ascii_end(y) > 0 ==> ascii_end(x + y) == x.len() + ascii_end(y),
        ascii_end(y) == 0 ==> ascii_end(x + y) == ascii_end(x),
    decreases y.len(),
{
    if y.len() == 0 {
        assert(x + y =~= x);
    } else {
        assert((x + y).drop_last() =~= x + y.drop_last());
        lemma_ascii_end_append(x, y.drop_last());
    }
}

proof fn lemma_non_ascii_run_prefix(x: Seq<u8>, y: Seq<u8>)
    requires
        x.len() > 0,
        x.last() < 0x80,
    ensures
        non_ascii_run(x + y) == non_ascii_run(x),
        non_ascii_run(x) < x.len(),
    decreases x.len(),
{
    if x[0] >= 0x80 {
        assert((x + y).drop_first() =~= x.drop_first() + y);
        lemma_non_ascii_run_prefix(x.drop_first(), y);
    }
}

/// Decoding is unaffected by a cut right after an ASCII byte.
proof fn lemma_decode_stream_append(x: Seq<u8>, y: Seq<u8>)
    requires
        x.len() == 0 || x.last() < 0x80,
    ensures
        decode_stream(x + y) == decode_stream(x) + decode_stream(y),
    decreases x.len(),
{
    if x.len() == 0 {
        assert(x + y =~= y);
        assert(decode_stream(x) + decode_stream(y) =~= decode_stream(y));
    } else if x[0] < 0x80 {
        assert((x + y).drop_first() =~= x.drop_first() + y);
        lemma_decode_stream_append(x.drop_first(), y);
        assert(seq![x[0] as char] + (decode_stream(x.drop_first()) + decode_stream(y)) =~= (seq![x[0] as char] + decode_stream(x.drop_first())) + decode_stream(y));
    } else {
        lemma_non_ascii_run_prefix(x, y);
        lemma_non_ascii_run_bound(x);
        let n = non_ascii_run(x) as int;
        assert((x + y).take(n) =~= x.take(n));
        assert((x + y).skip(n) =~= x.skip(n) + y);
        assert(x.skip(n).last() == x.last());
        lemma_decode_stream_append(x.skip(n), y);
        assert(utf8_lossy(x.take(n)) + (decode_stream(x.skip(n)) + decode_stream(y)) =~= (utf8_lossy(x.take(n)) + decode_stream(x.skip(n))) + decode_stream(y));
    }
}

/// Joining two runs of texts is joining each and putting them together.
pub proof fn lemma_concat_append(a: Seq<Seq<char>>, b: Seq<Seq<char>>)
    ensures
        concat(a + b) == concat(a) + concat(b),
    decreases b.len(),
{
    if b.len() == 0 {
        assert(a + b =~= a);
        assert(concat(a) + concat(b) =~= concat(a));
    } else {
        lemma_concat_append(a, b.drop_last());
        assert((a + b).drop_last() =~= a + b.drop_last());
        assert(concat(a) + concat(b.drop_last()) + b.last() =~= concat(a) + (concat(b.drop_last()) + b.last()));
    }
}

/// Handling the chunk `a` and then the chunk `b` leaves the same state, and
/// yields the same text in all, as handling `a + b` at once: where the
/// response is cut into chunks does not matter, also inside a character.
pub proof fn law_chunk_split(v: ParserView, a: Seq<u8>, b: Seq<u8>)
    ensures
        ({
            let (v1, j1) = chunk_step(v, a);
            let (v2, j2) = chunk_step(v1, b);
            let (v3, j3) = chunk_step(v, a + b);
            &&& v2 == v3
            &&& j1 + j2 == j3
        }),
{
    let all1 = v.pending + a;
    let e1 = ascii_end(all1) as int;
    let t1 = decode_stream(all1.take(e1));
    let rest1 = all1.skip(e1);
    let all2 = rest1 + b;
    let e2 = ascii_end(all2) as int;
    let t2 = decode_stream(all2.take(e2));
    let all3 = v.pending + (a + b);
    assert(all3 =~= all1 + b);
    let e3 = ascii_end(all3) as int;
    lemma_ascii_end_shape(all1);
    lemma_ascii_end_shape(b);
    lemma_ascii_end_append(all1, b);
    lemma_ascii_end_append(rest1, b);
    lemma_ascii_end_none(rest1);
    if ascii_end(b) > 0 {
        assert(all3.skip(e3) =~= all2.skip(e2));
        assert(all3.take(e3) =~= all1.take(e1) + all2.take(e2));
        if e1 > 0 {
            assert(all1.take(e1).last() == all1[e1 - 1]);
        }
        lemma_decode_stream_append(all1.take(e1), all2.take(e2));
    } else {
        assert(e3 == e1);
        assert(e2 == 0);
        assert(all2.take(e2) =~= Seq::<u8>::empty());
        assert(t2 =~= Seq::<char>::empty());
        assert(t1 + t2 =~= t1);
        assert(all3.skip(e3) =~= all2.skip(e2));
        assert(all3.take(e3) =~= all1.take(e1));
    }
    assert(decode_stream(all3.take(e3)) == t1 + t2);
    law_push_chunking(v.text, t1, t2);
    let first = extract(v.text + t1);
    let second = extract(first.1 + t2);
    lemma_concat_append(candidate_texts(first.0), candidate_texts(second.0));
}

/// The chunks one after another.
pub open spec fn flatten_chunks(chunks: Seq<Seq<u8>>) -> Seq<u8>
    decreases chunks.len(),
{
    if chunks.len() == 0 {
        seq![]
    } else {
        flatten_chunks(chunks.drop_last()) + chunks.last()
    }
}

/// What handling `chunks` one by one in state `v` leads to: the final state
/// and the texts found, joined over all chunks.
pub open spec fn chunk_steps(v: ParserView, chunks: Seq<Seq<u8>>) -> (ParserView, Seq<char>)
    decreases chunks.len(),
{
    if chunks.len() == 0 {
        (v, seq![])
    } else {
        let before = chunk_steps(v, chunks.drop_last());
        let after = chunk_step(before.0, chunks.last());
        (after.0, before.1 + after.1)
    }
}

/// However the response is cut into one or more chunks, handling them one
/// by one leaves the same state and yields the same text in all as handling
/// the whole response at once.
pub proof fn law_chunks_any_split(v: ParserView, chunks: Seq<Seq<u8>>)
    requires
        chunks.len() >= 1,
    ensures
        chunk_steps(v, chunks) == chunk_step(v, flatten_chunks(chunks)),
    decreases chunks.len(),
{
    if chunks.len() == 1 {
        let d = chunks.drop_last();
        assert(d.len() == 0);
        assert(flatten_chunks(d) == Seq::<u8>::empty());
        assert(chunk_steps(v, d) == (v, Seq::<char>::empty()));
        assert(flatten_chunks(chunks) =~= chunks.last());
        let r = chunk_step(v, chunks.last());
        assert(Seq::<char>::empty() + r.1 =~= r.1);
    } else {
        let d = chunks.drop_last();
        law_chunks_any_split(v, d);
        law_chunk_split(v, flatten_chunks(d), chunks.last());
        let one = chunk_step(v, flatten_chunks(d));
        let two = chunk_step(one.0, chunks.last());
        let all = chunk_step(v, flatten_chunks(d) + chunks.last());
        assert(chunk_steps(v, chunks).0 == two.0);
        assert(chunk_steps(v, chunks).1 == one.1 + two.1);
        assert(all.0 == two.0 && all.1 == one.1 + two.1);
    }
}

/// A single object yields its candidate text, if it has one, and nothing else.
pub proof fn law_candidate_texts_single(obj: Seq<char>)
    ensures
        candidate_texts(seq![obj]) == match json_field_at(obj, CANDIDATE_TEXT_POINTER@) {
            JsonFieldView::Text(t) => seq![t],
            _ => Seq::<Seq<char>>::empty(),
        },
{
    assert(seq![obj].drop_last() =~= Seq::<Seq<char>>::empty());
    assert(candidate_texts(seq![obj].drop_last()) == Seq::<Seq<char>>::empty());
    assert(seq![obj].last() == obj);
    assert(Seq::<Seq<char>>::empty().push(obj) =~= seq![obj]);
    match json_field_at(obj, CANDIDATE_TEXT_POINTER@) {
        JsonFieldView::Text(t) => {
            assert(Seq::<Seq<char>>::empty().push(t) =~= seq![t]);
        },
        _ => {},
    }
}

/// Text without a `{` holds no object: extraction keeps all of it.
pub proof fn law_extract_without_open(s: Seq<char>)
    requires
        forall|i: int| 0 <= i < s.len() ==> #[trigger] s[i] != '{',
    ensures
        extract(s) == (Seq::<Seq<char>>::empty(), s),
{
    lemma_open_none(s, 0);
}

proof fn lemma_open_none(s: Seq<char>, i: int)
    requires
        0 <= i,
        forall|x: int| i <= x < s.len() ==> #[trigger] s[x] != '{',
    ensures
        open_from(s, i) is None,
    decreases s.len() - i,
{
    if i < s.len() {
        lemma_open_none(s, i + 1);
    }
}

proof fn lemma_open_at(s: Seq<char>, i: int, k: int)
    requires
        0 <= i <= k < s.len(),
        s[k] == '{',
        forall|x: int| i <= x < k ==> #[trigger] s[x] != '{',
    ensures
        open_from(s, i) == Some(k),
    decreases k - i,
{
    if i < k {
        lemma_open_at(s, i + 1, k);
    }
}

proof fn lemma_close_skip(s: Seq<char>, st: int, i: int, k: int)
    requires
        0 <= i <= k <= s.len(),
        forall|x: int| i <= x < k ==> !#[trigger] closes_at(s, st, x),
    ensures
        close_from(s, st, i) == close_from(s, st, k),
    decreases k - i,
{
    if i < k {
        lemma_close_skip(s, st, i + 1, k);
    }
}

/// The state stays `st` over `s[i..k]` when no character there changes it.
proof fn lemma_scan_steady(s: Seq<char>, lo: int, i: int, k: int, st: ScanState)
    requires
        lo <= i <= k <= s.len(),
        scan(s, lo, i) == st,
        forall|x: int| i <= x < k ==> scan_step(st, #[trigger] s[x]) == st,
    ensures
        forall|x: int| i <= x <= k ==> #[trigger] scan(s, lo, x) == st,
    decreases k - i,
{
    if i < k {
        lemma_scan_steady(s, lo, i + 1, k, st);
    }
}

/// An object whose inside holds no brace and no quote is found whole after
/// any text without a `{`, and scanning goes on after it.
pub proof fn law_extract_flat_object(junk: Seq<char>, inner: Seq<char>, rest: Seq<char>)
    requires
        forall|i: int| 0 <= i < junk.len() ==> #[trigger] junk[i] != '{',
        forall|i: int| 0 <= i < inner.len() ==> #[trigger] inner[i] != '{' && inner[i] != '}' && inner[i] != '"',
    ensures
        ({
            let obj = seq!['{'] + inner + seq!['}'];
            extract(junk + obj + rest) == (seq![obj] + extract(rest).0, extract(rest).1)
        }),
{
    let obj = seq!['{'] + inner + seq!['}'];
    let s = junk + obj + rest;
    let st = junk.len() as int;
    let k = st + 1 + inner.len();
    assert(s[st] == '{');
    assert forall|x: int| 0 <= x < st implies #[trigger] s[x] != '{' by {
        assert(s[x] == junk[x]);
    }
    lemma_open_at(s, 0, st);
    let one = ScanState { depth: 1, in_string: false, escaped: false };
    assert(scan(s, st, st) == ScanState { depth: 0, in_string: false, escaped: false });
    assert(scan(s, st, st + 1) == one);
    assert forall|x: int| st + 1 <= x < k implies scan_step(one, #[trigger] s[x]) == one by {
        assert(s[x] == inner[x - st - 1]);
    }
    lemma_scan_steady(s, st, st + 1, k, one);
    assert(s[k] == '}');
    assert(closes_at(s, st, k));
    assert forall|x: int| st <= x < k implies !#[trigger] closes_at(s, st, x) by {
        if x > st {
            assert(s[x] == inner[x - st - 1]);
        }
    }
    lemma_close_skip(s, st, st, k);
    assert(close_from(s, st, st) == Some(k + 1));
    assert(s.subrange(st, k + 1) =~= obj);
    assert(s.skip(k + 1) =~= rest);
}

/// An object holding one string in which no quote or backslash stands is
/// found whole, whatever braces the string holds, after any text without a
/// `{`; scanning goes on after it.
pub proof fn law_extract_string_object(junk: Seq<char>, text: Seq<char>, rest: Seq<char>)
    requires
        forall|i: int| 0 <= i < junk.len() ==> #[trigger] junk[i] != '{',
        forall|i: int| 0 <= i < text.len() ==> #[trigger] text[i] != '"' && text[i] != '\\',
    ensures
        ({
            let obj = seq!['{', '"'] + text + seq!['"', '}'];
            extract(junk + obj + rest) == (seq![obj] + extract(rest).0, extract(rest).1)
        }),
{
    let obj = seq!['{', '"'] + text + seq!['"', '}'];
    let s = junk + obj + rest;
    let st = junk.len() as int;
    let q = st + 2 + text.len();
    assert(s[st] == '{');
    assert(s[st + 1] == '"');
    assert forall|x: int| 0 <= x < st implies #[trigger] s[x] != '{' by {
        assert(s[x] == junk[x]);
    }
    lemma_open_at(s, 0, st);
    let inside = ScanState { depth: 1, in_string: true, escaped: false };
    assert(scan(s, st, st) == ScanState { depth: 0, in_string: false, escaped: false });
    assert(scan(s, st, st + 1) == ScanState { depth: 1, in_string: false, escaped: false });
    assert(scan(s, st, st + 2) == inside);
    assert forall|x: int| st + 2 <= x < q implies scan_step(inside, #[trigger] s[x]) == inside by {
        assert(s[x] == text[x - st - 2]);
    }
    lemma_scan_steady(s, st, st + 2, q, inside);
    assert(s[q] == '"');
    assert(s[q + 1] == '}');
    assert(scan(s, st, q) == inside);
    assert(scan(s, st, q + 1) == ScanState { depth: 1, in_string: false, escaped: false });
    assert(closes_at(s, st, q + 1));
    assert forall|x: int| st <= x < q + 1 implies !#[trigger] closes_at(s, st, x) by {
        if st + 2 <= x < q {
            assert(scan(s, st, x) == inside);
        }
    }
    lemma_close_skip(s, st, st, q + 1);
    assert(close_from(s, st, st) == Some(q + 2));
    assert(s.subrange(st, q + 2) =~= obj);
    assert(s.skip(q + 2) =~= rest);
}

/// ASCII bytes decode to the characters they encode.
pub proof fn law_decode_ascii(b: Seq<u8>)
    requires
        forall|i: int| 0 <= i < b.len() ==> #[trigger] b[i] < 0x80,
    ensures
        decode_stream(b) == b.map_values(|x: u8| x as char),
    decreases b.len(),
{
    if b.len() > 0 {
        let d = b.drop_first();
        assert forall|i: int| 0 <= i < d.len() implies #[trigger] d[i] < 0x80 by {
            assert(d[i] == b[i + 1]);
        }
        law_decode_ascii(d);
        assert(seq![b[0] as char] + d.map_values(|x: u8| x as char) =~= b.map_values(|x: u8| x as char));
    }
}

/// A run of bytes none of which is ASCII is decoded as a whole by
/// `String::from_utf8_lossy`.
pub proof fn law_decode_non_ascii_run(b: Seq<u8>)
    requires
        b.len() > 0,
        forall|i: int| 0 <= i < b.len() ==> #[trigger] b[i] >= 0x80,
    ensures
        decode_stream(b) == utf8_lossy(b),
{
    lemma_non_ascii_run_exact(b, 0, b.len() as int);
    assert(b.skip(0) =~= b);
    assert(b.take(b.len() as int) =~= b);
    assert(b.skip(b.len() as int) =~= Seq::<u8>::empty());
    assert(decode_stream(b.skip(b.len() as int)) == Seq::<char>::empty());
    assert(utf8_lossy(b) + Seq::<char>::empty() =~= utf8_lossy(b));
}

/// Keeps what has been received and not yet used: the bytes after the last
/// ASCII byte (the start of a character that may go on in the next chunk),
/// and the decoded text that does not yet form a complete object.
pub struct GeminiStreamParser {
    pending: Vec<u8>,
    buffer: Vec<char>,
}

/// The abstract form of a [`GeminiStreamParser`].
pub struct ParserView {
    pub pending: Seq<u8>,
    pub text: Seq<char>,
}

impl View for GeminiStreamParser {
    type V = ParserView;

    closed spec fn view(&self) -> ParserView {
        ParserView { pending: self.pending@, text: self.buffer@ }
    }
}

/// First `{` in `v`.
fn find_open(v: &Vec<char>) -> (r: Option<usize>)
    ensures
        r matches Some(i) ==> open_from(v@, 0) == Some(i as int),
        r is None ==> open_from(v@, 0) is None,
{
    let n = v.len();
    let mut i: usize = 0;
    while i < n
        invariant
            i <= n == v.len(),
            open_from(v@, 0) == open_from(v@, i as int),
        decreases n - i,
    {
        if v[i] == '{' {
            return Some(i);
        }
        i = i + 1;
    }
    None
}

/// End of the object that opens at `start`.
fn find_close(v: &Vec<char>, start: usize) -> (r: Option<usize>)
    requires
        start < v.len(),
        v@[start as int] == '{',
    ensures
        r matches Some(e) ==> close_from(v@, start as int, start as int) == Some(e as int),
        r is None ==> close_from(v@, start as int, start as int) is None,
{
    let n = v.len();
    let mut k: usize = start;
    let mut d: usize = 0;
    let mut in_string = false;
    let mut escaped = false;
    while k < n
        invariant
            start <= k <= n == v.len(),
            v@[start as int] == '{',
            d == scan(v@, start as int, k as int).depth,
            in_string == scan(v@, start as int, k as int).in_string,
            escaped == scan(v@, start as int, k as int).escaped,
            !in_string ==> !escaped,
            d <= k - start,
            k > start ==> d >= 1,
            close_from(v@, start as int, start as int) == close_from(v@, start as int, k as int),
        decreases n - k,
    {
        let c = v[k];
        if in_string {
            if escaped {
                escaped = false;
            } else if c == '\\' {
                escaped = true;
            } else if c == '"' {
                in_string = false;
            }
        } else if c == '"' {
            in_string = true;
        } else if c == '{' {
            d = d + 1;
        } else if c == '}' {
            if d == 1 {
                return Some(k + 1);
            }
            d = d - 1;
        }
        k = k + 1;
    }
    None
}

impl GeminiStreamParser {
    /// A parser with nothing buffered.
    pub fn new() -> (r: Self)
        ensures
            r@.pending == Seq::<u8>::empty(),
            r@.text == Seq::<char>::empty(),
    {
        GeminiStreamParser { pending: Vec::new(), buffer: Vec::new() }
    }

    /// Appends `text` to what is buffered, takes out every complete object,
    /// and returns the candidate text of each one that has one, in order.
    pub fn push(&mut self, text: &str) -> (results: Vec<String>)
        ensures
            final(self)@.pending == old(self)@.pending,
            final(self)@.text == extract(old(self)@.text + text@).1,
            results.deep_view() == candidate_texts(extract(old(self)@.text + text@).0),
    {
        let ghost whole = self.buffer@ + text@;
        let ghost pend = self.pending@;
        let mut incoming = chars_of(text);
        self.buffer.append(&mut incoming);
        let mut results: Vec<String> = Vec::new();
        let ghost mut objs: Seq<Seq<char>> = seq![];
        assert(objs + extract(self.buffer@).0 =~= extract(self.buffer@).0);
        loop
            invariant
                extract(whole) == (objs + extract(self.buffer@).0, extract(self.buffer@).1),
                results.deep_view() == candidate_texts(objs),
                self.pending@ == pend,
            ensures
                self.pending@ == pend,
                extract(whole) == (objs, self.buffer@),
                results.deep_view() == candidate_texts(objs),
            decreases self.buffer@.len(),
        {
            let st = match find_open(&self.buffer) {
                None => {
                    assert(objs + Seq::<Seq<char>>::empty() =~= objs);
                    break;
                },
                Some(st) => st,
            };
            proof {
                lemma_open_from_bounds(self.buffer@, 0);
            }
            let end = match find_close(&self.buffer, st) {
                None => {
                    assert(objs + Seq::<Seq<char>>::empty() =~= objs);
                    break;
                },
                Some(e) => e,
            };
            proof {
                lemma_close_from_bounds(self.buffer@, st as int, st as int);
            }
            let obj = copy_range(&self.buffer, st, end);
            let obj_text = string_from_chars(obj.as_slice());
            let ghost before = results.deep_view();
            match json_field(obj_text.as_str(), CANDIDATE_TEXT_POINTER) {
                JsonField::Text(t) => {
                    results.push(t);
                    assert(results.deep_view() =~= before.push(t@));
                },
                _ => {},
            }
            let ghost old_buf = self.buffer@;
            let tail = self.buffer.split_off(end);
            self.buffer = tail;
            proof {
                assert(old_buf.skip(end as int) =~= self.buffer@);
                let new_objs = objs.push(obj@);
                assert(new_objs.drop_last() =~= objs);
                assert(objs + extract(old_buf).0 =~= new_objs + extract(self.buffer@).0);
                objs = new_objs;
            }
        }
        results
    }

    /// Handles one chunk of the response body: the bytes up to the last
    /// ASCII byte, with those kept from earlier chunks, are decoded (invalid
    /// sequences replaced) and pushed; the bytes after it are kept for the
    /// next chunk. Returns the texts found, joined.
    pub fn push_chunk(&mut self, bytes: &[u8]) -> (joined: String)
        ensures
            (final(self)@, joined@) == chunk_step(old(self)@, bytes@),
    {
        let mut all: Vec<u8> = Vec::new();
        std::mem::swap(&mut all, &mut self.pending);
        let ghost start = all@;
        let n = bytes.len();
        let mut i: usize = 0;
        while i < n
            invariant
                i <= n == bytes@.len(),
                all@ == start + bytes@.take(i as int),
            decreases n - i,
        {
            all.push(bytes[i]);
            i = i + 1;
            assert(all@ =~= start + bytes@.take(i as int));
        }
        assert(bytes@.take(n as int) =~= bytes@);
        let e = find_ascii_end(&all);
        let tail = all.split_off(e);
        self.pending = tail;
        let decoded = decode_stream_bytes(&all);
        let text = string_from_chars(decoded.as_slice());
        let tokens = self.push(text.as_str());
        join_all(&tokens)
    }
}

} // verus!
