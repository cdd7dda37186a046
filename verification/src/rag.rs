//! The knowledge base: documents with optional embeddings, adding and
//! deleting them, keyword matching of a query against a document, and the
//! ranking of documents by score.

use vstd::prelude::*;
use vstd::string::StringExecFns;
use crate::text::{
    all_ascii, chars_of, contains_chars, copy_range, has_substring, is_ascii_text,
    lemma_lowercase_upper, lemma_split_words_upper, lemma_trim_upper, lowercase, split_whitespace,
    skip_leading, skip_trailing, split_words, string_from_chars, word_len, char_is_whitespace, char_is_alphanumeric, to_lowercase, trim_bounds, trim_by, upper_text, upper_words,
    TrimClass,
};

verus! {

/// A document of the knowledge base. An embedding component is the IEEE-754
/// bit pattern of the `f32` that the embedding model returned.
pub struct Document {
    pub id: String,
    pub content: String,
    pub embedding: Option<Vec<u32>>,
}

/// The abstract form of a [`Document`].
pub struct DocumentView {
    pub id: Seq<char>,
    pub content: Seq<char>,
    pub embedding: Option<Seq<u32>>,
}

impl View for Document {
    type V = DocumentView;

    open spec fn view(&self) -> DocumentView {
        DocumentView {
            id: self.id@,
            content: self.content@,
            embedding: match self.embedding {
                Some(e) => Some(e@),
                None => None,
            },
        }
    }
}

/// The abstract form of a sequence of documents.
pub open spec fn docs_view(docs: Seq<Document>) -> Seq<DocumentView> {
    docs.map_values(|d: Document| d@)
}

/// The documents of the knowledge base, in the order they were added.
pub struct RagEngine {
    pub documents: Vec<Document>,
}

impl View for RagEngine {
    type V = Seq<DocumentView>;

    open spec fn view(&self) -> Seq<DocumentView> {
        docs_view(self.documents@)
    }
}

/// A lowercase hexadecimal digit.
pub open spec fn is_lower_hex(c: char) -> bool {
    ('0' <= c && c <= '9') || ('a' <= c && c <= 'f')
}

/// `s` is a random (version 4) UUID in hyphenated lowercase form, such as
/// `67e55044-10b1-426f-9247-bb680e5fe0c8`.
pub open spec fn is_uuid_v4_text(s: Seq<char>) -> bool {
    &&& s.len() == 36
    &&& forall|i: int|
        0 <= i < 36 ==> if i == 8 || i == 13 || i == 18 || i == 23 {
            s[i] == '-'
        } else {
            is_lower_hex(#[trigger] s[i])
        }
    &&& s[14] == '4'
    &&& (s[19] == '8' || s[19] == '9' || s[19] == 'a' || s[19] == 'b')
}

/// Trusted: `uuid::Uuid::new_v4()` formatted with `to_string()`. The value is
/// random, so the contract states only its shape: the hyphenated lowercase
/// form, with the version digit `4` and a variant digit among `8 9 a b`.
/// Nothing is said of it being different from earlier results.
#[verifier::external_body]
fn new_document_id() -> (r: String)
    ensures
        is_uuid_v4_text(r@),
{
    uuid::Uuid::new_v4().to_string()
}

/// The text of the `i`-th document that a new knowledge base holds.
pub open spec fn default_text(i: int) -> Seq<char> {
    if i == 0 {
        "Información de la empresa: Nuestro horario de atención es de 24 horas al día, 7 días a la semana (24/7). Soportamos múltiples idiomas, incluidos español, inglés, francés y alemán."@
    } else if i == 1 {
        "Información de contacto: Puedes contactarnos vía email en soporte@ejemplo.com o por teléfono al +1 (555) 123-4567."@
    } else if i == 2 {
        "Políticas de privacidad y seguridad: Todos los datos de audio transmitidos a través de WebSockets se procesan de forma temporal y segura. Cumplimos con estándares estrictos de protección de datos."@
    } else {
        "Características del Asistente: Este asistente utiliza Google Gemini 2.5 Flash para responder preguntas. Tiene dos modos: Modo Texto Rápido y Modo Audio Híbrido. La palabra de activación predeterminada es 'asistente' y para finalizar di 'adiós' o 'apagar'."@
    }
}

/// The number of documents that a new knowledge base holds.
pub const DEFAULT_DOCUMENT_COUNT: usize = 4;

/// `docs` without the documents whose id is `id`, the others in order.
pub open spec fn without_id(docs: Seq<DocumentView>, id: Seq<char>) -> Seq<DocumentView>
    decreases docs.len(),
{
    if docs.len() == 0 {
        seq![]
    } else if docs.last().id == id {
        without_id(docs.drop_last(), id)
    } else {
        without_id(docs.drop_last(), id).push(docs.last())
    }
}

/// Some document of `docs` has the id `id`.
pub open spec fn has_id(docs: Seq<DocumentView>, id: Seq<char>) -> bool {
    exists|i: int| 0 <= i < docs.len() && #[trigger] docs[i].id == id
}

pub proof fn lemma_without_id_len(docs: Seq<DocumentView>, id: Seq<char>)
    ensures
        without_id(docs, id).len() <= docs.len(),
        without_id(docs, id).len() < docs.len() <==> has_id(docs, id),
    decreases docs.len(),
{
    if docs.len() > 0 {
        lemma_without_id_len(docs.drop_last(), id);
        let d = docs.drop_last();
        if has_id(d, id) {
            let i = choose|i: int| 0 <= i < d.len() && #[trigger] d[i].id == id;
            assert(docs[i].id == id);
        }
        if has_id(docs, id) && docs.last().id != id {
            let i = choose|i: int| 0 <= i < docs.len() && #[trigger] docs[i].id == id;
            assert(d[i].id == id);
        }
    }
}

/// Whether two texts are the same.
fn same_text(a: &str, b: &str) -> (r: bool)
    ensures
        r == (a@ == b@),
{
    let x = chars_of(a);
    let y = chars_of(b);
    if x.len() != y.len() {
        return false;
    }
    let n = x.len();
    let mut i: usize = 0;
    while i < n
        invariant
            i <= n == x.len() == y.len(),
            x@ == a@,
            y@ == b@,
            forall|t: int| 0 <= t < i ==> x@[t] == y@[t],
        decreases n - i,
    {
        if x[i] != y[i] {
            assert(x@[i as int] != y@[i as int]);
            return false;
        }
        i = i + 1;
    }
    assert(x@ =~= y@);
    true
}

/// The non-empty words of `words` after trimming non-alphanumeric
/// characters from their ends, in order.
pub open spec fn nonempty_trimmed(words: Seq<Seq<char>>) -> Seq<Seq<char>>
    decreases words.len(),
{
    if words.len() == 0 {
        seq![]
    } else {
        let before = nonempty_trimmed(words.drop_last());
        let t = trim_by(words.last(), TrimClass::NonAlphanumeric);
        if t.len() > 0 {
            before.push(t)
        } else {
            before
        }
    }
}

/// The terms of a query: its whitespace-separated words, trimmed of
/// non-alphanumeric characters at both ends, empty ones left out.
pub open spec fn query_terms(query: Seq<char>) -> Seq<Seq<char>> {
    nonempty_trimmed(split_words(query))
}

/// How many of `terms`, lowercased, occur in `hay`.
pub open spec fn count_found(terms: Seq<Seq<char>>, hay: Seq<char>) -> nat
    decreases terms.len(),
{
    if terms.len() == 0 {
        0
    } else {
        count_found(terms.drop_last(), hay) + if has_substring(hay, lowercase(terms.last())) {
            1nat
        } else {
            0nat
        }
    }
}

pub proof fn lemma_count_found_bound(terms: Seq<Seq<char>>, hay: Seq<char>)
    ensures
        count_found(terms, hay) <= terms.len(),
    decreases terms.len(),
{
    if terms.len() > 0 {
        lemma_count_found_bound(terms.drop_last(), hay);
    }
}

/// How well a document matches a query by keywords: `matched` of the
/// query's `total` terms occur in it. The similarity is `matched / total`,
/// and 0 when the query has no terms.
#[derive(Clone, Copy, PartialEq, Eq, Debug)]
pub struct KeywordScore {
    pub matched: usize,
    pub total: usize,
}

/// Where the score of a document comes from in a search.
#[derive(Clone, Copy, PartialEq, Eq, Debug)]
pub enum ScoreSource {
    /// Cosine similarity of the query's embedding and the document's.
    Vector,
    /// Keyword matching of the query against the document's content.
    Keyword(KeywordScore),
}

/// The source of the score of `doc` for `query`.
pub open spec fn score_source(doc: DocumentView, query: Seq<char>, query_has_embedding: bool) -> ScoreSource {
    if query_has_embedding && doc.embedding is Some {
        ScoreSource::Vector
    } else {
        ScoreSource::Keyword(keyword_score(doc.content, query))
    }
}

/// The keyword score of `content` for `query`.
pub open spec fn keyword_score(content: Seq<char>, query: Seq<char>) -> KeywordScore {
    KeywordScore {
        matched: count_found(query_terms(query), lowercase(content)) as usize,
        total: query_terms(query).len() as usize,
    }
}

/// `keys[i]` ranks before `keys[j]`: a higher key first, and among equal
/// keys the earlier position first.
pub open spec fn ranks_before(keys: Seq<u32>, i: int, j: int) -> bool {
    keys[i] > keys[j] || (keys[i] == keys[j] && i < j)
}

/// `r` lists the `limit` best-ranked positions of `keys` (all of them if
/// there are fewer), best first: the first `limit` of a stable sort of the
/// positions by descending key.
pub open spec fn is_top_ranking(keys: Seq<u32>, limit: nat, r: Seq<usize>) -> bool {
    &&& r.len() == if limit < keys.len() { limit } else { keys.len() }
    &&& forall|a: int| 0 <= a < r.len() ==> (#[trigger] r[a]) < keys.len()
    &&& forall|a: int, b: int|
        0 <= a < b < r.len() ==> ranks_before(keys, #[trigger] r[a] as int, #[trigger] r[b] as int)
    &&& forall|x: int, a: int|
        0 <= x < keys.len() && !r.contains(x as usize) && 0 <= a < r.len()
            ==> #[trigger] ranks_before(keys, r[a] as int, x)
}

/// The positions of `keys` ranked by descending key, ties in their order,
/// cut to the first `limit`.
pub fn rank_by_score(keys: &Vec<u32>, limit: usize) -> (r: Vec<usize>)
    ensures
        is_top_ranking(keys@, limit as nat, r@),
{
    let n = keys.len();
    let mut sorted: Vec<usize> = Vec::new();
    let mut i: usize = 0;
    while i < n
        invariant
            i <= n == keys.len(),
            sorted@.len() == i,
            forall|a: int| 0 <= a < sorted@.len() ==> (#[trigger] sorted@[a]) < i,
            forall|x: int| 0 <= x < i ==> #[trigger] sorted@.contains(x as usize),
            forall|a: int, b: int|
                0 <= a < b < sorted@.len() ==> ranks_before(
                    keys@,
                    #[trigger] sorted@[a] as int,
                    #[trigger] sorted@[b] as int,
                ),
        decreases n - i,
    {
        let mut pos: usize = 0;
        while pos < sorted.len() && keys[sorted[pos]] >= keys[i]
            invariant
                i < n == keys.len(),
                pos <= sorted@.len(),
                forall|a: int| 0 <= a < sorted@.len() ==> (#[trigger] sorted@[a]) < i,
                forall|a: int| 0 <= a < pos ==> keys@[#[trigger] sorted@[a] as int] >= keys@[i as int],
            decreases sorted@.len() - pos,
        {
            pos = pos + 1;
        }
        let ghost old_sorted = sorted@;
        sorted.insert(pos, i);
        proof {
            assert(sorted@ == old_sorted.insert(pos as int, i));
            assert forall|a: int, b: int| 0 <= a < b < sorted@.len() implies ranks_before(
                keys@,
                #[trigger] sorted@[a] as int,
                #[trigger] sorted@[b] as int,
            ) by {
                if b < pos {
                    assert(sorted@[a] == old_sorted[a] && sorted@[b] == old_sorted[b]);
                } else if b == pos {
                    assert(sorted@[a] == old_sorted[a]);
                } else if a == pos {
                    assert(sorted@[b] == old_sorted[b - 1]);
                    assert(ranks_before(keys@, old_sorted[pos as int] as int, old_sorted[b - 1] as int) || b - 1 == pos);
                } else if a < pos {
                    assert(sorted@[a] == old_sorted[a] && sorted@[b] == old_sorted[b - 1]);
                } else {
                    assert(sorted@[a] == old_sorted[a - 1] && sorted@[b] == old_sorted[b - 1]);
                }
            }
            assert forall|x: int| 0 <= x < i + 1 implies #[trigger] sorted@.contains(x as usize) by {
                if x == i {
                    assert(sorted@[pos as int] == i);
                } else {
                    assert(old_sorted.contains(x as usize));
                    let k = choose|k: int| 0 <= k < old_sorted.len() && old_sorted[k] == x as usize;
                    if k < pos {
                        assert(sorted@[k] == x as usize);
                    } else {
                        assert(sorted@[k + 1] == x as usize);
                    }
                }
            }
        }
        i = i + 1;
    }
    let m = if limit < n { limit } else { n };
    let ghost full = sorted@;
    let mut r = sorted;
    r.truncate(m);
    proof {
        assert forall|x: int, a: int|
            0 <= x < keys@.len() && !r@.contains(x as usize) && 0 <= a < r@.len()
            implies #[trigger] ranks_before(keys@, r@[a] as int, x) by {
            assert(full.contains(x as usize));
            let k = choose|k: int| 0 <= k < full.len() && full[k] == x as usize;
            if k < m {
                assert(r@[k] == x as usize);
                assert(r@.contains(x as usize));
            } else {
                assert(r@[a] == full[a]);
                assert(ranks_before(keys@, full[a] as int, full[k] as int));
            }
        }
    }
    r
}

proof fn lemma_without_absent_id(docs: Seq<DocumentView>, id: Seq<char>)
    requires
        !has_id(docs, id),
    ensures
        without_id(docs, id) == docs,
    decreases docs.len(),
{
    if docs.len() > 0 {
        let d = docs.drop_last();
        assert(!has_id(d, id)) by {
            if has_id(d, id) {
                let i = choose|i: int| 0 <= i < d.len() && #[trigger] d[i].id == id;
                assert(docs[i].id == id);
            }
        }
        lemma_without_absent_id(d, id);
        assert(docs[docs.len() - 1].id != id);
        assert(d.push(docs.last()) =~= docs);
    }
}

/// After a delete no document has the deleted id.
pub proof fn law_delete_leaves_no_such_id(docs: Seq<DocumentView>, id: Seq<char>)
    ensures
        !has_id(without_id(docs, id), id),
    decreases docs.len(),
{
    if docs.len() > 0 {
        law_delete_leaves_no_such_id(docs.drop_last(), id);
        let w = without_id(docs.drop_last(), id);
        if docs.last().id != id {
            if has_id(w.push(docs.last()), id) {
                let i = choose|i: int| 0 <= i < w.len() + 1 && #[trigger] w.push(docs.last())[i].id == id;
                assert(w[i].id == id);
            }
        }
    }
}

/// Deleting an id a second time changes nothing.
pub proof fn law_delete_idempotent(docs: Seq<DocumentView>, id: Seq<char>)
    ensures
        without_id(without_id(docs, id), id) == without_id(docs, id),
{
    law_delete_leaves_no_such_id(docs, id);
    lemma_without_absent_id(without_id(docs, id), id);
}

/// Adding a document under an id that no other document has, and then
/// deleting that id, gives back the documents there were before.
pub proof fn law_add_then_delete(docs: Seq<DocumentView>, added: DocumentView)
    requires
        !has_id(docs, added.id),
    ensures
        without_id(docs.push(added), added.id) == docs,
{
    assert(docs.push(added).drop_last() =~= docs);
    lemma_without_absent_id(docs, added.id);
}

/// Deleting an id that no document has changes nothing, and says so.
pub proof fn law_delete_absent_is_noop(docs: Seq<DocumentView>, id: Seq<char>)
    requires
        !has_id(docs, id),
    ensures
        without_id(docs, id) == docs,
{
    lemma_without_absent_id(docs, id);
}

/// A document never matches more terms than the query has.
pub proof fn law_keyword_score_bounded(content: Seq<char>, query: Seq<char>)
    ensures
        count_found(query_terms(query), lowercase(content)) <= query_terms(query).len(),
{
    lemma_count_found_bound(query_terms(query), lowercase(content));
}

proof fn lemma_nonempty_trimmed_upper(ws: Seq<Seq<char>>)
    requires
        all_ascii(ws),
    ensures
        nonempty_trimmed(upper_words(ws)) == upper_words(nonempty_trimmed(ws)),
        all_ascii(nonempty_trimmed(ws)),
    decreases ws.len(),
{
    if ws.len() == 0 {
        assert(upper_words(ws) =~= Seq::<Seq<char>>::empty());
        assert(upper_words(nonempty_trimmed(ws)) =~= Seq::<Seq<char>>::empty());
    } else {
        let d = ws.drop_last();
        assert(all_ascii(d)) by {
            assert forall|i: int| 0 <= i < d.len() implies is_ascii_text(#[trigger] d[i]) by {
                assert(d[i] == ws[i]);
            }
        }
        lemma_nonempty_trimmed_upper(d);
        assert(upper_words(ws).drop_last() =~= upper_words(d));
        assert(upper_words(ws).last() == upper_text(ws.last()));
        assert(is_ascii_text(ws[ws.len() - 1]));
        lemma_trim_upper(ws.last(), TrimClass::NonAlphanumeric);
        let t = trim_by(ws.last(), TrimClass::NonAlphanumeric);
        let before = nonempty_trimmed(d);
        if t.len() > 0 {
            assert(upper_words(before.push(t)) =~= upper_words(before).push(upper_text(t)));
            assert forall|i: int| 0 <= i < before.push(t).len() implies is_ascii_text(#[trigger] before.push(t)[i]) by {
                if i < before.len() {
                    assert(before.push(t)[i] == before[i]);
                }
            }
        }
    }
}

proof fn lemma_count_found_upper(terms: Seq<Seq<char>>, hay: Seq<char>)
    requires
        all_ascii(terms),
    ensures
        count_found(upper_words(terms), hay) == count_found(terms, hay),
    decreases terms.len(),
{
    if terms.len() > 0 {
        let d = terms.drop_last();
        assert(all_ascii(d)) by {
            assert forall|i: int| 0 <= i < d.len() implies is_ascii_text(#[trigger] d[i]) by {
                assert(d[i] == terms[i]);
            }
        }
        lemma_count_found_upper(d, hay);
        assert(upper_words(terms).drop_last() =~= upper_words(d));
        assert(is_ascii_text(terms[terms.len() - 1]));
        lemma_lowercase_upper(terms.last());
    }
}

/// For ASCII text, the letter case of the document and of the query never
/// changes the keyword score.
pub proof fn law_keyword_case_insensitive(content: Seq<char>, query: Seq<char>)
    requires
        is_ascii_text(content),
        is_ascii_text(query),
    ensures
        keyword_score(upper_text(content), query) == keyword_score(content, query),
        keyword_score(content, upper_text(query)) == keyword_score(content, query),
{
    lemma_lowercase_upper(content);
    lemma_split_words_upper(query);
    lemma_nonempty_trimmed_upper(split_words(query));
    lemma_count_found_upper(query_terms(query), lowercase(content));
    assert(upper_words(query_terms(query)).len() == query_terms(query).len());
}

/// Deleting from no documents leaves none.
pub proof fn law_delete_from_empty(id: Seq<char>)
    ensures
        without_id(Seq::<DocumentView>::empty(), id) == Seq::<DocumentView>::empty(),
{
}

/// A document is dropped by a delete exactly when it has the deleted id;
/// the others stay, in order.
pub proof fn law_delete_push(docs: Seq<DocumentView>, d: DocumentView, id: Seq<char>)
    ensures
        without_id(docs.push(d), id) == if d.id == id {
            without_id(docs, id)
        } else {
            without_id(docs, id).push(d)
        },
{
    assert(docs.push(d).drop_last() =~= docs);
}

/// The terms of two runs of words are those of each run, in order; a word
/// gives its trimmed form as a term unless trimming leaves nothing.
pub proof fn law_nonempty_trimmed(a: Seq<Seq<char>>, w: Seq<char>)
    ensures
        nonempty_trimmed(Seq::<Seq<char>>::empty()) == Seq::<Seq<char>>::empty(),
        nonempty_trimmed(a.push(w)) == if trim_by(w, TrimClass::NonAlphanumeric).len() > 0 {
            nonempty_trimmed(a).push(trim_by(w, TrimClass::NonAlphanumeric))
        } else {
            nonempty_trimmed(a)
        },
{
    assert(a.push(w).drop_last() =~= a);
}

/// No terms, no matches.
pub proof fn law_count_found_empty(hay: Seq<char>)
    ensures
        count_found(Seq::<Seq<char>>::empty(), hay) == 0,
{
}

/// A single term counts exactly when its full lowercase form occurs in `hay`,
/// whatever characters it holds.
pub proof fn law_count_found_single(term: Seq<char>, hay: Seq<char>)
    ensures
        count_found(seq![term], hay) == if has_substring(hay, lowercase(term)) {
            1nat
        } else {
            0nat
        },
{
    assert(seq![term].drop_last() =~= Seq::<Seq<char>>::empty());
    assert(count_found(seq![term].drop_last(), hay) == 0);
    assert(seq![term].last() == term);
}

/// The matches of two runs of terms add up: each term counts on its own.
pub proof fn law_count_found_append(a: Seq<Seq<char>>, b: Seq<Seq<char>>, hay: Seq<char>)
    ensures
        count_found(a + b, hay) == count_found(a, hay) + count_found(b, hay),
    decreases b.len(),
{
    if b.len() == 0 {
        assert(a + b =~= a);
    } else {
        law_count_found_append(a, b.drop_last(), hay);
        assert((a + b).drop_last() =~= a + b.drop_last());
        assert((a + b).last() == b.last());
    }
}

/// How many terms a query has depends on the query alone, not on the
/// document it is matched against.
pub proof fn law_keyword_total_is_the_query_terms(c1: Seq<char>, c2: Seq<char>, query: Seq<char>)
    ensures
        keyword_score(c1, query).total == keyword_score(c2, query).total,
        keyword_score(c1, query).total == query_terms(query).len() as usize,
{
}

proof fn lemma_split_single_word(w: Seq<char>)
    requires
        w.len() > 0,
        forall|i: int| 0 <= i < w.len() ==> !char_is_whitespace(#[trigger] w[i]),
    ensures
        split_words(w) == seq![w],
{
    assert(w.skip(0) =~= w);
    lemma_word_len_run_all(w, 0);
    assert(word_len(w) == w.len());
    assert(w.take(w.len() as int) =~= w);
    assert(w.skip(w.len() as int) =~= Seq::<char>::empty());
    assert(split_words(w.skip(w.len() as int)) == Seq::<Seq<char>>::empty());
    assert(seq![w] + Seq::<Seq<char>>::empty() =~= seq![w]);
}

proof fn lemma_word_len_run_all(w: Seq<char>, i: int)
    requires
        0 <= i <= w.len(),
        forall|t: int| 0 <= t < w.len() ==> !char_is_whitespace(#[trigger] w[t]),
    ensures
        word_len(w.skip(i)) == w.len() - i,
    decreases w.len() - i,
{
    if i < w.len() {
        lemma_word_len_run_all(w, i + 1);
        assert(w.skip(i).drop_first() =~= w.skip(i + 1));
    }
}

/// A query that is one term (no whitespace in it, a letter or digit at each
/// end) matches a document exactly when the term, lowercased, occurs in the
/// lowercased document; letter case never matters, also outside ASCII.
pub proof fn law_keyword_single_term(content: Seq<char>, term: Seq<char>)
    requires
        term.len() > 0,
        forall|i: int| 0 <= i < term.len() ==> !char_is_whitespace(#[trigger] term[i]),
        char_is_alphanumeric(term[0]),
        char_is_alphanumeric(term.last()),
    ensures
        keyword_score(content, term) == (KeywordScore {
            matched: if has_substring(lowercase(content), lowercase(term)) {
                1usize
            } else {
                0usize
            },
            total: 1usize,
        }),
{
    lemma_split_single_word(term);
    assert(skip_leading(term, TrimClass::NonAlphanumeric) == term);
    assert(skip_trailing(term, TrimClass::NonAlphanumeric) == term);
    assert(trim_by(term, TrimClass::NonAlphanumeric) == term);
    assert(seq![term].drop_last() =~= Seq::<Seq<char>>::empty());
    assert(nonempty_trimmed(seq![term].drop_last()) == Seq::<Seq<char>>::empty());
    assert(seq![term].last() == term);
    assert(Seq::<Seq<char>>::empty().push(term) =~= seq![term]);
    assert(query_terms(term) =~= seq![term]);
    law_count_found_single(term, lowercase(content));
}

/// A document without an embedding is scored by keyword matching of its
/// content against the query, the same whether or not the query has an
/// embedding; a document with one, against a query with one, by vectors.
pub proof fn law_score_source_fallback(doc: DocumentView, query: Seq<char>)
    ensures
        doc.embedding is None ==> score_source(doc, query, true) == score_source(doc, query, false),
        score_source(doc, query, false) == ScoreSource::Keyword(keyword_score(doc.content, query)),
        doc.embedding is Some ==> score_source(doc, query, true) == ScoreSource::Vector,
        score_source(doc, query, false) matches ScoreSource::Keyword(k) && k.total
            == query_terms(query).len() as usize,
{
}

/// The texts of the default documents.
pub proof fn law_default_texts()
    ensures
        default_text(0) == "Información de la empresa: Nuestro horario de atención es de 24 horas al día, 7 días a la semana (24/7). Soportamos múltiples idiomas, incluidos español, inglés, francés y alemán."@,
        default_text(1) == "Información de contacto: Puedes contactarnos vía email en soporte@ejemplo.com o por teléfono al +1 (555) 123-4567."@,
        default_text(2) == "Políticas de privacidad y seguridad: Todos los datos de audio transmitidos a través de WebSockets se procesan de forma temporal y segura. Cumplimos con estándares estrictos de protección de datos."@,
        default_text(3) == "Características del Asistente: Este asistente utiliza Google Gemini 2.5 Flash para responder preguntas. Tiene dos modos: Modo Texto Rápido y Modo Audio Híbrido. La palabra de activación predeterminada es 'asistente' y para finalizar di 'adiós' o 'apagar'."@,
{
}

impl Document {
    /// A copy of this document.
    pub fn duplicate(&self) -> (r: Document)
        ensures
            r@ == self@,
    {
        let embedding = match &self.embedding {
            Some(e) => {
                let mut c: Vec<u32> = Vec::new();
                let n = e.len();
                let mut i: usize = 0;
                while i < n
                    invariant
                        i <= n == e.len(),
                        c@ == e@.take(i as int),
                    decreases n - i,
                {
                    c.push(e[i]);
                    i = i + 1;
                    assert(c@ =~= e@.take(i as int));
                }
                assert(e@.take(n as int) =~= e@);
                Some(c)
            },
            None => None,
        };
        Document { id: self.id.clone(), content: self.content.clone(), embedding }
    }
}

impl RagEngine {
    /// A knowledge base holding the default documents, each under a fresh id
    /// and without an embedding.
    pub fn new() -> (r: Self)
        ensures
            r@.len() == DEFAULT_DOCUMENT_COUNT,
            forall|i: int|
                0 <= i < DEFAULT_DOCUMENT_COUNT ==> {
                    &&& (#[trigger] r@[i]).content == default_text(i)
                    &&& r@[i].embedding is None
                    &&& is_uuid_v4_text(r@[i].id)
                },
    {
        let mut engine = RagEngine { documents: Vec::new() };
        assert(engine@.len() == 0);
        engine.load_defaults();
        assert forall|i: int| 0 <= i < DEFAULT_DOCUMENT_COUNT implies {
            &&& (#[trigger] engine@[i]).content == default_text(i)
            &&& engine@[i].embedding is None
            &&& is_uuid_v4_text(engine@[i].id)
        } by {
            assert(engine@[0 + i] == engine@[i]);
        }
        engine
    }

    fn push_text(&mut self, text: &str)
        ensures
            final(self).documents@.len() == old(self).documents@.len() + 1,
            forall|i: int|
                0 <= i < old(self).documents@.len() ==> final(self).documents@[i] == old(
                    self,
                ).documents@[i],
            final(self).documents@.last()@.content == text@,
            final(self).documents@.last()@.embedding is None,
            is_uuid_v4_text(final(self).documents@.last()@.id),
    {
        self.documents.push(
            Document { id: new_document_id(), content: String::from_str(text), embedding: None },
        );
    }

    /// Appends the default documents, each under a fresh id and without an
    /// embedding.
    fn load_defaults(&mut self)
        ensures
            final(self)@.len() == old(self)@.len() + DEFAULT_DOCUMENT_COUNT,
            final(self)@.take(old(self)@.len() as int) == old(self)@,
            forall|i: int|
                0 <= i < DEFAULT_DOCUMENT_COUNT ==> {
                    &&& (#[trigger] final(self)@[old(self)@.len() + i]).content == default_text(i)
                    &&& final(self)@[old(self)@.len() + i].embedding is None
                    &&& is_uuid_v4_text(final(self)@[old(self)@.len() + i].id)
                },
    {
        let ghost before = self@;
        self.push_text("Información de la empresa: Nuestro horario de atención es de 24 horas al día, 7 días a la semana (24/7). Soportamos múltiples idiomas, incluidos español, inglés, francés y alemán.");
        self.push_text("Información de contacto: Puedes contactarnos vía email en soporte@ejemplo.com o por teléfono al +1 (555) 123-4567.");
        self.push_text("Políticas de privacidad y seguridad: Todos los datos de audio transmitidos a través de WebSockets se procesan de forma temporal y segura. Cumplimos con estándares estrictos de protección de datos.");
        self.push_text("Características del Asistente: Este asistente utiliza Google Gemini 2.5 Flash para responder preguntas. Tiene dos modos: Modo Texto Rápido y Modo Audio Híbrido. La palabra de activación predeterminada es 'asistente' y para finalizar di 'adiós' o 'apagar'.");
        assert(self@.take(before.len() as int) =~= before);
    }

    /// Adds a document with `content` and `embedding` under a fresh id, at
    /// the end, and returns a copy of it.
    pub fn add_document(&mut self, content: String, embedding: Option<Vec<u32>>) -> (doc: Document)
        ensures
            final(self)@ == old(self)@.push(doc@),
            doc@.content == content@,
            doc@.embedding == (match embedding {
                Some(e) => Some(e@),
                None => None::<Seq<u32>>,
            }),
            is_uuid_v4_text(doc@.id),
    {
        self.add_document_with_id(new_document_id(), content, embedding)
    }

    /// Adds a document with `id`, `content` and `embedding` at the end, and
    /// returns a copy of it.
    pub fn add_document_with_id(&mut self, id: String, content: String, embedding: Option<Vec<u32>>) -> (doc: Document)
        ensures
            final(self)@ == old(self)@.push(doc@),
            doc@.id == id@,
            doc@.content == content@,
            doc@.embedding == (match embedding {
                Some(e) => Some(e@),
                None => None::<Seq<u32>>,
            }),
    {
        let doc = Document { id, content, embedding };
        let copy = doc.duplicate();
        let ghost before = self.documents@;
        self.documents.push(doc);
        assert(docs_view(self.documents@) =~= docs_view(before).push(copy@));
        copy
    }

    /// Deletes every document whose id is `id`, keeping the others in order;
    /// true if there was one.
    pub fn delete_document(&mut self, id: &str) -> (deleted: bool)
        ensures
            final(self)@ == without_id(old(self)@, id@),
            deleted == has_id(old(self)@, id@),
    {
        let ghost start = self@;
        let mut rest: Vec<Document> = Vec::new();
        std::mem::swap(&mut rest, &mut self.documents);
        let len_before = rest.len();
        let mut kept: Vec<Document> = Vec::new();
        let ghost mut seen: int = 0;
        assert(docs_view(rest@) =~= start.skip(0));
        assert(without_id(start.take(0), id@) =~= docs_view(kept@));
        while rest.len() > 0
            invariant
                0 <= seen <= start.len(),
                docs_view(rest@) == start.skip(seen),
                docs_view(kept@) == without_id(start.take(seen), id@),
            decreases rest.len(),
        {
            let ghost old_rest = rest@;
            assert(docs_view(old_rest).len() == old_rest.len());
            assert(docs_view(old_rest)[0] == old_rest[0]@);
            let d = rest.remove(0);
            proof {
                assert(d@ == start[seen]);
                assert forall|k: int| 0 <= k < rest@.len() implies docs_view(rest@)[k] == start.skip(seen + 1)[k] by {
                    assert(rest@[k] == old_rest[k + 1]);
                    assert(docs_view(old_rest)[k + 1] == start.skip(seen)[k + 1]);
                }
                assert(docs_view(rest@) =~= start.skip(seen + 1));
                assert(start.take(seen + 1).drop_last() =~= start.take(seen));
                assert(start.take(seen + 1).last() == start[seen]);
            }
            if same_text(d.id.as_str(), id) {
            } else {
                let ghost kv = docs_view(kept@);
                kept.push(d);
                assert(docs_view(kept@) =~= kv.push(start[seen]));
            }
            proof {
                seen = seen + 1;
            }
        }
        assert(start.take(seen) =~= start);
        self.documents = kept;
        proof {
            lemma_without_id_len(start, id@);
        }
        self.documents.len() < len_before
    }

    /// The keyword score of `doc` for `query`: how many of the query's terms
    /// occur, lowercased, in the lowercased document, out of how many terms
    /// the query has.
    pub fn keyword_similarity(doc: &str, query: &str) -> (r: KeywordScore)
        ensures
            r == keyword_score(doc@, query@),
            r.total == query_terms(query@).len(),
            r.matched == count_found(query_terms(query@), lowercase(doc@)),
            r.matched <= r.total,
    {
        let qchars = chars_of(query);
        let words = split_whitespace(&qchars);
        let mut terms: Vec<Vec<char>> = Vec::new();
        let nw = words.len();
        let mut i: usize = 0;
        while i < nw
            invariant
                i <= nw == words.len(),
                words.deep_view() == split_words(query@),
                terms.deep_view() == nonempty_trimmed(words.deep_view().take(i as int)),
            decreases nw - i,
        {
            let w = &words[i];
            assert(w.deep_view() =~= w@);
            assert(words.deep_view()[i as int] == w@);
            assert(words.deep_view().take(i + 1).drop_last() =~= words.deep_view().take(i as int));
            let (lo, hi) = trim_bounds(w, TrimClass::NonAlphanumeric);
            if lo < hi {
                let t = copy_range(w, lo, hi);
                let ghost tv = terms.deep_view();
                assert(t.deep_view() =~= t@);
                terms.push(t);
                assert(terms.deep_view() =~= tv.push(t@));
            }
            i = i + 1;
        }
        assert(words.deep_view().take(nw as int) =~= words.deep_view());
        let total = terms.len();
        if total == 0 {
            return KeywordScore { matched: 0, total: 0 };
        }
        let lowered = to_lowercase(doc);
        let doc_lower = chars_of(lowered.as_str());
        let mut matched: usize = 0;
        let mut j: usize = 0;
        while j < total
            invariant
                j <= total == terms.len(),
                terms.deep_view() == query_terms(query@),
                doc_lower@ == lowercase(doc@),
                matched == count_found(terms.deep_view().take(j as int), doc_lower@),
                matched <= j,
            decreases total - j,
        {
            let term_text = string_from_chars(terms[j].as_slice());
            let term_lower = to_lowercase(term_text.as_str());
            let needle = chars_of(term_lower.as_str());
            assert(terms[j as int].deep_view() =~= terms[j as int]@);
            assert(terms.deep_view()[j as int] == terms[j as int]@);
            assert(terms.deep_view().take(j + 1).drop_last() =~= terms.deep_view().take(j as int));
            if contains_chars(&doc_lower, &needle) {
                matched = matched + 1;
            }
            j = j + 1;
        }
        assert(terms.deep_view().take(total as int) =~= terms.deep_view());
        KeywordScore { matched, total }
    }

    /// For each document in order, where its score for `query` comes from:
    /// its embedding when both it and the query have one, else keyword
    /// matching of its content.
    pub fn score_sources(&self, query: &str, query_has_embedding: bool) -> (r: Vec<ScoreSource>)
        ensures
            r@.len() == self@.len(),
            forall|i: int|
                0 <= i < r@.len() ==> #[trigger] r@[i] == score_source(self@[i], query@, query_has_embedding),
    {
        let mut r: Vec<ScoreSource> = Vec::new();
        let n = self.documents.len();
        let mut i: usize = 0;
        while i < n
            invariant
                i <= n == self.documents.len(),
                r@.len() == i,
                forall|k: int|
                    0 <= k < i ==> #[trigger] r@[k] == score_source(self@[k], query@, query_has_embedding),
            decreases n - i,
        {
            let d = &self.documents[i];
            assert(self@[i as int] == d@);
            let source = if query_has_embedding && d.embedding.is_some() {
                ScoreSource::Vector
            } else {
                ScoreSource::Keyword(Self::keyword_similarity(d.content.as_str(), query))
            };
            r.push(source);
            i = i + 1;
        }
        r
    }

    /// Copies of all documents, in order.
    pub fn get_all_documents(&self) -> (r: Vec<Document>)
        ensures
            docs_view(r@) == self@,
    {
        let mut r: Vec<Document> = Vec::new();
        let n = self.documents.len();
        let mut i: usize = 0;
        while i < n
            invariant
                i <= n == self.documents.len(),
                docs_view(r@) == self@.take(i as int),
            decreases n - i,
        {
            let d = self.documents[i].duplicate();
            assert(self@[i as int] == self.documents@[i as int]@);
            let ghost rv = docs_view(r@);
            r.push(d);
            assert(docs_view(r@) =~= rv.push(d@));
            i = i + 1;
            assert(docs_view(r@) =~= self@.take(i as int));
        }
        assert(self@.take(n as int) =~= self@);
        r
    }
}

} // verus!
