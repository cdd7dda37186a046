//! Requests to the Gemini API: their URLs, their JSON bodies, the prompt
//! that carries the retrieved context, and reading a transcription from a
//! response.

use vstd::prelude::*;
use base64::Engine;
use vstd::string::StringExecFns;
use crate::json::{json_field, json_field_at, JsonField, JsonFieldView};
use crate::stream::CANDIDATE_TEXT_POINTER;
use crate::text::{law_trim_idempotent, trim, trimmed, TrimClass};

verus! {

/// Endpoint of the embedding model, before the API key.
pub const EMBEDDING_URL_PREFIX: &'static str =
    "https://generativelanguage.googleapis.com/v1beta/models/text-embedding-004:embedContent?key=";

/// Endpoint of one-shot generation (used for transcription), before the API key.
pub const TRANSCRIPTION_URL_PREFIX: &'static str =
    "https://generativelanguage.googleapis.com/v1beta/models/gemini-2.5-flash:generateContent?key=";

/// Endpoint of streamed generation, before the API key.
pub const STREAM_URL_PREFIX: &'static str =
    "https://generativelanguage.googleapis.com/v1beta/models/gemini-2.5-flash:streamGenerateContent?key=";

/// What the model is told about how to answer.
pub const SYSTEM_INSTRUCTION: &'static str = "Eres un asistente de voz en tiempo real. Responde de forma natural, clara y muy breve (máximo 2-3 oraciones). Responde en el mismo idioma en el que te habla el usuario.";

/// What the model is asked to do with recorded audio.
pub const TRANSCRIPTION_INSTRUCTION: &'static str = "Transcribe exactamente lo que se dice. Detecta el idioma automáticamente. Devuelve SOLO el texto de la transcripción, sin comillas, notas o explicaciones adicionales.";

/// What comes between the system instruction and the retrieved context.
pub const CONTEXT_OPEN: &'static str = "\n\n<contexto_adicional>\n";

/// What comes between the retrieved context and the user's words.
pub const CONTEXT_CLOSE: &'static str = "\n</contexto_adicional>\n\nUsuario: ";

/// Body of an embedding request, before the quoted text.
pub const EMBEDDING_BODY_HEAD: &'static str = "{\"content\":{\"parts\":[{\"text\":";

/// Body of an embedding request, after the quoted text.
pub const EMBEDDING_BODY_TAIL: &'static str = "}]},\"model\":\"models/text-embedding-004\"}";

/// Body of a transcription request, before the quoted audio.
pub const TRANSCRIPTION_BODY_HEAD: &'static str =
    "{\"contents\":[{\"parts\":[{\"inlineData\":{\"data\":";

/// Body of a transcription request, between the quoted audio and the quoted instruction.
pub const TRANSCRIPTION_BODY_MIDDLE: &'static str = ",\"mimeType\":\"audio/webm\"}},{\"text\":";

/// Body of a generation request, before the quoted prompt.
pub const GENERATION_BODY_HEAD: &'static str = "{\"contents\":[{\"parts\":[{\"text\":";

/// End of the body of a transcription or generation request.
pub const CONTENTS_BODY_TAIL: &'static str = "}]}]}";

/// A lowercase hexadecimal digit of value `n` (below 16).
pub open spec fn hex_digit(n: int) -> char {
    if n < 10 {
        (48 + n) as char
    } else {
        (87 + n) as char
    }
}

/// How `serde_json` writes `c` inside a JSON string: `"` and `\` behind a
/// backslash; backspace, tab, line feed, form feed and carriage return as
/// `\b \t \n \f \r`; the other characters below U+0020 as `\u00` and two
/// lowercase hex digits; everything else as it is.
pub open spec fn json_escape(c: char) -> Seq<char> {
    let u = c as u32;
    if c == '"' {
        seq!['\\', '"']
    } else if c == '\\' {
        seq!['\\', '\\']
    } else if u == 0x08 {
        seq!['\\', 'b']
    } else if u == 0x09 {
        seq!['\\', 't']
    } else if u == 0x0A {
        seq!['\\', 'n']
    } else if u == 0x0C {
        seq!['\\', 'f']
    } else if u == 0x0D {
        seq!['\\', 'r']
    } else if u < 0x20 {
        seq!['\\', 'u', '0', '0', hex_digit((u / 16) as int), hex_digit((u % 16) as int)]
    } else {
        seq![c]
    }
}

/// The characters of `s`, each written as inside a JSON string.
pub open spec fn json_escaped(s: Seq<char>) -> Seq<char>
    decreases s.len(),
{
    if s.len() == 0 {
        seq![]
    } else {
        json_escaped(s.drop_last()) + json_escape(s.last())
    }
}

/// The JSON string holding `s`, as `serde_json` writes it.
pub open spec fn json_string(s: Seq<char>) -> Seq<char> {
    seq!['"'] + json_escaped(s) + seq!['"']
}

/// Trusted: writes `s` as a JSON string with `serde_json` (the `Display` of
/// `serde_json::Value::String`, that is its compact serialisation), which
/// escapes by the table in its `ser.rs` as `json_string` states.
#[verifier::external_body]
pub(crate) fn json_quote(s: &str) -> (r: String)
    ensures
        r@ == json_string(s@),
{
    serde_json::Value::String(s.to_string()).to_string()
}

/// The character of the standard Base64 alphabet for the 6-bit value `n`:
/// `A`-`Z`, `a`-`z`, `0`-`9`, `+`, `/`.
pub open spec fn base64_digit(n: int) -> char {
    if n < 26 {
        (65 + n) as char
    } else if n < 52 {
        (71 + n) as char
    } else if n < 62 {
        (n - 4) as char
    } else if n == 62 {
        '+'
    } else {
        '/'
    }
}

/// Standard Base64 with padding: each group of three bytes becomes four
/// digits of six bits each, most significant first; a last group of one or
/// two bytes is padded with zero bits and completed with `=`.
pub open spec fn base64_standard(bytes: Seq<u8>) -> Seq<char>
    decreases bytes.len(),
{
    if bytes.len() == 0 {
        seq![]
    } else if bytes.len() == 1 {
        let x = bytes[0] as int;
        seq![base64_digit(x / 4), base64_digit((x % 4) * 16), '=', '=']
    } else if bytes.len() == 2 {
        let x = bytes[0] as int;
        let y = bytes[1] as int;
        seq![base64_digit(x / 4), base64_digit((x % 4) * 16 + y / 16), base64_digit((y % 16) * 4), '=']
    } else {
        let x = bytes[0] as int;
        let y = bytes[1] as int;
        let z = bytes[2] as int;
        seq![
            base64_digit(x / 4),
            base64_digit((x % 4) * 16 + y / 16),
            base64_digit((y % 16) * 4 + z / 64),
            base64_digit(z % 64),
        ] + base64_standard(bytes.skip(3))
    }
}

/// The length of the padded Base64 text of `n` bytes.
pub open spec fn base64_len(n: nat) -> nat {
    4 * ((n + 2) / 3)
}

/// Trusted: `base64::prelude::BASE64_STANDARD.encode(bytes)`. The result is
/// standard padded Base64 of the bytes, as `base64_standard` states it (the
/// crate's standard alphabet, with padding); its length is that of padded
/// Base64, as the crate's `encoded_len` documents. The crate panics when
/// that length overflows `usize`, which `requires` leaves out.
#[verifier::external_body]
pub(crate) fn encode_base64(bytes: &[u8]) -> (r: String)
    requires
        base64_len(bytes@.len()) <= usize::MAX,
    ensures
        r@ == base64_standard(bytes@),
        r@.len() == base64_len(bytes@.len()),
{
    base64::prelude::BASE64_STANDARD.encode(bytes)
}

/// `head` followed by `tail`.
fn joined2(head: &str, tail: &str) -> (r: String)
    ensures
        r@ == head@ + tail@,
{
    let mut r = String::from_str(head);
    r.append(tail);
    r
}

/// URL of an embedding request made with `api_key`.
pub fn embedding_url(api_key: &str) -> (r: String)
    ensures
        r@ == EMBEDDING_URL_PREFIX@ + api_key@,
{
    joined2(EMBEDDING_URL_PREFIX, api_key)
}

/// URL of a transcription request made with `api_key`.
pub fn transcription_url(api_key: &str) -> (r: String)
    ensures
        r@ == TRANSCRIPTION_URL_PREFIX@ + api_key@,
{
    joined2(TRANSCRIPTION_URL_PREFIX, api_key)
}

/// URL of a streamed generation request made with `api_key`.
pub fn stream_url(api_key: &str) -> (r: String)
    ensures
        r@ == STREAM_URL_PREFIX@ + api_key@,
{
    joined2(STREAM_URL_PREFIX, api_key)
}

/// Body of the request for the embedding of `text`.
pub fn embedding_payload(text: &str) -> (r: String)
    ensures
        r@ == EMBEDDING_BODY_HEAD@ + json_string(text@) + EMBEDDING_BODY_TAIL@,
{
    let mut r = String::from_str(EMBEDDING_BODY_HEAD);
    let quoted = json_quote(text);
    r.append(quoted.as_str());
    r.append(EMBEDDING_BODY_TAIL);
    r
}

/// Body of the request for the transcription of WebM audio.
pub fn transcription_payload(audio: &[u8]) -> (r: String)
    requires
        base64_len(audio@.len()) <= usize::MAX,
    ensures
        r@ == TRANSCRIPTION_BODY_HEAD@ + json_string(base64_standard(audio@))
            + TRANSCRIPTION_BODY_MIDDLE@ + json_string(TRANSCRIPTION_INSTRUCTION@)
            + CONTENTS_BODY_TAIL@,
{
    let encoded = encode_base64(audio);
    let mut r = String::from_str(TRANSCRIPTION_BODY_HEAD);
    let quoted_audio = json_quote(encoded.as_str());
    r.append(quoted_audio.as_str());
    r.append(TRANSCRIPTION_BODY_MIDDLE);
    let quoted_instruction = json_quote(TRANSCRIPTION_INSTRUCTION);
    r.append(quoted_instruction.as_str());
    r.append(CONTENTS_BODY_TAIL);
    r
}

/// The prompt sent to the model: the system instruction, the retrieved
/// `context` between its tags, and the user's `prompt`.
pub open spec fn prompt_text(prompt: Seq<char>, context: Seq<char>) -> Seq<char> {
    SYSTEM_INSTRUCTION@ + CONTEXT_OPEN@ + context + CONTEXT_CLOSE@ + prompt
}

/// The prompt begins with the whole system instruction, then the opening
/// tag, the context, the closing tag with the user's label, and ends with
/// the user's words; nothing else is in it.
pub proof fn law_prompt_layout(prompt: Seq<char>, context: Seq<char>)
    ensures
        SYSTEM_INSTRUCTION@ == "Eres un asistente de voz en tiempo real. Responde de forma natural, clara y muy breve (máximo 2-3 oraciones). Responde en el mismo idioma en el que te habla el usuario."@,
        CONTEXT_OPEN@ == "\n\n<contexto_adicional>\n"@,
        CONTEXT_CLOSE@ == "\n</contexto_adicional>\n\nUsuario: "@,
        ({
            let r = prompt_text(prompt, context);
            let a = SYSTEM_INSTRUCTION@.len();
            let b = a + CONTEXT_OPEN@.len();
            let c = b + context.len();
            let d = c + CONTEXT_CLOSE@.len();
            &&& r.len() == d + prompt.len()
            &&& r.subrange(0, a as int) == SYSTEM_INSTRUCTION@
            &&& r.subrange(a as int, b as int) == CONTEXT_OPEN@
            &&& r.subrange(b as int, c as int) == context
            &&& r.subrange(c as int, d as int) == CONTEXT_CLOSE@
            &&& r.subrange(d as int, r.len() as int) == prompt
        }),
{
    let r = prompt_text(prompt, context);
    let a = SYSTEM_INSTRUCTION@.len();
    let b = a + CONTEXT_OPEN@.len();
    let c = b + context.len();
    let d = c + CONTEXT_CLOSE@.len();
    assert(r.subrange(0, a as int) =~= SYSTEM_INSTRUCTION@);
    assert(r.subrange(a as int, b as int) =~= CONTEXT_OPEN@);
    assert(r.subrange(b as int, c as int) =~= context);
    assert(r.subrange(c as int, d as int) =~= CONTEXT_CLOSE@);
    assert(r.subrange(d as int, r.len() as int) =~= prompt);
}

/// The prompt for `prompt` with the retrieved `context`.
pub fn compose_prompt(prompt: &str, context: &str) -> (r: String)
    ensures
        r@ == prompt_text(prompt@, context@),
{
    let mut r = String::from_str(SYSTEM_INSTRUCTION);
    r.append(CONTEXT_OPEN);
    r.append(context);
    r.append(CONTEXT_CLOSE);
    r.append(prompt);
    r
}

/// Body of the request that streams the answer to `prompt` with `context`.
pub fn generation_payload(prompt: &str, context: &str) -> (r: String)
    ensures
        r@ == GENERATION_BODY_HEAD@ + json_string(prompt_text(prompt@, context@))
            + CONTENTS_BODY_TAIL@,
{
    let full = compose_prompt(prompt, context);
    let mut r = String::from_str(GENERATION_BODY_HEAD);
    let quoted = json_quote(full.as_str());
    r.append(quoted.as_str());
    r.append(CONTENTS_BODY_TAIL);
    r
}

/// Why no transcription could be read from a response.
#[derive(Clone, Copy, PartialEq, Eq, Debug)]
pub enum TranscriptionError {
    /// The response body is not JSON.
    MalformedResponse,
    /// The response holds no text where the transcription stands.
    MissingText,
    /// What stands there is not a string.
    TextNotString,
}

/// What a transcription response body `body` gives: the text of its first
/// candidate, trimmed, or why there is none.
pub open spec fn transcription_of(body: Seq<char>) -> Result<Seq<char>, TranscriptionError> {
    transcription_from_lookup(json_field_at(body, CANDIDATE_TEXT_POINTER@))
}

/// What the lookup `field` of the transcription gives: its text trimmed, or
/// why there is none.
pub open spec fn transcription_from_lookup(field: JsonFieldView) -> Result<Seq<char>, TranscriptionError> {
    match field {
        JsonFieldView::Malformed => Err(TranscriptionError::MalformedResponse),
        JsonFieldView::Absent => Err(TranscriptionError::MissingText),
        JsonFieldView::NotText => Err(TranscriptionError::TextNotString),
        JsonFieldView::Text(t) => Ok(trimmed(t)),
    }
}

/// A transcription that comes out is trimmed: it has no whitespace at
/// either end, and it is the looked-up text trimmed.
pub proof fn law_transcription_is_trimmed(field: JsonFieldView)
    ensures
        transcription_from_lookup(field) matches Ok(t) ==> trimmed(t) == t,
        field matches JsonFieldView::Text(s) ==> transcription_from_lookup(field) == Ok::<
            Seq<char>,
            TranscriptionError,
        >(trimmed(s)),
        !(field is Text) ==> transcription_from_lookup(field) is Err,
{
    if let JsonFieldView::Text(s) = field {
        law_trim_idempotent(s, TrimClass::Whitespace);
    }
}

/// The transcription given by `field`, what the response holds where the
/// transcription stands.
pub fn transcription_from_field(field: JsonField) -> (r: Result<String, TranscriptionError>)
    ensures
        match (r, transcription_from_lookup(field@)) {
            (Ok(t), Ok(u)) => t@ == u,
            (Err(e), Err(f)) => e == f,
            _ => false,
        },
{
    match field {
        JsonField::Malformed => Err(TranscriptionError::MalformedResponse),
        JsonField::Absent => Err(TranscriptionError::MissingText),
        JsonField::NotText => Err(TranscriptionError::TextNotString),
        JsonField::Text(t) => Ok(trim(t.as_str())),
    }
}

/// Reads the transcription from the body of a transcription response.
pub fn transcription_from_response(body: &str) -> (r: Result<String, TranscriptionError>)
    ensures
        match (r, transcription_of(body@)) {
            (Ok(t), Ok(u)) => t@ == u,
            (Err(e), Err(f)) => e == f,
            _ => false,
        },
{
    transcription_from_field(json_field(body, CANDIDATE_TEXT_POINTER))
}

/// What is reported for a transcription error.
pub open spec fn transcription_error_text(e: TranscriptionError) -> Seq<char> {
    match e {
        TranscriptionError::MalformedResponse => "error decoding response body"@,
        TranscriptionError::MissingText => "Failed to extract transcription text from response"@,
        TranscriptionError::TextNotString => "Transcription text is not a string"@,
    }
}

impl TranscriptionError {
    /// The message reported for this error.
    pub fn message(&self) -> (r: String)
        ensures
            r@ == transcription_error_text(*self),
    {
        match self {
            TranscriptionError::MalformedResponse => String::from_str("error decoding response body"),
            TranscriptionError::MissingText => String::from_str(
                "Failed to extract transcription text from response",
            ),
            TranscriptionError::TextNotString => String::from_str("Transcription text is not a string"),
        }
    }
}

/// The fixed parts of the requests: the endpoints, the transcription
/// instruction and the JSON around the quoted values.
pub proof fn law_request_texts()
    ensures
        EMBEDDING_URL_PREFIX@ == "https://generativelanguage.googleapis.com/v1beta/models/text-embedding-004:embedContent?key="@,
        TRANSCRIPTION_URL_PREFIX@ == "https://generativelanguage.googleapis.com/v1beta/models/gemini-2.5-flash:generateContent?key="@,
        STREAM_URL_PREFIX@ == "https://generativelanguage.googleapis.com/v1beta/models/gemini-2.5-flash:streamGenerateContent?key="@,
        TRANSCRIPTION_INSTRUCTION@ == "Transcribe exactamente lo que se dice. Detecta el idioma automáticamente. Devuelve SOLO el texto de la transcripción, sin comillas, notas o explicaciones adicionales."@,
        EMBEDDING_BODY_HEAD@ == "{\"content\":{\"parts\":[{\"text\":"@,
        EMBEDDING_BODY_TAIL@ == "}]},\"model\":\"models/text-embedding-004\"}"@,
        TRANSCRIPTION_BODY_HEAD@ == "{\"contents\":[{\"parts\":[{\"inlineData\":{\"data\":"@,
        TRANSCRIPTION_BODY_MIDDLE@ == ",\"mimeType\":\"audio/webm\"}},{\"text\":"@,
        GENERATION_BODY_HEAD@ == "{\"contents\":[{\"parts\":[{\"text\":"@,
        CONTENTS_BODY_TAIL@ == "}]}]}"@,
{
}

/// The messages reported for transcription errors.
pub proof fn law_transcription_error_texts()
    ensures
        transcription_error_text(TranscriptionError::MalformedResponse) == "error decoding response body"@,
        transcription_error_text(TranscriptionError::MissingText) == "Failed to extract transcription text from response"@,
        transcription_error_text(TranscriptionError::TextNotString) == "Transcription text is not a string"@,
{
}

/// Padded Base64 of `n` bytes has four digits for every started group of three.
pub proof fn law_base64_len(bytes: Seq<u8>)
    ensures
        base64_standard(bytes).len() == base64_len(bytes.len()),
    decreases bytes.len(),
{
    if bytes.len() > 2 {
        law_base64_len(bytes.skip(3));
    }
}

/// A character with no special meaning in JSON is written as it is.
pub proof fn law_json_plain_text(s: Seq<char>)
    requires
        forall|i: int| 0 <= i < s.len() ==> (#[trigger] s[i]) != '"' && s[i] != '\\' && (s[i] as u32) >= 0x20,
    ensures
        json_string(s) == seq!['"'] + s + seq!['"'],
{
    lemma_json_escaped_plain(s);
}

proof fn lemma_json_escaped_plain(s: Seq<char>)
    requires
        forall|i: int| 0 <= i < s.len() ==> (#[trigger] s[i]) != '"' && s[i] != '\\' && (s[i] as u32) >= 0x20,
    ensures
        json_escaped(s) == s,
    decreases s.len(),
{
    if s.len() > 0 {
        let d = s.drop_last();
        assert forall|i: int| 0 <= i < d.len() implies (#[trigger] d[i]) != '"' && d[i] != '\\' && (d[i] as u32) >= 0x20 by {
            assert(d[i] == s[i]);
        }
        lemma_json_escaped_plain(d);
        assert(s[s.len() - 1] == s.last());
        assert(json_escape(s.last()) =~= seq![s.last()]);
        assert(d + seq![s.last()] =~= s);
    }
}

/// Escaping works character by character: the escape of two texts is the
/// escape of the first followed by that of the second.
pub proof fn law_json_escaped_append(a: Seq<char>, b: Seq<char>)
    ensures
        json_escaped(a + b) == json_escaped(a) + json_escaped(b),
    decreases b.len(),
{
    if b.len() == 0 {
        assert(a + b =~= a);
        assert(json_escaped(a) + json_escaped(b) =~= json_escaped(a));
    } else {
        law_json_escaped_append(a, b.drop_last());
        assert((a + b).drop_last() =~= a + b.drop_last());
        assert((a + b).last() == b.last());
        assert(json_escaped(a) + json_escaped(b.drop_last()) + json_escape(b.last()) =~= json_escaped(a)
            + (json_escaped(b.drop_last()) + json_escape(b.last())));
    }
}

/// Message for a failed embedding request to `url` answered with `body`.
pub fn embedding_api_error(url: &str, body: &str) -> (r: String)
    ensures
        r@ == "Gemini Embedding API Error ("@ + url@ + "): "@ + body@,
{
    let mut r = String::from_str("Gemini Embedding API Error (");
    r.append(url);
    r.append("): ");
    r.append(body);
    r
}

/// Message for a failed transcription request answered with `body`.
pub fn transcription_api_error(body: &str) -> (r: String)
    ensures
        r@ == "Gemini Audio Transcription API Error: "@ + body@,
{
    joined2("Gemini Audio Transcription API Error: ", body)
}

/// Message for a failed generation request answered with `body`.
pub fn stream_api_error(body: &str) -> (r: String)
    ensures
        r@ == "Gemini Content Streaming API Error: "@ + body@,
{
    joined2("Gemini Content Streaming API Error: ", body)
}

} // verus!
