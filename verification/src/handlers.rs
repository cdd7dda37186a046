//! The decisions of the HTTP and chat-socket handlers: what each socket
//! event leads to, what is sent after a transcription and for each streamed
//! chunk, how the retrieved context is written, and how the document
//! endpoints answer.

use vstd::prelude::*;
use vstd::string::StringExecFns;
use crate::rag::{Document, DocumentView, RagEngine};
use crate::text::{trim, trimmed};

verus! {

/// Sent when an answer is complete.
pub const END_OF_RESPONSE: &'static str = "[FIN_RESPUESTA]";

/// Put before a transcription sent back to the client.
pub const TRANSCRIPTION_TAG: &'static str = "[TRANSCRIPCION] ";

/// Put before the reason a transcription failed.
pub const TRANSCRIPTION_FAILED: &'static str = "⚠️ Error en transcripción de audio: ";

/// Put before the reason the answer stream failed.
pub const STREAM_FAILED: &'static str = "⚠️ Error de streaming: ";

/// Given to the model when no document was relevant.
pub const NO_CONTEXT: &'static str = "Sin información relevante en la base de datos de conocimiento.";

/// The fixed messages of the chat socket.
pub proof fn law_socket_texts()
    ensures
        END_OF_RESPONSE@ == "[FIN_RESPUESTA]"@,
        TRANSCRIPTION_TAG@ == "[TRANSCRIPCION] "@,
        TRANSCRIPTION_FAILED@ == "⚠️ Error en transcripción de audio: "@,
        STREAM_FAILED@ == "⚠️ Error de streaming: "@,
        NO_CONTEXT@ == "Sin información relevante en la base de datos de conocimiento."@,
{
}

/// What the chat socket received.
pub enum SocketEvent {
    /// A text message: a typed query.
    Text(String),
    /// A binary message: recorded audio.
    Binary(Vec<u8>),
    /// The client closed the socket.
    Close,
    /// Any other frame.
    Other,
    /// Receiving failed.
    Failed,
}

/// What to do about a socket event.
pub enum SocketStep {
    /// Nothing; wait for the next message.
    Ignore,
    /// End the session.
    Stop,
    /// Answer this query.
    Answer(String),
    /// Transcribe this audio.
    Transcribe(Vec<u8>),
}

/// Decides what a socket event leads to: a non-blank text is answered
/// (trimmed), non-empty audio is transcribed, closing or failing ends the
/// session, and everything else is ignored.
pub fn on_socket_event(event: SocketEvent) -> (r: SocketStep)
    ensures
        event matches SocketEvent::Text(t) ==> if trimmed(t@).len() == 0 {
            r is Ignore
        } else {
            r matches SocketStep::Answer(q) && q@ == trimmed(t@)
        },
        event matches SocketEvent::Binary(b) ==> if b@.len() == 0 {
            r is Ignore
        } else {
            r matches SocketStep::Transcribe(a) && a@ == b@
        },
        event is Close ==> r is Stop,
        event is Failed ==> r is Stop,
        event is Other ==> r is Ignore,
{
    match event {
        SocketEvent::Text(t) => {
            let query = trim(t.as_str());
            if query.as_str().is_empty() {
                SocketStep::Ignore
            } else {
                SocketStep::Answer(query)
            }
        },
        SocketEvent::Binary(b) => {
            if b.len() == 0 {
                SocketStep::Ignore
            } else {
                SocketStep::Transcribe(b)
            }
        },
        SocketEvent::Close => SocketStep::Stop,
        SocketEvent::Other => SocketStep::Ignore,
        SocketEvent::Failed => SocketStep::Stop,
    }
}

/// What follows a transcription: the messages to send, in order, and the
/// query to answer afterwards, if any.
pub struct TranscriptionReply {
    pub messages: Vec<String>,
    pub query: Option<String>,
}

/// Decides what follows a transcription attempt. A blank transcription
/// ends the answer at once; any other is sent back tagged and then
/// answered; a failure is reported and ends the answer.
pub fn after_transcription(result: Result<String, String>) -> (r: TranscriptionReply)
    ensures
        result matches Ok(t) ==> if trimmed(t@).len() == 0 {
            &&& r.messages.deep_view() == seq![END_OF_RESPONSE@]
            &&& r.query is None
        } else {
            &&& r.messages.deep_view() == seq![TRANSCRIPTION_TAG@ + trimmed(t@)]
            &&& r.query matches Some(q) && q@ == trimmed(t@)
        },
        result matches Err(e) ==> {
            &&& r.messages.deep_view() == seq![TRANSCRIPTION_FAILED@ + e@, END_OF_RESPONSE@]
            &&& r.query is None
        },
{
    let mut messages: Vec<String> = Vec::new();
    match result {
        Ok(t) => {
            let text = trim(t.as_str());
            if text.as_str().is_empty() {
                messages.push(String::from_str(END_OF_RESPONSE));
                assert(messages.deep_view() =~= seq![END_OF_RESPONSE@]);
                TranscriptionReply { messages, query: None }
            } else {
                let mut tagged = String::from_str(TRANSCRIPTION_TAG);
                tagged.append(text.as_str());
                messages.push(tagged);
                assert(messages.deep_view() =~= seq![TRANSCRIPTION_TAG@ + trimmed(t@)]);
                TranscriptionReply { messages, query: Some(text) }
            }
        },
        Err(e) => {
            let mut report = String::from_str(TRANSCRIPTION_FAILED);
            report.append(e.as_str());
            messages.push(report);
            messages.push(String::from_str(END_OF_RESPONSE));
            assert(messages.deep_view() =~= seq![TRANSCRIPTION_FAILED@ + e@, END_OF_RESPONSE@]);
            TranscriptionReply { messages, query: None }
        },
    }
}

/// What to do with one item of the answer stream.
pub enum ChunkStep {
    /// Nothing to send.
    Skip,
    /// Send this text.
    Forward(String),
    /// Send this report and stop reading the stream.
    Abort(String),
}

/// Decides what to do with one item of the answer stream: non-empty text
/// is forwarded, empty text skipped, and a failure reported, ending the
/// stream.
pub fn on_stream_chunk(chunk: Result<String, String>) -> (r: ChunkStep)
    ensures
        chunk matches Ok(c) ==> if c@.len() == 0 {
            r is Skip
        } else {
            r matches ChunkStep::Forward(f) && f@ == c@
        },
        chunk matches Err(e) ==> r matches ChunkStep::Abort(m) && m@ == STREAM_FAILED@ + e@,
{
    match chunk {
        Ok(c) => {
            if c.as_str().is_empty() {
                ChunkStep::Skip
            } else {
                ChunkStep::Forward(c)
            }
        },
        Err(e) => {
            let mut report = String::from_str(STREAM_FAILED);
            report.append(e.as_str());
            ChunkStep::Abort(report)
        },
    }
}

/// Each passage followed by a line break, one after another.
pub open spec fn context_lines(passages: Seq<Seq<char>>) -> Seq<char>
    decreases passages.len(),
{
    if passages.len() == 0 {
        seq![]
    } else {
        context_lines(passages.drop_last()) + passages.last() + "\n"@
    }
}

/// No passages give an empty context.
pub proof fn law_context_empty()
    ensures
        context_lines(Seq::<Seq<char>>::empty()) == Seq::<char>::empty(),
{
}

/// One more passage adds it, and a line break, at the end of the context:
/// every passage appears, in order, each on its own line.
pub proof fn law_context_push(passages: Seq<Seq<char>>, x: Seq<char>)
    ensures
        context_lines(passages.push(x)) == context_lines(passages) + x + seq!['\n'],
{
    assert(passages.push(x).drop_last() =~= passages);
    assert("\n"@ =~= seq!['\n']) by {
        reveal_strlit("\n");
    }
}

/// The context of two runs of passages is the context of the first followed
/// by that of the second.
pub proof fn law_context_append(a: Seq<Seq<char>>, b: Seq<Seq<char>>)
    ensures
        context_lines(a + b) == context_lines(a) + context_lines(b),
    decreases b.len(),
{
    if b.len() == 0 {
        assert(a + b =~= a);
        assert(context_lines(a) + context_lines(b) =~= context_lines(a));
    } else {
        law_context_append(a, b.drop_last());
        assert((a + b).drop_last() =~= a + b.drop_last());
        law_context_push(a + b.drop_last(), b.last());
        law_context_push(b.drop_last(), b.last());
        assert((a + b.drop_last()).push(b.last()) =~= a + b);
        assert(b.drop_last().push(b.last()) =~= b);
        assert(context_lines(a) + context_lines(b.drop_last()) + b.last() + seq!['\n'] =~= context_lines(a)
            + (context_lines(b.drop_last()) + b.last() + seq!['\n']));
    }
}

/// The sum of the lengths of the passages, each with its line break.
pub open spec fn lines_len(passages: Seq<Seq<char>>) -> nat
    decreases passages.len(),
{
    if passages.len() == 0 {
        0
    } else {
        lines_len(passages.drop_last()) + passages.last().len() + 1
    }
}

/// The context is as long as all passages and one line break each.
pub proof fn law_context_len(passages: Seq<Seq<char>>)
    ensures
        context_lines(passages).len() == lines_len(passages),
    decreases passages.len(),
{
    if passages.len() > 0 {
        law_context_len(passages.drop_last());
        law_context_push(passages.drop_last(), passages.last());
        assert(passages.drop_last().push(passages.last()) =~= passages);
    }
}

/// The retrieved context made of `passages`, one per line.
pub fn compose_context(passages: &Vec<String>) -> (r: String)
    ensures
        r@ == context_lines(passages.deep_view()),
{
    let mut r = String::new();
    let n = passages.len();
    let mut i: usize = 0;
    while i < n
        invariant
            i <= n == passages.len(),
            r@ == context_lines(passages.deep_view().take(i as int)),
        decreases n - i,
    {
        assert(passages.deep_view().take(i + 1).drop_last() =~= passages.deep_view().take(i as int));
        r.append(passages[i].as_str());
        r.append("\n");
        i = i + 1;
    }
    assert(passages.deep_view().take(n as int) =~= passages.deep_view());
    r
}

/// The context given to the model: the retrieved one, or a note that
/// nothing relevant was found when it is empty.
pub fn context_for_model(context: String) -> (r: String)
    ensures
        r@ == if context@.len() == 0 {
            NO_CONTEXT@
        } else {
            context@
        },
{
    if context.as_str().is_empty() {
        String::from_str(NO_CONTEXT)
    } else {
        context
    }
}

/// Body of a request to add a document.
pub struct AddDocumentRequest {
    pub content: String,
}

/// A document as the document endpoints show it.
pub struct AddDocumentResponse {
    pub id: String,
    pub content: String,
    pub has_embedding: bool,
}

/// `r` shows the document `d`.
pub open spec fn shows(r: AddDocumentResponse, d: DocumentView) -> bool {
    &&& r.id@ == d.id
    &&& r.content@ == d.content
    &&& r.has_embedding == d.embedding is Some
}

impl AddDocumentResponse {
    /// How the document endpoints show `doc`.
    pub fn from_document(doc: &Document) -> (r: Self)
        ensures
            shows(r, doc@),
    {
        AddDocumentResponse {
            id: doc.id.clone(),
            content: doc.content.clone(),
            has_embedding: doc.embedding.is_some(),
        }
    }
}

/// The answer of a document endpoint.
pub enum DocumentReply {
    /// The document was added.
    Created(AddDocumentResponse),
    /// The request was refused, for this reason.
    BadRequest(String),
    /// The document was deleted, with this message.
    Deleted(String),
    /// No such document, with this message.
    NotFound(String),
}

impl DocumentReply {
    /// The HTTP status of this answer.
    pub fn status(&self) -> (r: u16)
        ensures
            r == match self {
                DocumentReply::Created(_) => 201u16,
                DocumentReply::BadRequest(_) => 400u16,
                DocumentReply::Deleted(_) => 200u16,
                DocumentReply::NotFound(_) => 404u16,
            },
    {
        match self {
            DocumentReply::Created(_) => 201,
            DocumentReply::BadRequest(_) => 400,
            DocumentReply::Deleted(_) => 200,
            DocumentReply::NotFound(_) => 404,
        }
    }
}

/// The content to store for an add request: its content trimmed, or the
/// refusal when that is empty.
pub fn prepare_document_content(request: &AddDocumentRequest) -> (r: Result<String, DocumentReply>)
    ensures
        trimmed(request.content@).len() == 0 ==> (r matches Err(DocumentReply::BadRequest(m))
            && m@ == "Content cannot be empty"@),
        trimmed(request.content@).len() != 0 ==> (r matches Ok(c) && c@ == trimmed(
            request.content@,
        )),
{
    let content = trim(request.content.as_str());
    if content.as_str().is_empty() {
        Err(DocumentReply::BadRequest(String::from_str("Content cannot be empty")))
    } else {
        Ok(content)
    }
}

/// The answer to a delete request, after `deleted` says whether a document went.
pub fn delete_document_reply(deleted: bool) -> (r: DocumentReply)
    ensures
        deleted ==> (r matches DocumentReply::Deleted(m) && m@ == "Document deleted successfully"@),
        !deleted ==> (r matches DocumentReply::NotFound(m) && m@ == "Document not found"@),
{
    if deleted {
        DocumentReply::Deleted(String::from_str("Document deleted successfully"))
    } else {
        DocumentReply::NotFound(String::from_str("Document not found"))
    }
}

/// How the document list shows the knowledge base: one entry per document, in order.
pub fn list_documents(engine: &RagEngine) -> (r: Vec<AddDocumentResponse>)
    ensures
        r@.len() == engine@.len(),
        forall|i: int| 0 <= i < r@.len() ==> shows(#[trigger] r@[i], engine@[i]),
{
    let mut r: Vec<AddDocumentResponse> = Vec::new();
    let n = engine.documents.len();
    let mut i: usize = 0;
    while i < n
        invariant
            i <= n == engine.documents.len(),
            r@.len() == i,
            forall|k: int| 0 <= k < i ==> shows(#[trigger] r@[k], engine@[k]),
        decreases n - i,
    {
        assert(engine@[i as int] == engine.documents@[i as int]@);
        r.push(AddDocumentResponse::from_document(&engine.documents[i]));
        i = i + 1;
    }
    r
}

} // verus!
