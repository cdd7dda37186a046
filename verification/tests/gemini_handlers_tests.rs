use tts_realtime::gemini::transcription_from_field;
use tts_realtime::json::JsonField;
use tts_realtime::gemini::{
    compose_prompt, embedding_api_error, embedding_payload, embedding_url, generation_payload,
    stream_api_error, stream_url, transcription_api_error, transcription_from_response,
    transcription_payload, transcription_url, TranscriptionError,
};
use tts_realtime::handlers::{
    after_transcription, compose_context, context_for_model, delete_document_reply, list_documents,
    on_socket_event, on_stream_chunk, prepare_document_content, AddDocumentRequest,
    AddDocumentResponse, ChunkStep, DocumentReply, SocketEvent, SocketStep,
};
use tts_realtime::rag::{Document, RagEngine};

fn json_object(pairs: Vec<(&str, serde_json::Value)>) -> serde_json::Value {
    let mut m = serde_json::Map::new();
    for (k, v) in pairs {
        m.insert(k.to_string(), v);
    }
    serde_json::Value::Object(m)
}

fn text_part(t: &str) -> serde_json::Value {
    json_object(vec![("text", serde_json::Value::String(t.to_string()))])
}

#[test]
fn urls_carry_the_key() {
    assert_eq!(
        embedding_url("K"),
        "https://generativelanguage.googleapis.com/v1beta/models/text-embedding-004:embedContent?key=K"
    );
    assert!(transcription_url("K").ends_with("gemini-2.5-flash:generateContent?key=K"));
    assert!(stream_url("K").ends_with("gemini-2.5-flash:streamGenerateContent?key=K"));
}

#[test]
fn embedding_payload_is_the_json_of_the_request() {
    let text = "Hola \"mundo\"\n";
    let expected = json_object(vec![
        ("model", serde_json::Value::String("models/text-embedding-004".into())),
        (
            "content",
            json_object(vec![("parts", serde_json::Value::Array(vec![text_part(text)]))]),
        ),
    ]);
    assert_eq!(embedding_payload(text), serde_json::to_string(&expected).unwrap());
    assert_eq!(
        embedding_payload("a"),
        "{\"content\":{\"parts\":[{\"text\":\"a\"}]},\"model\":\"models/text-embedding-004\"}"
    );
}

#[test]
fn transcription_payload_carries_base64_audio() {
    let body = transcription_payload(&[1, 2, 3, 250]);
    assert!(body.starts_with("{\"contents\":[{\"parts\":[{\"inlineData\":{\"data\":\"AQID+g==\",\"mimeType\":\"audio/webm\"}},{\"text\":\"Transcribe exactamente"));
    let v: serde_json::Value = serde_json::from_str(&body).unwrap();
    assert_eq!(v.pointer("/contents/0/parts/0/inlineData/data").unwrap(), "AQID+g==");
}

#[test]
fn prompt_and_generation_payload() {
    let p = compose_prompt("¿Hora?", "ctx");
    assert!(p.starts_with("Eres un asistente de voz en tiempo real."));
    assert!(p.ends_with("\n\n<contexto_adicional>\nctx\n</contexto_adicional>\n\nUsuario: ¿Hora?"));
    let body = generation_payload("¿Hora?", "ctx");
    let expected = json_object(vec![(
        "contents",
        serde_json::Value::Array(vec![json_object(vec![(
            "parts",
            serde_json::Value::Array(vec![text_part(&p)]),
        )])]),
    )]);
    assert_eq!(body, serde_json::to_string(&expected).unwrap());
}

#[test]
fn transcription_is_read_and_trimmed() {
    let ok = "{\"candidates\":[{\"content\":{\"parts\":[{\"text\":\"  hola \\n\"}]}}]}";
    assert_eq!(transcription_from_response(ok), Ok("hola".to_string()));
    assert_eq!(transcription_from_response("nope"), Err(TranscriptionError::MalformedResponse));
    assert_eq!(transcription_from_response("{\"candidates\":[]}"), Err(TranscriptionError::MissingText));
    let num = "{\"candidates\":[{\"content\":{\"parts\":[{\"text\":3}]}}]}";
    assert_eq!(transcription_from_response(num), Err(TranscriptionError::TextNotString));
    assert_eq!(TranscriptionError::MissingText.message(), "Failed to extract transcription text from response");
    assert_eq!(TranscriptionError::TextNotString.message(), "Transcription text is not a string");
}

#[test]
fn api_error_messages() {
    assert_eq!(embedding_api_error("u", "b"), "Gemini Embedding API Error (u): b");
    assert_eq!(transcription_api_error("b"), "Gemini Audio Transcription API Error: b");
    assert_eq!(stream_api_error("b"), "Gemini Content Streaming API Error: b");
}

#[test]
fn socket_events_lead_to_steps() {
    assert!(matches!(on_socket_event(SocketEvent::Text("  hola ".into())), SocketStep::Answer(q) if q == "hola"));
    assert!(matches!(on_socket_event(SocketEvent::Text(" \n ".into())), SocketStep::Ignore));
    assert!(matches!(on_socket_event(SocketEvent::Binary(vec![])), SocketStep::Ignore));
    assert!(matches!(on_socket_event(SocketEvent::Binary(vec![1, 2])), SocketStep::Transcribe(a) if a == vec![1, 2]));
    assert!(matches!(on_socket_event(SocketEvent::Close), SocketStep::Stop));
    assert!(matches!(on_socket_event(SocketEvent::Failed), SocketStep::Stop));
    assert!(matches!(on_socket_event(SocketEvent::Other), SocketStep::Ignore));
}

#[test]
fn transcription_outcomes() {
    let r = after_transcription(Ok(" ¿qué hora es? ".into()));
    assert_eq!(r.messages, vec!["[TRANSCRIPCION] ¿qué hora es?".to_string()]);
    assert_eq!(r.query, Some("¿qué hora es?".to_string()));
    let blank = after_transcription(Ok("   ".into()));
    assert_eq!(blank.messages, vec!["[FIN_RESPUESTA]".to_string()]);
    assert_eq!(blank.query, None);
    let failed = after_transcription(Err("boom".into()));
    assert_eq!(
        failed.messages,
        vec!["⚠️ Error en transcripción de audio: boom".to_string(), "[FIN_RESPUESTA]".to_string()]
    );
    assert_eq!(failed.query, None);
}

#[test]
fn stream_chunks() {
    assert!(matches!(on_stream_chunk(Ok("".into())), ChunkStep::Skip));
    assert!(matches!(on_stream_chunk(Ok("x".into())), ChunkStep::Forward(c) if c == "x"));
    assert!(matches!(on_stream_chunk(Err("e".into())), ChunkStep::Abort(m) if m == "⚠️ Error de streaming: e"));
}

#[test]
fn context_is_one_passage_per_line_or_the_fallback() {
    let ctx = compose_context(&vec!["uno".into(), "dos".into()]);
    assert_eq!(ctx, "uno\ndos\n");
    assert_eq!(context_for_model(ctx.clone()), ctx);
    assert_eq!(
        context_for_model(compose_context(&vec![])),
        "Sin información relevante en la base de datos de conocimiento."
    );
}

#[test]
fn document_endpoint_replies() {
    let refused = prepare_document_content(&AddDocumentRequest { content: "  \t ".into() });
    match refused {
        Err(r) => {
            assert_eq!(r.status(), 400);
            assert!(matches!(r, DocumentReply::BadRequest(m) if m == "Content cannot be empty"));
        }
        Ok(_) => panic!("blank content accepted"),
    }
    assert_eq!(
        prepare_document_content(&AddDocumentRequest { content: " nuevo ".into() }).ok(),
        Some("nuevo".to_string())
    );
    let gone = delete_document_reply(true);
    assert_eq!(gone.status(), 200);
    assert!(matches!(gone, DocumentReply::Deleted(m) if m == "Document deleted successfully"));
    let missing = delete_document_reply(false);
    assert_eq!(missing.status(), 404);
    assert!(matches!(missing, DocumentReply::NotFound(m) if m == "Document not found"));
    let doc = Document { id: "i".into(), content: "c".into(), embedding: Some(vec![1]) };
    let shown = AddDocumentResponse::from_document(&doc);
    assert_eq!((shown.id.as_str(), shown.content.as_str(), shown.has_embedding), ("i", "c", true));
    assert_eq!(DocumentReply::Created(shown).status(), 201);
}

#[test]
fn list_shows_every_document() {
    let engine = RagEngine::new();
    let list = list_documents(&engine);
    assert_eq!(list.len(), 4);
    for (l, d) in list.iter().zip(engine.documents.iter()) {
        assert_eq!(l.id, d.id);
        assert_eq!(l.content, d.content);
        assert!(!l.has_embedding);
    }
}

#[test]
fn control_characters_are_escaped_like_serde_json() {
    let text = "a\u{1}\u{8}\t\u{1f}\u{7f}é\\";
    let expected = json_object(vec![
        ("model", serde_json::Value::String("models/text-embedding-004".into())),
        ("content", json_object(vec![("parts", serde_json::Value::Array(vec![text_part(text)]))])),
    ]);
    assert_eq!(embedding_payload(text), serde_json::to_string(&expected).unwrap());
    assert!(embedding_payload(text).contains("\"a\\u0001\\b\\t\\u001f\u{7f}é\\\\\""));
}

#[test]
fn transcription_from_each_kind_of_lookup() {
    assert_eq!(transcription_from_field(JsonField::Text("  hola \n".into())), Ok("hola".to_string()));
    assert_eq!(transcription_from_field(JsonField::Malformed), Err(TranscriptionError::MalformedResponse));
    assert_eq!(transcription_from_field(JsonField::Absent), Err(TranscriptionError::MissingText));
    assert_eq!(transcription_from_field(JsonField::NotText), Err(TranscriptionError::TextNotString));
}

#[test]
fn base64_groups_and_padding() {
    for (audio, b64) in [(&b""[..], ""), (b"M", "TQ=="), (b"Ma", "TWE="), (b"Man", "TWFu"), (&[0xff, 0xfe, 0xfd, 0x00][..], "//79AA==")] {
        let body = transcription_payload(audio);
        let v: serde_json::Value = serde_json::from_str(&body).unwrap();
        assert_eq!(v.pointer("/contents/0/parts/0/inlineData/data").unwrap(), b64);
    }
}
