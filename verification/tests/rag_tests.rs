use tts_realtime::rag::{rank_by_score, Document, KeywordScore, RagEngine, ScoreSource};

fn ratio(score: KeywordScore) -> f32 {
    if score.total == 0 {
        0.0
    } else {
        score.matched as f32 / score.total as f32
    }
}

fn is_uuid_v4_text(s: &str) -> bool {
    let cs: Vec<char> = s.chars().collect();
    cs.len() == 36
        && cs.iter().enumerate().all(|(i, c)| {
            if i == 8 || i == 13 || i == 18 || i == 23 {
                *c == '-'
            } else {
                c.is_ascii_digit() || ('a'..='f').contains(c)
            }
        })
        && cs[14] == '4'
        && "89ab".contains(cs[19])
}

#[test]
fn test_rag_defaults_load() {
    let engine = RagEngine::new();
    assert!(!engine.documents.is_empty());
    assert_eq!(engine.documents.len(), 4);
}

#[test]
fn test_add_delete_document() {
    let mut engine = RagEngine::new();
    let doc = engine.add_document("Hola mundo".to_string(), None);
    assert_eq!(engine.documents.len(), 5);

    let deleted = engine.delete_document(&doc.id);
    assert!(deleted);
    assert_eq!(engine.documents.len(), 4);
}

#[test]
fn test_keyword_similarity() {
    let doc_content = "El horario de atención es de 9 AM a 5 PM de lunes a viernes.";

    // Match query
    let score_match = ratio(RagEngine::keyword_similarity(doc_content, "horario de atención"));
    assert!(score_match > 0.0);

    // No match query
    let score_no_match = ratio(RagEngine::keyword_similarity(doc_content, "comida favorita"));
    assert_eq!(score_no_match, 0.0);
}

#[test]
fn defaults_hold_the_four_texts_without_embeddings() {
    let engine = RagEngine::new();
    assert!(engine.documents[0].content.starts_with("Información de la empresa:"));
    assert!(engine.documents[1].content.contains("soporte@ejemplo.com"));
    assert!(engine.documents[2].content.starts_with("Políticas de privacidad"));
    assert!(engine.documents[3].content.ends_with("'adiós' o 'apagar'."));
    for d in &engine.documents {
        assert!(d.embedding.is_none());
        assert!(is_uuid_v4_text(&d.id));
    }
    assert_ne!(engine.documents[0].id, engine.documents[1].id);
}

#[test]
fn add_keeps_content_and_embedding_at_the_end() {
    let mut engine = RagEngine::new();
    let bits = vec![1.0f32.to_bits(), (-0.5f32).to_bits()];
    let doc = engine.add_document("Texto".to_string(), Some(bits.clone()));
    assert_eq!(doc.content, "Texto");
    assert_eq!(doc.embedding, Some(bits.clone()));
    assert!(is_uuid_v4_text(&doc.id));
    let last = engine.documents.last().unwrap();
    assert_eq!(last.id, doc.id);
    assert_eq!(last.embedding, Some(bits));
}

#[test]
fn get_all_documents_copies_everything() {
    let mut engine = RagEngine::new();
    engine.add_document("x".to_string(), Some(vec![7, 8]));
    let all = engine.get_all_documents();
    assert_eq!(all.len(), engine.documents.len());
    for (a, b) in all.iter().zip(engine.documents.iter()) {
        assert_eq!(a.id, b.id);
        assert_eq!(a.content, b.content);
        assert_eq!(a.embedding, b.embedding);
    }
}

#[test]
fn delete_unknown_id_changes_nothing() {
    let mut engine = RagEngine::new();
    let before: Vec<String> = engine.documents.iter().map(|d| d.id.clone()).collect();
    assert!(!engine.delete_document("no-such-id"));
    let after: Vec<String> = engine.documents.iter().map(|d| d.id.clone()).collect();
    assert_eq!(before, after);
}

#[test]
fn delete_removes_every_copy_of_an_id_and_keeps_order() {
    let mut engine = RagEngine { documents: Vec::new() };
    for (id, content) in [("a", "1"), ("b", "2"), ("a", "3"), ("c", "4")] {
        engine.documents.push(Document { id: id.to_string(), content: content.to_string(), embedding: None });
    }
    assert!(engine.delete_document("a"));
    let contents: Vec<&str> = engine.documents.iter().map(|d| d.content.as_str()).collect();
    assert_eq!(contents, vec!["2", "4"]);
    // deleting again is idempotent
    assert!(!engine.delete_document("a"));
    assert_eq!(engine.documents.len(), 2);
}

#[test]
fn add_then_delete_restores_the_documents() {
    let mut engine = RagEngine::new();
    let before: Vec<(String, String)> =
        engine.documents.iter().map(|d| (d.id.clone(), d.content.clone())).collect();
    let doc = engine.add_document("temporal".to_string(), None);
    assert!(engine.delete_document(&doc.id));
    let after: Vec<(String, String)> =
        engine.documents.iter().map(|d| (d.id.clone(), d.content.clone())).collect();
    assert_eq!(before, after);
}

#[test]
fn keyword_terms_are_trimmed_and_case_insensitive() {
    let doc = "El horario de atención es de 9 AM a 5 PM.";
    let s = RagEngine::keyword_similarity(doc, "  ¿HORARIO?  de,  comida!! ");
    assert_eq!(s, KeywordScore { matched: 2, total: 3 });
    let none = RagEngine::keyword_similarity(doc, "!!! ... ¿?");
    assert_eq!(none, KeywordScore { matched: 0, total: 0 });
    let empty = RagEngine::keyword_similarity(doc, "");
    assert_eq!(empty, KeywordScore { matched: 0, total: 0 });
    assert_eq!(ratio(RagEngine::keyword_similarity(doc, "horario de atención")), 1.0);
}

#[test]
fn keyword_matches_substrings() {
    let s = RagEngine::keyword_similarity("Soportamos múltiples idiomas", "idioma porta");
    assert_eq!(s, KeywordScore { matched: 2, total: 2 });
}

#[test]
fn score_sources_use_vectors_only_when_both_sides_have_them() {
    let mut engine = RagEngine { documents: Vec::new() };
    engine.documents.push(Document { id: "1".into(), content: "hola mundo".into(), embedding: Some(vec![0]) });
    engine.documents.push(Document { id: "2".into(), content: "adios".into(), embedding: None });
    let with = engine.score_sources("hola", true);
    assert_eq!(with[0], ScoreSource::Vector);
    assert_eq!(with[1], ScoreSource::Keyword(KeywordScore { matched: 0, total: 1 }));
    let without = engine.score_sources("hola", false);
    assert_eq!(without[0], ScoreSource::Keyword(KeywordScore { matched: 1, total: 1 }));
}

#[test]
fn ranking_is_descending_stable_and_cut() {
    let keys = vec![5, 9, 5, 1, 9];
    assert_eq!(rank_by_score(&keys, 3), vec![1, 4, 0]);
    assert_eq!(rank_by_score(&keys, 10), vec![1, 4, 0, 2, 3]);
    assert_eq!(rank_by_score(&keys, 0), Vec::<usize>::new());
    assert_eq!(rank_by_score(&Vec::new(), 3), Vec::<usize>::new());
}

#[test]
fn keyword_case_never_matters_for_ascii() {
    let doc = "Office hours: Monday to Friday, 9 AM to 5 PM.";
    for q in ["monday hours", "FRIDAY pm", "Sunday morning", "to"] {
        let base = RagEngine::keyword_similarity(doc, q);
        assert_eq!(RagEngine::keyword_similarity(&doc.to_ascii_uppercase(), q), base);
        assert_eq!(RagEngine::keyword_similarity(doc, &q.to_ascii_uppercase()), base);
        assert_eq!(RagEngine::keyword_similarity(&doc.to_ascii_lowercase(), q), base);
    }
}

#[test]
fn add_with_id_stores_exactly_what_it_is_given() {
    let mut engine = RagEngine { documents: Vec::new() };
    let doc = engine.add_document_with_id("id-1".to_string(), "texto".to_string(), Some(vec![3]));
    assert_eq!((doc.id.as_str(), doc.content.as_str()), ("id-1", "texto"));
    assert_eq!(doc.embedding, Some(vec![3]));
    assert_eq!(engine.documents.len(), 1);
    assert_eq!(engine.documents[0].id, "id-1");
    let matched = RagEngine::keyword_similarity("abc", "a b z");
    assert!(matched.matched <= matched.total);
}
