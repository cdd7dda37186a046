use tts_realtime::stream::GeminiStreamParser;

fn object(text: &str) -> String {
    format!(
        "{{\"candidates\": [{{\"content\": {{\"parts\": [{{\"text\": \"{}\"}}],\"role\": \"model\"}}}}]}}",
        text
    )
}

fn body() -> String {
    format!("[{},\r\n{},\r\n{}]", object("Hola"), object(", ¿qué tal?"), object(" Bien."))
}

#[test]
fn whole_body_yields_every_text_in_order() {
    let mut p = GeminiStreamParser::new();
    let out = p.push(&body());
    assert_eq!(out, vec!["Hola".to_string(), ", ¿qué tal?".to_string(), " Bien.".to_string()]);
    // what is left holds no object: pushing nothing yields nothing
    assert!(p.push("").is_empty());
}

#[test]
fn any_cut_yields_the_same_texts() {
    let whole = body();
    let chars: Vec<char> = whole.chars().collect();
    let mut once = GeminiStreamParser::new();
    let expected = once.push(&whole);
    for cut in 0..=chars.len() {
        let a: String = chars[..cut].iter().collect();
        let b: String = chars[cut..].iter().collect();
        let mut p = GeminiStreamParser::new();
        let mut got = p.push(&a);
        got.extend(p.push(&b));
        assert_eq!(got, expected, "cut at {}", cut);
    }
}

#[test]
fn incomplete_object_waits_for_the_rest() {
    let mut p = GeminiStreamParser::new();
    let obj = object("parcial");
    let (a, b) = obj.split_at(20);
    assert!(p.push(a).is_empty());
    assert_eq!(p.push(b), vec!["parcial".to_string()]);
}

#[test]
fn objects_without_text_or_not_json_are_skipped() {
    let mut p = GeminiStreamParser::new();
    let out = p.push("{\"usageMetadata\": {\"x\": 1}} {not json} {\"candidates\":[{\"content\":{\"parts\":[{\"text\":7}]}}]}");
    assert!(out.is_empty());
    let out2 = p.push(&object("ok"));
    assert_eq!(out2, vec!["ok".to_string()]);
}

#[test]
fn push_chunk_decodes_and_joins() {
    let mut p = GeminiStreamParser::new();
    let bytes = format!("[{},{}", object("uno "), object("dos"));
    assert_eq!(p.push_chunk(bytes.as_bytes()), "uno dos");
    assert_eq!(p.push_chunk(b"]"), "");
}

#[test]
fn push_chunk_replaces_invalid_bytes() {
    let mut p = GeminiStreamParser::new();
    let mut bytes = b"{\"candidates\":[{\"content\":{\"parts\":[{\"text\":\"a".to_vec();
    bytes.push(0xff);
    bytes.extend_from_slice(b"b\"}]}}]}");
    assert_eq!(p.push_chunk(&bytes), "a\u{FFFD}b");
}

#[test]
fn braces_and_escapes_inside_strings_do_not_count() {
    let mut p = GeminiStreamParser::new();
    let body = r#"[{"candidates":[{"content":{"parts":[{"text":"a}b"}]}}]}]"#;
    assert_eq!(p.push(body), vec!["a}b".to_string()]);
    let tricky = r#"{"candidates":[{"content":{"parts":[{"text":"x\"}{y\\"}]}}]}"#;
    assert_eq!(p.push(tricky), vec!["x\"}{y\\".to_string()]);
}

#[test]
fn chunks_cut_inside_a_character_decode_as_a_whole() {
    let whole = format!("[{},\r\n{}]", object("Está bien, ¿sí? 日本"), object("adiós"));
    let bytes = whole.as_bytes();
    let mut once = GeminiStreamParser::new();
    let expected = once.push_chunk(bytes);
    assert_eq!(expected, "Está bien, ¿sí? 日本adiós");
    for cut in 0..=bytes.len() {
        let mut p = GeminiStreamParser::new();
        let mut got = p.push_chunk(&bytes[..cut]);
        got.push_str(&p.push_chunk(&bytes[cut..]));
        assert_eq!(got, expected, "cut at {}", cut);
    }
    let mut q = GeminiStreamParser::new();
    let mut got = String::new();
    for b in bytes {
        got.push_str(&q.push_chunk(std::slice::from_ref(b)));
    }
    assert_eq!(got, expected);
}

#[test]
fn invalid_bytes_decode_like_from_utf8_lossy() {
    let mut bytes = b"{\"candidates\":[{\"content\":{\"parts\":[{\"text\":\"".to_vec();
    bytes.extend_from_slice(&[0xe6, 0x97, b'x', 0xc3, 0xa1, 0xff, 0xf0, 0x9f, 0x98, 0x80, 0xed, 0xa0, 0x80]);
    bytes.extend_from_slice(b"\"}]}}]}");
    let lossy = String::from_utf8_lossy(&bytes).into_owned();
    let start = lossy.find("\"text\":\"").unwrap() + 8;
    let end = lossy.rfind("\"}]}}]}").unwrap();
    let mut p = GeminiStreamParser::new();
    assert_eq!(p.push_chunk(&bytes), lossy[start..end].to_string());
}
