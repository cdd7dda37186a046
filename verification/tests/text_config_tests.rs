use tts_realtime::config::{parse_port, Config, ConfigError, DEFAULT_PORT};
use tts_realtime::text::{join_all, split_whitespace, trim};

#[test]
fn trim_removes_unicode_whitespace_at_both_ends() {
    assert_eq!(trim("  hola mundo \n\t"), "hola mundo");
    assert_eq!(trim("\u{3000}x\u{a0}"), "x");
    assert_eq!(trim("   "), "");
    assert_eq!(trim(&trim("  a b  ")), trim("  a b  "));
}

#[test]
fn split_whitespace_gives_the_words() {
    let cs: Vec<char> = "  uno dos\t\ttres \n".chars().collect();
    let words: Vec<String> = split_whitespace(&cs).iter().map(|w| w.iter().collect()).collect();
    assert_eq!(words, vec!["uno", "dos", "tres"]);
    assert!(split_whitespace(&Vec::new()).is_empty());
}

#[test]
fn join_all_concatenates() {
    assert_eq!(join_all(&vec!["a".to_string(), "".to_string(), "bc".to_string()]), "abc");
}

#[test]
fn ports_parse_like_u16() {
    assert_eq!(parse_port("8080"), Some(8080));
    assert_eq!(parse_port("+80"), Some(80));
    assert_eq!(parse_port("0065535"), Some(65535));
    assert_eq!(parse_port("65536"), None);
    assert_eq!(parse_port("-1"), None);
    assert_eq!(parse_port("+"), None);
    assert_eq!(parse_port(""), None);
    assert_eq!(parse_port(" 80"), None);
    assert_eq!(parse_port("8o"), None);
    for s in ["0", "1", "443", "65535", "99999", "+1", "x", "1_0"] {
        assert_eq!(parse_port(s), s.parse::<u16>().ok(), "{}", s);
    }
}

#[test]
fn config_needs_the_key_and_defaults_the_port() {
    assert_eq!(Config::from_settings(None, Some("80".into())).unwrap_err(), ConfigError::MissingApiKey);
    let c = Config::from_settings(Some("k".into()), None).unwrap();
    assert_eq!(c.gemini_api_key, "k");
    assert_eq!(c.server_port, DEFAULT_PORT);
    assert_eq!(Config::from_settings(Some("k".into()), Some("abc".into())).unwrap().server_port, 8000);
    assert_eq!(Config::from_settings(Some("k".into()), Some("3000".into())).unwrap().server_port, 3000);
}

#[test]
fn char_classes_agree_with_std_everywhere() {
    for u in 0u32..=0x10FFFF {
        if let Some(c) = char::from_u32(u) {
            assert_eq!(tts_realtime::text::is_whitespace(c), c.is_whitespace(), "{:x}", u);
            assert_eq!(tts_realtime::text::is_alphanumeric(c), c.is_alphanumeric(), "{:x}", u);
        }
    }
}

#[test]
fn lowercase_agrees_with_std() {
    for s in ["HORARIO de Atención", "ABC xyz 09 !?", "ÁÉÍ ÑANDÚ", "İstanbul", "ΣΑΣ", ""] {
        assert_eq!(tts_realtime::text::to_lowercase(s), s.to_lowercase(), "{}", s);
    }
}

#[test]
fn missing_key_is_reported_as_documented() {
    let err = Config::from_settings(None, None).unwrap_err();
    assert_eq!(err.message(), "GEMINI_API_KEY no encontrada");
}
