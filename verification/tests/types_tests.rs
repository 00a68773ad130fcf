use ollama_intl::parse::{output_file_name, parse_json, parse_yaml};
use ollama_intl::types::{FormatJSWire, FormattedMessage, IntlFile, MessageMap};

fn msg(text: &str) -> FormattedMessage {
    FormattedMessage { text: text.to_string(), note: None }
}

#[test]
fn read_after_write_in_a_table() {
    let mut m = MessageMap::new();
    m.insert("a".to_string(), msg("1"));
    m.insert("b".to_string(), msg("2"));
    m.insert("a".to_string(), msg("3"));
    assert_eq!(m.len(), 2);
    assert_eq!(m.get("a").unwrap().text, "3");
    assert_eq!(m.get("b").unwrap().text, "2");
    assert!(m.get("c").is_none());
    // a replaced key keeps its place
    assert_eq!(m.entries()[0].0, "a");
}

#[test]
fn pairs_stored_in_turn_keep_the_last_value() {
    let m = MessageMap::from_pairs(vec![
        ("x".to_string(), msg("1")),
        ("y".to_string(), msg("2")),
        ("x".to_string(), msg("3")),
    ]);
    assert_eq!(m.len(), 2);
    assert_eq!(m.get("x").unwrap().text, "3");
    assert_eq!(m.position("y"), Some(1));
}

#[test]
fn set_text_keeps_key_and_note() {
    let mut file = parse_json(r#"{"k": {"defaultMessage": "Hello", "description": "hint"}}"#).unwrap();
    file.messages_mut().set_text(0, "Hallo".to_string());
    let m = file.messages().get("k").unwrap();
    assert_eq!(m.text, "Hallo");
    assert_eq!(m.note.as_deref(), Some("hint"));
    assert!(matches!(file, IntlFile::FormatJS(_)));
}

#[test]
fn file_length_and_copy() {
    let file = parse_yaml("en:\n  a: x\n  b: y\n").unwrap();
    assert_eq!(file.len(), 2);
    let copy = file.duplicate();
    let IntlFile::Rails(locale, map) = copy else { panic!("expected Rails") };
    assert_eq!(locale, "en");
    assert_eq!(map.get("b").unwrap().text, "y");
}

#[test]
fn wire_descriptor_carries_text_and_note() {
    let w = FormatJSWire { default_message: "Hi".to_string(), description: Some("d".to_string()) };
    let m = w.into_message();
    assert_eq!(m.text, "Hi");
    assert_eq!(m.note.as_deref(), Some("d"));
    let back = FormatJSWire::from_message(&m);
    assert_eq!(back.default_message, "Hi");
    assert_eq!(back.description.as_deref(), Some("d"));
}

#[test]
fn output_name_follows_the_input_extension() {
    assert_eq!(output_file_name("de", "en.yml"), "de.yml");
    assert_eq!(output_file_name("de", "en.yaml"), "de.yml");
    assert_eq!(output_file_name("fr", "en.json"), "fr.json");
    assert_eq!(output_file_name("fr", "-"), "fr.json");
}
