use ollama_intl::parse::{parse_input, parse_json, parse_yaml, serialise, ParseError};
use ollama_intl::types::IntlFile;

// --- JSON: Simple ---

#[test]
fn test_parse_json_simple() {
    let s = r#"{"greeting": "Hello", "farewell": "Goodbye"}"#;
    let IntlFile::Simple(map) = parse_json(s).unwrap() else {
        panic!("expected Simple")
    };
    assert_eq!(map.get("greeting").unwrap().text, "Hello");
    assert_eq!(map.get("farewell").unwrap().text, "Goodbye");
}

// --- JSON: FormatJS ---

#[test]
fn test_parse_json_formatjs_with_description() {
    let s = r#"{"abc123": {"defaultMessage": "Hello World", "description": "A greeting"}}"#;
    let IntlFile::FormatJS(map) = parse_json(s).unwrap() else {
        panic!("expected FormatJS")
    };
    assert_eq!(map.get("abc123").unwrap().text, "Hello World");
    assert_eq!(map.get("abc123").unwrap().note.as_deref(), Some("A greeting"));
}

#[test]
fn test_parse_json_formatjs_without_description() {
    let s = r#"{"2RFWLf": {"defaultMessage": "Speedtest"}}"#;
    let IntlFile::FormatJS(map) = parse_json(s).unwrap() else {
        panic!("expected FormatJS")
    };
    assert_eq!(map.get("2RFWLf").unwrap().text, "Speedtest");
    assert!(map.get("2RFWLf").unwrap().note.is_none());
}

#[test]
fn test_parse_json_formatjs_real_file() {
    let s = r#"{
            "2RFWLf": {"defaultMessage": "Speedtest"},
            "9QV3cp": {"defaultMessage": "Available IP Blocks"},
            "qq7WMq": {"defaultMessage": "All VPS come with 1x IPv4 and 1x IPv6 address and unmetered traffic, all prices are excluding taxes."}
        }"#;
    let IntlFile::FormatJS(map) = parse_json(s).unwrap() else {
        panic!("expected FormatJS")
    };
    assert_eq!(map.len(), 3);
    assert_eq!(map.get("9QV3cp").unwrap().text, "Available IP Blocks");
}

#[test]
fn test_intlfile_iter_simple() {
    let file = parse_json(r#"{"hello": "world"}"#).unwrap();
    let entries = file.messages().entries();
    assert_eq!(entries.len(), 1);
    assert_eq!(entries[0].0, "hello");
    assert_eq!(entries[0].1.text, "world");
    assert!(entries[0].1.note.is_none());
}

#[test]
fn test_intlfile_iter_formatjs_preserves_note() {
    let s = r#"{"k": {"defaultMessage": "Hello", "description": "a hint"}}"#;
    let file = parse_json(s).unwrap();
    let entries = file.messages().entries();
    assert_eq!(entries[0].1.text, "Hello");
    assert_eq!(entries[0].1.note.as_deref(), Some("a hint"));
}

// --- YAML: Simple ---

#[test]
fn test_parse_yaml_simple() {
    let s = "greeting: Hello\nfarewell: Goodbye\n";
    let IntlFile::Simple(map) = parse_yaml(s).unwrap() else {
        panic!("expected Simple")
    };
    assert_eq!(map.get("greeting").unwrap().text, "Hello");
    assert_eq!(map.get("farewell").unwrap().text, "Goodbye");
}

// --- YAML: Rails ---

#[test]
fn test_parse_yaml_rails_en() {
    let s = "en:\n  greeting: Hello\n  farewell: Goodbye\n";
    let IntlFile::Rails(locale, map) = parse_yaml(s).unwrap() else {
        panic!("expected Rails")
    };
    assert_eq!(locale, "en");
    assert_eq!(map.get("greeting").unwrap().text, "Hello");
    assert_eq!(map.get("farewell").unwrap().text, "Goodbye");
}

#[test]
fn test_parse_yaml_rails_preserves_locale_key() {
    let s = "de:\n  greeting: Hallo\n";
    let IntlFile::Rails(locale, _) = parse_yaml(s).unwrap() else {
        panic!("expected Rails")
    };
    assert_eq!(locale, "de");
}

// --- Format detection via extension ---

#[test]
fn test_parse_input_json_simple() {
    let s = r#"{"key": "value"}"#;
    assert!(matches!(
        parse_input(s, "messages.json").unwrap(),
        IntlFile::Simple(_)
    ));
}

#[test]
fn test_parse_input_json_formatjs() {
    let s = r#"{"k": {"defaultMessage": "v"}}"#;
    assert!(matches!(
        parse_input(s, "en.json").unwrap(),
        IntlFile::FormatJS(_)
    ));
}

#[test]
fn test_parse_input_yml() {
    let s = "key: value\n";
    assert!(matches!(
        parse_input(s, "messages.yml").unwrap(),
        IntlFile::Simple(_)
    ));
}

#[test]
fn test_parse_input_yaml_rails() {
    let s = "en:\n  key: value\n";
    assert!(matches!(
        parse_input(s, "en.yaml").unwrap(),
        IntlFile::Rails(_, _)
    ));
}

// --- Serialisation round-trips ---

#[test]
fn test_roundtrip_simple_json() {
    let file = parse_json(r#"{"hello": "world"}"#).unwrap();
    let out = serialise(&file).unwrap();
    let IntlFile::Simple(map) = parse_json(&out).unwrap() else {
        panic!()
    };
    assert_eq!(map.get("hello").unwrap().text, "world");
}

#[test]
fn test_roundtrip_formatjs_preserves_description() {
    let s = r#"{"k": {"defaultMessage": "Hello", "description": "a hint"}}"#;
    let out = serialise(&parse_json(s).unwrap()).unwrap();
    assert!(
        out.contains("a hint"),
        "description should survive serialisation"
    );
    assert!(out.contains("defaultMessage"), "key should be camelCase");
    let IntlFile::FormatJS(map) = parse_json(&out).unwrap() else {
        panic!()
    };
    assert_eq!(map.get("k").unwrap().text, "Hello");
    assert_eq!(map.get("k").unwrap().note.as_deref(), Some("a hint"));
}

#[test]
fn test_roundtrip_rails_yaml() {
    let s = "en:\n  greeting: Hello\n  farewell: Goodbye\n";
    let out = serialise(&parse_yaml(s).unwrap()).unwrap();
    let IntlFile::Rails(locale, map) = parse_yaml(&out).unwrap() else {
        panic!()
    };
    assert_eq!(locale, "en");
    assert_eq!(map.get("greeting").unwrap().text, "Hello");
    assert_eq!(map.get("farewell").unwrap().text, "Goodbye");
}

#[test]
fn test_roundtrip_simple_yaml() {
    let s = "greeting: Hello\n";
    let out = serialise(&parse_yaml(s).unwrap()).unwrap();
    let IntlFile::Simple(map) = parse_yaml(&out).unwrap() else {
        panic!()
    };
    assert_eq!(map.get("greeting").unwrap().text, "Hello");
}

// --- Edge cases and errors ---

#[test]
fn json_that_does_not_parse_is_a_json_error() {
    assert!(matches!(parse_json("not json"), Err(ParseError::Json(_))));
    assert!(matches!(parse_json("[1, 2]"), Err(ParseError::Json(_))));
}

#[test]
fn json_mixing_descriptors_and_strings_is_an_error() {
    let s = r#"{"a": {"defaultMessage": "x"}, "b": "y"}"#;
    assert!(matches!(parse_json(s), Err(ParseError::Json(_))));
}

#[test]
fn json_empty_object_reads_as_empty_simple() {
    let IntlFile::Simple(map) = parse_json("{}").unwrap() else {
        panic!("expected Simple")
    };
    assert_eq!(map.len(), 0);
}

#[test]
fn json_null_description_is_no_note() {
    let s = r#"{"k": {"defaultMessage": "v", "description": null}}"#;
    let IntlFile::FormatJS(map) = parse_json(s).unwrap() else {
        panic!("expected FormatJS")
    };
    assert!(map.get("k").unwrap().note.is_none());
}

#[test]
fn json_descriptor_with_other_description_type_falls_back() {
    // A description that is neither a string nor null is no descriptor, and an
    // object value is no flat string either.
    let s = r#"{"k": {"defaultMessage": "v", "description": 3}}"#;
    assert!(matches!(parse_json(s), Err(ParseError::Json(_))));
}

#[test]
fn json_entries_keep_the_maps_key_order() {
    let file = parse_json(r#"{"b": "2", "a": "1"}"#).unwrap();
    let entries = file.messages().entries();
    assert_eq!(entries[0].0, "a");
    assert_eq!(entries[1].0, "b");
}

#[test]
fn yaml_that_does_not_parse_is_a_yaml_error() {
    assert!(matches!(parse_yaml("a: [1, 2"), Err(ParseError::Yaml(_))));
}

#[test]
fn yaml_sequence_is_not_a_mapping() {
    match parse_yaml("- a\n- b\n") {
        Err(ParseError::UnknownFormat(why)) => {
            assert_eq!(why, "expected a YAML mapping at top level")
        }
        _ => panic!("expected UnknownFormat"),
    }
}

#[test]
fn yaml_nested_mapping_is_not_recognised() {
    let s = "en:\n  a:\n    b: c\nde:\n  x: y\n";
    match parse_yaml(s) {
        Err(ParseError::UnknownFormat(why)) => assert_eq!(
            why,
            "YAML structure is not a recognised Rails or Simple format"
        ),
        _ => panic!("expected UnknownFormat"),
    }
}

#[test]
fn yaml_single_string_entry_is_simple() {
    let IntlFile::Simple(map) = parse_yaml("greeting: Hello\n").unwrap() else {
        panic!("expected Simple")
    };
    assert_eq!(map.len(), 1);
}

#[test]
fn yaml_non_string_values_drop_out_of_rails() {
    // A Rails mapping must hold only strings; one number makes it no Rails file.
    let s = "en:\n  a: x\n  b: 3\n";
    assert!(matches!(parse_yaml(s), Err(ParseError::UnknownFormat(_))));
}

#[test]
fn yaml_keys_that_are_not_strings_are_skipped() {
    let IntlFile::Simple(map) = parse_yaml("1: one\ntwo: two\n").unwrap() else {
        panic!("expected Simple")
    };
    assert_eq!(map.len(), 1);
    assert_eq!(map.get("two").unwrap().text, "two");
}

#[test]
fn input_name_decides_the_format() {
    // JSON is YAML too; a .yml name reads it as YAML.
    let s = r#"{"key": "value"}"#;
    assert!(matches!(parse_input(s, "x.yml").unwrap(), IntlFile::Simple(_)));
    assert!(matches!(parse_input("key: value\n", "x.json"), Err(ParseError::Json(_))));
}

#[test]
fn serialise_simple_writes_pretty_json_in_key_order() {
    let file = parse_yaml("b: two\na: one\n").unwrap();
    let out = serialise(&file).unwrap();
    assert_eq!(out, "{\n  \"a\": \"one\",\n  \"b\": \"two\"\n}");
}

#[test]
fn serialise_formatjs_writes_descriptors() {
    let s = r#"{"z": {"defaultMessage": "Z"}, "k": {"defaultMessage": "Hello", "description": "a hint"}}"#;
    let out = serialise(&parse_json(s).unwrap()).unwrap();
    assert_eq!(
        out,
        "{\n  \"k\": {\n    \"defaultMessage\": \"Hello\",\n    \"description\": \"a hint\"\n  },\n  \"z\": {\n    \"defaultMessage\": \"Z\"\n  }\n}"
    );
}

#[test]
fn serialise_rails_keeps_the_table_order() {
    let s = "en:\n  greeting: Hello\n  farewell: Goodbye\n";
    let out = serialise(&parse_yaml(s).unwrap()).unwrap();
    assert_eq!(out, s);
}

#[test]
fn serialise_rails_quotes_strings_that_read_as_other_scalars() {
    let s = "en:\n  a: 'true'\n  b: '12'\n";
    let file = parse_yaml(s).unwrap();
    let out = serialise(&file).unwrap();
    let IntlFile::Rails(_, map) = parse_yaml(&out).unwrap() else {
        panic!("expected Rails")
    };
    assert_eq!(map.get("a").unwrap().text, "true");
    assert_eq!(map.get("b").unwrap().text, "12");
}

#[test]
fn serialise_empty_formatjs_reads_back_as_simple() {
    // The one input on which FormatJS does not read back as FormatJS.
    let file = IntlFile::FormatJS(ollama_intl::types::MessageMap::new());
    let out = serialise(&file).unwrap();
    assert_eq!(out, "{}");
    assert!(matches!(parse_json(&out).unwrap(), IntlFile::Simple(_)));
}

#[test]
fn roundtrip_formatjs_comes_back_in_key_order() {
    let s = r#"{"b": {"defaultMessage": "B"}, "a": {"defaultMessage": "A", "description": "d"}}"#;
    let out = serialise(&parse_json(s).unwrap()).unwrap();
    let file = parse_json(&out).unwrap();
    let entries = file.messages().entries();
    assert_eq!(entries.len(), 2);
    assert_eq!(entries[0].0, "a");
    assert_eq!(entries[0].1.note.as_deref(), Some("d"));
    assert_eq!(entries[1].0, "b");
    assert!(entries[1].1.note.is_none());
}

#[test]
fn errors_describe_themselves() {
    let e = parse_yaml("- a\n").unwrap_err();
    assert_eq!(e.describe(), "Unknown format: expected a YAML mapping at top level");
    let e = parse_json("nope").unwrap_err();
    assert!(e.describe().starts_with("JSON parse error: "));
    assert!(e.describe().len() > "JSON parse error: ".len());
    let e = parse_yaml("a: [").unwrap_err();
    assert!(e.describe().starts_with("YAML parse error: "));
}

#[test]
fn json_descriptor_written_as_an_array() {
    let IntlFile::FormatJS(map) = parse_json(r#"{"k": ["Hello", "hint"]}"#).unwrap() else {
        panic!("expected FormatJS")
    };
    assert_eq!(map.get("k").unwrap().text, "Hello");
    assert_eq!(map.get("k").unwrap().note.as_deref(), Some("hint"));
    let IntlFile::FormatJS(map) = parse_json(r#"{"k": ["Hello", null]}"#).unwrap() else {
        panic!("expected FormatJS")
    };
    assert!(map.get("k").unwrap().note.is_none());
    assert!(matches!(parse_json(r#"{"k": ["Hello"]}"#), Err(ParseError::Json(_))));
    assert!(matches!(parse_json(r#"{"k": ["a", "b", "c"]}"#), Err(ParseError::Json(_))));
}

#[test]
fn equal_tables_are_written_alike_with_keys_in_order() {
    let a = parse_json(r#"{"b": "2", "a": "1", "c": "3"}"#).unwrap();
    let b = parse_yaml("c: '3'\na: '1'\nb: '2'\n").unwrap();
    let out = serialise(&a).unwrap();
    assert_eq!(out, serialise(&b).unwrap());
    let ia = out.find("\"a\"").unwrap();
    let ib = out.find("\"b\"").unwrap();
    let ic = out.find("\"c\"").unwrap();
    assert!(ia < ib && ib < ic);
}
