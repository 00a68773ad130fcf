use ollama_intl::icu::{apply_literals, collect_arg_names, collect_literals, has_generic_plural, parse_message, print_message, IcuElement};
use ollama_intl::parse::{parse_json, parse_yaml};
use ollama_intl::translate::{
    build_prompt, check_placeholders, clean_reply, finish_translation, is_generic_plural_message,
    parse_target, pending_text, plan_translation, prepare_target, resolve_translation, settle_message,
    simple_placeholders, translation_requests,
    Target, TranslateConfig, TranslationPlan,
};
use ollama_intl::types::FormattedMessage;

#[test]
fn test_has_generic_plural() {
    let parse = |s: &str| -> Vec<IcuElement> { parse_message(s).unwrap() };

    // The problematic pattern: runtime arg mixed with literal suffix inside plural
    assert!(has_generic_plural(&parse(
        "{n, plural, one {# {unit}} other {# {unit}s}}"
    )));

    // Normal plural with only literals — fine
    assert!(!has_generic_plural(&parse(
        "{n, plural, one {# minute} other {# minutes}}"
    )));

    // Simple argument — fine
    assert!(!has_generic_plural(&parse("Hello {name}")));

    // Plural with only a Pound and Argument but no literal text — fine
    assert!(!has_generic_plural(&parse(
        "{n, plural, one {# {unit}} other {# {unit}}}"
    )));
}

#[test]
fn test_simple_placeholders_escaped() {
    // Escaped {{ }} should not be returned as placeholders
    assert!(simple_placeholders("{{not_a_placeholder}}").is_empty());
    assert!(simple_placeholders("Price: {{amount}} USD").is_empty());

    // Real placeholders alongside escaped braces
    let vars = simple_placeholders("{{escaped}} but {real} here");
    assert_eq!(vars, vec!["{real}"]);

    // Mixed: escaped and ICU plural
    let vars = simple_placeholders("{{nope}} {count, plural, one {# item} other {# items}}");
    assert_eq!(vars, vec!["{count, plural, one {# item} other {# items}}"]);
}

#[test]
fn test_collect_literals_simple() {
    let ast = parse_message("Hello world").unwrap();
    let lits = collect_literals(&ast);
    assert_eq!(lits, vec!["Hello world"]);
}

#[test]
fn test_collect_literals_plural() {
    let text = "You have {count, plural, one {# message} other {# messages}}";
    let ast = parse_message(text).unwrap();
    let lits = collect_literals(&ast);
    // "You have " is the outer literal; then " message" and " messages" are inside the plural
    assert!(lits.iter().any(|l| l.contains("message")));
    assert!(lits.iter().any(|l| l.contains("messages")));
}

#[test]
fn test_apply_literals_roundtrip() {
    let text = "You have {count, plural, one {# message} other {# messages}}";
    let mut ast = parse_message(text).unwrap();
    let lits = collect_literals(&ast);
    // Apply same values back — the reprinted string may differ in whitespace
    // but argument names and literal content must be preserved.
    let mut idx = 0;
    apply_literals(&mut ast, &lits, &mut idx);
    let reprinted = print_message(&ast);
    // Argument name must be present
    assert!(reprinted.contains("count"), "arg name lost: {reprinted}");
    // Literal words must be present
    assert!(reprinted.contains("message"), "literal lost: {reprinted}");
    assert!(reprinted.contains("messages"), "literal lost: {reprinted}");
}

// --- Own tests ---

fn german() -> TranslateConfig {
    TranslateConfig {
        url: "http://localhost:11434/v1".to_string(),
        model: "translategemma:4b".to_string(),
        api_key: "ollama".to_string(),
        source_lang: "English".to_string(),
        source_code: "en".to_string(),
        target_lang: "German".to_string(),
        target_code: "de".to_string(),
    }
}

#[test]
fn literals_come_depth_first_with_their_white_space() {
    let ast = parse_message("You have {count, plural, one {# message} other {# messages}}").unwrap();
    assert_eq!(collect_literals(&ast), vec!["You have ", " message", " messages"]);
}

#[test]
fn applying_literals_replaces_them_in_order() {
    let mut ast = parse_message("Hi {name}, bye").unwrap();
    let mut idx = 0;
    apply_literals(&mut ast, &vec!["Hallo ".to_string(), ", tschüss".to_string()], &mut idx);
    assert_eq!(idx, 2);
    assert_eq!(collect_literals(&ast), vec!["Hallo ", ", tschüss"]);
    assert_eq!(print_message(&ast), "Hallo {name}, tschüss");
}

#[test]
fn applying_too_few_literals_keeps_the_rest() {
    let mut ast = parse_message("Hi {name}, bye").unwrap();
    let mut idx = 0;
    apply_literals(&mut ast, &vec!["Hallo ".to_string()], &mut idx);
    assert_eq!(idx, 2);
    assert_eq!(collect_literals(&ast), vec!["Hallo ", ", bye"]);
}

#[test]
fn argument_names_cover_every_kind_of_argument() {
    let ast = parse_message("{a} {b, number} {c, plural, one {{d}} other {x}} <t>{e}</t>").unwrap();
    assert_eq!(collect_arg_names(&ast), vec!["a", "b", "c", "d", "t", "e"]);
}

#[test]
fn generic_plural_inside_select_and_tags() {
    let ast = parse_message("{g, select, m {{n, plural, other {# {unit}s}}} other {x}}").unwrap();
    assert!(has_generic_plural(&ast));
    let ast = parse_message("<b>{n, plural, other {# {unit} left}}</b>").unwrap();
    assert!(has_generic_plural(&ast));
    assert!(is_generic_plural_message("{n, plural, one {# {unit}} other {# {unit}s}}"));
    assert!(!is_generic_plural_message("No braces at all"));
    assert!(!is_generic_plural_message("{broken"));
}

#[test]
fn unparsable_message_is_none() {
    assert!(parse_message("{unclosed").is_none());
}

#[test]
fn placeholders_nested_and_unterminated() {
    assert_eq!(simple_placeholders("a {x} b {y} c"), vec!["{x}", "{y}"]);
    assert_eq!(simple_placeholders("{a{b}c}"), vec!["{a{b}c}"]);
    assert_eq!(simple_placeholders("tail {open"), vec!["{open}"]);
    assert!(simple_placeholders("empty {} braces").is_empty());
    assert!(simple_placeholders("}} only").is_empty());
}

#[test]
fn placeholder_check_by_syntax_tree() {
    let src = FormattedMessage { text: "Hello {name}, {n, plural, other {# items}}".to_string(), note: None };
    let good = FormattedMessage { text: "Hallo {name}, {n, plural, other {# Dinge}}".to_string(), note: None };
    let bad = FormattedMessage { text: "Hallo, {n, plural, other {# Dinge}}".to_string(), note: None };
    assert_eq!(check_placeholders(&src, &good), None);
    assert_eq!(
        check_placeholders(&src, &bad),
        Some("missing placeholders: {name}".to_string())
    );
}

#[test]
fn placeholder_check_by_substring_when_parsing_fails() {
    let src = FormattedMessage { text: "{a} and {b".to_string(), note: None };
    let tgt = FormattedMessage { text: "{a} und".to_string(), note: None };
    assert_eq!(
        check_placeholders(&src, &tgt),
        Some("missing placeholders: {b}".to_string())
    );
    let plain = FormattedMessage { text: "no braces".to_string(), note: None };
    assert_eq!(check_placeholders(&plain, &tgt), None);
}

#[test]
fn placeholder_check_lists_every_missing_one() {
    let src = FormattedMessage { text: "{a} {b} {c}".to_string(), note: None };
    let tgt = FormattedMessage { text: "{b}".to_string(), note: None };
    assert_eq!(
        check_placeholders(&src, &tgt),
        Some("missing placeholders: {a}, {c}".to_string())
    );
}

#[test]
fn plain_text_is_translated_whole() {
    let plan = plan_translation("Hello world");
    assert!(matches!(plan, TranslationPlan::Whole(_)));
    assert_eq!(translation_requests(&plan), vec!["Hello world"]);
    assert_eq!(finish_translation(plan, &vec!["Hallo Welt".to_string()]), "Hallo Welt");
}

#[test]
fn icu_text_is_translated_literal_by_literal() {
    let plan = plan_translation("You have {count, plural, one {# message} other {# messages}}");
    assert!(matches!(plan, TranslationPlan::Literals(_, _)));
    let requests = translation_requests(&plan);
    assert_eq!(requests, vec!["You have", "message", "messages"]);
    let replies = vec!["Sie haben".to_string(), "Nachricht".to_string(), "Nachrichten".to_string()];
    assert_eq!(
        finish_translation(plan, &replies),
        "Sie haben {count,plural,one{# Nachricht} other{# Nachrichten}}"
    );
}

#[test]
fn blank_literals_are_kept_and_not_sent() {
    let plan = plan_translation("{a} {b}");
    let requests = translation_requests(&plan);
    assert!(requests.is_empty());
    assert_eq!(finish_translation(plan, &vec![]), "{a} {b}");
}

#[test]
fn braces_that_do_not_parse_go_whole() {
    let plan = plan_translation("{unclosed");
    assert_eq!(translation_requests(&plan), vec!["{unclosed"]);
}

#[test]
fn resolution_keeps_source_text_when_a_placeholder_is_lost() {
    let source = parse_json(r#"{"k": "Hello {name}"}"#).unwrap();
    let current = source.messages().get("k").unwrap().duplicate();
    let (text, warn) = resolve_translation(&source, "k", &current, Some("Hallo".to_string()));
    assert_eq!(text, "Hello {name}");
    assert_eq!(warn, Some("missing placeholders: {name}".to_string()));
    let (text, warn) = resolve_translation(&source, "k", &current, Some("Hallo {name}".to_string()));
    assert_eq!(text, "Hallo {name}");
    assert_eq!(warn, None);
    let (text, warn) = resolve_translation(&source, "k", &current, None);
    assert_eq!(text, "Hello {name}");
    assert_eq!(warn, None);
}

#[test]
fn prompt_names_languages_and_placeholder_rule() {
    let p = build_prompt(&german(), "Hello {name}");
    assert!(p.starts_with("You are a professional English (en) to German (de) translator."));
    assert!(p.contains("Any placeholders in curly braces such as {name}, {count}, {region} are code tokens and must be\ncopied exactly as-is, preserving their original capitalisation and spelling."));
    assert!(p.ends_with("Please translate the following English text into German:\n\n\nHello {name}"));
}

#[test]
fn replies_are_trimmed() {
    assert_eq!(clean_reply(Some("  Hallo Welt \n".to_string())), "Hallo Welt");
    assert_eq!(clean_reply(None), "");
    assert_eq!(clean_reply(Some(" \t ".to_string())), "");
}

#[test]
fn target_splits_at_the_first_colon() {
    let t = parse_target("German:de").unwrap();
    assert_eq!(t.lang, "German");
    assert_eq!(t.code, "de");
    let t = parse_target("a:b:c").unwrap();
    assert_eq!(t.lang, "a");
    assert_eq!(t.code, "b:c");
    assert_eq!(
        parse_target("German").unwrap_err(),
        "expected \"Language:code\", got \"German\""
    );
    let t: Target = "French:fr".parse().unwrap();
    assert_eq!(t.code, "fr");
}

#[test]
fn pending_text_skips_generic_plurals() {
    let file = parse_json(r#"{"a": "{n, plural, one {# {unit}} other {# {unit}s}}", "b": "Hello"}"#).unwrap();
    assert_eq!(pending_text(&file, 0), None);
    assert_eq!(pending_text(&file, 1), Some("Hello".to_string()));
}

#[test]
fn settling_a_message_changes_only_its_text() {
    let source = parse_json(r#"{"k": {"defaultMessage": "Hi {name}", "description": "greeting"}, "z": {"defaultMessage": "Bye"}}"#).unwrap();
    let mut file = source.duplicate();
    let warn = settle_message(&source, &mut file, 0, Some("Hallo {name}".to_string()));
    assert_eq!(warn, None);
    let warn = settle_message(&source, &mut file, 1, None);
    assert_eq!(warn, None);
    let entries = file.messages().entries();
    assert_eq!(entries[0].0, "k");
    assert_eq!(entries[0].1.text, "Hallo {name}");
    assert_eq!(entries[0].1.note.as_deref(), Some("greeting"));
    assert_eq!(entries[1].1.text, "Bye");
    assert!(matches!(file, ollama_intl::types::IntlFile::FormatJS(_)));
}

#[test]
fn settling_a_message_that_lost_a_placeholder_keeps_the_source() {
    let source = parse_json(r#"{"k": "Hi {name}"}"#).unwrap();
    let mut file = source.duplicate();
    let warn = settle_message(&source, &mut file, 0, Some("Hallo".to_string()));
    assert_eq!(warn, Some("missing placeholders: {name}".to_string()));
    assert_eq!(file.messages().entries()[0].1.text, "Hi {name}");
}

#[test]
fn replying_with_the_requests_reprints_the_message() {
    let text = "You have {count, plural, one {# message} other {# messages}}";
    let plan = plan_translation(text);
    let requests = translation_requests(&plan);
    let same = finish_translation(plan, &requests);
    assert_eq!(same, print_message(&parse_message(text).unwrap()));
    let plan = plan_translation("  Hello world  ");
    let requests = translation_requests(&plan);
    assert_eq!(finish_translation(plan, &requests), "  Hello world  ");
}

#[test]
fn generic_mix_in_a_select_branch_counts() {
    let ast = parse_message("{g, select, a {{unit}s} other {x}}").unwrap();
    assert!(has_generic_plural(&ast));
    let ast = parse_message("{g, select, a {{unit}} other {x}}").unwrap();
    assert!(!has_generic_plural(&ast));
}

#[test]
fn texts_the_parser_could_panic_on_do_not_parse() {
    // An apostrophe after a `number`, `date` or `time` word in a text that is not ASCII.
    assert!(parse_message("日本語日本語{a,number,'x'}").is_none());
    assert!(parse_message("{d, date} l'été").is_none());
    // Everything else goes to the parser.
    assert!(parse_message("日本語 {a}").is_some());
    assert!(parse_message("it's {a, number}").is_some());
    assert!(parse_message("l'été {n, plural, one {# jour} other {# jours}}").is_some());
    assert!(parse_message("{n, plural, one {aujourd'hui é} other {x}}").is_some());
    assert!(parse_message("'{'é").is_some());
    let src = FormattedMessage { text: "日本語日本語{a,number,'x'}".to_string(), note: None };
    assert_eq!(check_placeholders(&src, &src), None);
}

#[test]
fn apostrophes_and_accents_keep_the_icu_handling() {
    let own = FormattedMessage { text: "'{'é".to_string(), note: None };
    assert_eq!(check_placeholders(&own, &own), None);
    assert!(is_generic_plural_message("l'été {n, plural, one {# {unit}} other {# {unit}s}}"));
    let plan = plan_translation("l'été {n, plural, one {# jour} other {# jours}}");
    assert!(matches!(plan, TranslationPlan::Literals(_, _)));
    let src = FormattedMessage { text: "{n, plural, one {# day} other {# days}}".to_string(), note: None };
    let tgt = FormattedMessage { text: "{n, plural, one {# jour aujourd'hui} other {# jours}}".to_string(), note: None };
    assert_eq!(check_placeholders(&src, &tgt), None);
}

#[test]
fn unicode_white_space_is_trimmed() {
    assert_eq!(clean_reply(Some("\u{3000}Hallo\u{85}\u{a0}".to_string())), "Hallo");
    assert_eq!(clean_reply(Some("\u{200b}x".to_string())), "\u{200b}x");
}

#[test]
fn a_message_never_misses_its_own_placeholders() {
    for text in ["Hello {name}", "{n, plural, one {# x} other {# xs}}", "{a} {{b}}", "plain"] {
        let m = FormattedMessage { text: text.to_string(), note: Some("n".to_string()) };
        let t = FormattedMessage { text: text.to_string(), note: None };
        assert_eq!(check_placeholders(&m, &t), None);
    }
    // An unclosed placeholder that does not parse is the exception.
    let m = FormattedMessage { text: "{a} {c".to_string(), note: None };
    assert_eq!(check_placeholders(&m, &m), Some("missing placeholders: {c}".to_string()));
}

#[test]
fn existing_translations_are_kept_and_missing_keys_added() {
    let source = parse_json(r#"{"a": "Apple", "b": "Banana", "c": "Cherry"}"#).unwrap();
    let existing = parse_json(r#"{"a": "Apfel", "z": "Zebra"}"#).unwrap();
    let (file, to_translate) = prepare_target(&source, Some(&existing), false);
    let entries = file.messages().entries();
    assert_eq!(entries.len(), 3);
    assert_eq!(entries[0].0, "a");
    assert_eq!(entries[0].1.text, "Apfel");
    assert_eq!(entries[1].1.text, "Banana");
    assert_eq!(entries[2].1.text, "Cherry");
    assert_eq!(to_translate, vec![false, true, true]);
    assert!(file.messages().get("z").is_none());
}

#[test]
fn force_retranslates_everything() {
    let source = parse_yaml("en:\n  a: Apple\n  b: Banana\n").unwrap();
    let existing = parse_yaml("en:\n  a: Apfel\n").unwrap();
    let (file, to_translate) = prepare_target(&source, Some(&existing), true);
    assert_eq!(to_translate, vec![true, true]);
    assert_eq!(file.messages().get("a").unwrap().text, "Apple");
    let ollama_intl::types::IntlFile::Rails(locale, _) = file else { panic!("expected Rails") };
    assert_eq!(locale, "en");
    let (_, to_translate) = prepare_target(&source, None, false);
    assert_eq!(to_translate, vec![true, true]);
}
