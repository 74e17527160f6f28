use fruity::settings::Settings;
use fruity::yaml::{settings_from_str, settings_from_yaml, YamlValue};

fn describe(settings: &Settings) -> String {
    match settings {
        Settings::Bool(value) => format!("{}", value),
        Settings::I64(value) => format!("{}", value),
        Settings::U64(value) => format!("{}u", value),
        Settings::String(value) => format!("'{}'", value),
        Settings::Array(items) => format!("[{}]", items.iter().map(describe).collect::<Vec<_>>().join(", ")),
        Settings::Object(fields) => format!(
            "{{{}}}",
            fields.iter().map(|(k, v)| format!("{}: {}", k, describe(v))).collect::<Vec<_>>().join(", ")
        ),
        Settings::Null => "null".to_string(),
    }
}

#[test]
fn yaml_text_becomes_a_settings_tree() {
    let settings = settings_from_str("shader: main\nwidth: 3\nflags: [true, 1.5, ~]\n7: skipped\nnested:\n  a: b\n")
        .expect("the text is YAML");
    assert_eq!(describe(&settings), "{shader: 'main', width: 3, flags: [true, null, null], nested: {a: 'b'}}");
    assert_eq!(settings.get_u32("width", 0), 3);
}

#[test]
fn only_the_first_document_is_read() {
    let settings = settings_from_str("--- 1\n--- 2\n").unwrap();
    assert_eq!(describe(&settings), "1");
}

#[test]
fn text_that_is_not_yaml_or_holds_no_document_gives_none() {
    assert!(settings_from_str("key: [1, 2").is_none());
    assert!(settings_from_str("").is_none());
}

#[test]
fn hash_entries_with_text_keys_are_kept_in_order() {
    let value = YamlValue::Hash(vec![
        (YamlValue::String("b".to_string()), YamlValue::Integer(1)),
        (YamlValue::Boolean(true), YamlValue::Integer(2)),
        (YamlValue::String("a".to_string()), YamlValue::Real("0.5".to_string())),
    ]);
    assert_eq!(describe(&settings_from_yaml(&value)), "{b: 1, a: null}");
}
