//! Reading and writing the configuration.

use opencode_config::read_opencode_config;
use opencode_config::strip_jsonc_comments;
use opencode_config::write_opencode_config;
use opencode_config::AppError;
use serde_json::Value;

fn value(text: &str) -> Value {
    serde_json::from_str(text).unwrap()
}

#[test]
fn missing_file_is_the_default() {
    let mut cache: Option<String> = None;
    let config = read_opencode_config(None, &mut cache).unwrap();
    assert_eq!(config, value(r#"{"$schema": "https://opencode.ai/config.json"}"#));
    assert_eq!(cache, None);
}

#[test]
fn missing_file_leaves_what_is_remembered() {
    let mut cache = Some("{}".to_string());
    let config = read_opencode_config(None, &mut cache).unwrap();
    assert_eq!(config["$schema"], "https://opencode.ai/config.json");
    assert_eq!(cache, Some("{}".to_string()));
}

#[test]
fn file_is_read_without_its_comments_and_remembered_with_them() {
    let text = "{ \"a\": 1 } // b";
    let mut cache = Some("old".to_string());
    let config = read_opencode_config(Some(text), &mut cache).unwrap();
    assert_eq!(config, value(r#"{"a": 1}"#));
    assert_eq!(cache, Some(text.to_string()));
}

#[test]
fn file_that_is_not_json_is_an_error_and_is_remembered() {
    let mut cache: Option<String> = None;
    let result = read_opencode_config(Some("{ \"a\": 1, }"), &mut cache);
    match result {
        Err(AppError::Json { source }) => {
            assert_eq!(source.to_string(), "trailing comma at line 1 column 11")
        }
        _ => panic!("expected an error"),
    }
    assert_eq!(cache, Some("{ \"a\": 1, }".to_string()));
}

#[test]
fn writing_with_nothing_remembered_is_plain() {
    let text = write_opencode_config(&None, &value(r#"{"b": [], "a": {"c": true}}"#)).unwrap();
    assert_eq!(text, "{\n  \"a\": {\n    \"c\": true\n  },\n  \"b\": []\n}");
}

#[test]
fn writing_what_was_read_gives_the_same_text() {
    let text = "{ // a\n  \"x\" : [ 1.50, -0.0 ], /* b */ \"y\":null }\n";
    let mut cache: Option<String> = None;
    let config = read_opencode_config(Some(text), &mut cache).unwrap();
    assert_eq!(write_opencode_config(&cache, &config).unwrap(), text);
}

#[test]
fn writing_over_an_unreadable_text_is_plain() {
    let cache = Some("{ oops".to_string());
    let text = write_opencode_config(&cache, &value(r#"{"a": 1}"#)).unwrap();
    assert_eq!(text, "{\n  \"a\": 1\n}");
}

#[test]
fn writing_a_changed_value_keeps_the_comments() {
    let cache = Some("{ \"a\": 1 } // b".to_string());
    let text = write_opencode_config(&cache, &value(r#"{"a": 2}"#)).unwrap();
    assert_eq!(text, "{ \"a\": 2 } // b");
}

#[test]
fn a_change_that_is_not_found_in_the_text_is_not_written() {
    let cache = Some("{ \"a\" : 1 } // b".to_string());
    let text = write_opencode_config(&cache, &value(r#"{"a": 2}"#)).unwrap();
    assert_eq!(text, "{ \"a\" : 1 } // b");
}

#[test]
fn what_is_written_anew_is_read_back() {
    let documents = [
        r#"{"a": {"b": ["c // d", "/* e */", "\"", "\\", "\n", "é"]}}"#,
        "[0, -1, 18446744073709551615, -9223372036854775808, 0.5]",
        "\"http://x\"",
        "null",
        "{}",
        "true",
    ];
    for document in documents {
        let config = value(document);
        let text = write_opencode_config(&None, &config).unwrap();
        let mut cache: Option<String> = None;
        assert_eq!(read_opencode_config(Some(&text), &mut cache).unwrap(), config);
    }
}

#[test]
fn nesting_limit_is_where_reading_stops() {
    let mut config = Value::Null;
    for _ in 0..127 {
        config = Value::Array(vec![config]);
    }
    let mut cache: Option<String> = None;
    let text = write_opencode_config(&None, &config).unwrap();
    assert_eq!(read_opencode_config(Some(&text), &mut cache).unwrap(), config);
    let deeper = Value::Array(vec![config]);
    let text = write_opencode_config(&None, &deeper).unwrap();
    assert!(read_opencode_config(Some(&text), &mut cache).is_err());
}

#[test]
fn some_floating_point_numbers_change_their_last_digit() {
    let number = serde_json::Number::from_f64(31.245270191439438).unwrap();
    let config = Value::Array(vec![Value::Number(number)]);
    let text = write_opencode_config(&None, &config).unwrap();
    assert_eq!(text, "[\n  31.245270191439438\n]");
    let mut cache: Option<String> = None;
    assert_ne!(read_opencode_config(Some(&text), &mut cache).unwrap(), config);
}

#[test]
fn extreme_floating_point_numbers_are_read_again() {
    for number in [f64::MAX, f64::MIN, f64::MIN_POSITIVE, 5e-324, 1e308, 1.797693134862315e308] {
        let config = Value::Number(serde_json::Number::from_f64(number).unwrap());
        let text = write_opencode_config(&None, &config).unwrap();
        let mut cache: Option<String> = None;
        assert!(read_opencode_config(Some(&text), &mut cache).unwrap().is_f64());
    }
}

#[test]
fn plain_json_is_left_as_it_stands() {
    let text = "{ \"a//b\" : \"/* c */\" , \"d\" : [ 1.0 , \"\\\"//\" ] }\n";
    assert_eq!(strip_jsonc_comments(text), text);
    let mut cache: Option<String> = None;
    let config = read_opencode_config(Some(text), &mut cache).unwrap();
    assert_eq!(config, value(text));
    assert_eq!(cache, Some(text.to_string()));
}
