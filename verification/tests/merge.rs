//! Writing a changed document over the text it was read from.

use opencode_config::merge_json_objects;
use opencode_config::preserve_comments_in_json;
use opencode_config::read_opencode_config;
use opencode_config::replace_json_value;
use opencode_config::replace_member_text;
use opencode_config::smart_json_merge;
use opencode_config::strip_jsonc_comments;
use opencode_config::AppError;
use serde_json::Value;

fn value(text: &str) -> Value {
    serde_json::from_str(text).unwrap()
}

#[test]
fn test_preserve_comments_no_change() {
    let original = r#"{
  // This is a comment
  "key": "value"
}"#;
    let parsed = serde_json::from_str(&strip_jsonc_comments(original)).unwrap();
    let result = preserve_comments_in_json(original, &parsed).unwrap();
    // Should return original with comments intact
    assert!(result.contains("// This is a comment"));
    assert_eq!(result, original);
}

#[test]
fn test_preserve_comments_value_change() {
    let original = r#"{
  // Important config
  "key": "old_value"
}"#;
    let mut new_config: Value = serde_json::from_str(&strip_jsonc_comments(original)).unwrap();
    if let Some(obj) = new_config.as_object_mut() {
        obj.insert("key".to_string(), Value::String("new_value".to_string()));
    }

    let result = preserve_comments_in_json(original, &new_config).unwrap();
    // Should preserve comment
    assert!(result.contains("// Important config"));
    // Should have new value
    let parsed: Value = serde_json::from_str(&strip_jsonc_comments(&result)).unwrap();
    assert_eq!(parsed["key"], "new_value");
}

#[test]
fn test_smart_json_merge_identical() {
    let original = r#"{"key": "value"}"#;
    let value: Value = serde_json::from_str(original).unwrap();
    let result = smart_json_merge(original, &value, &value).unwrap();
    assert_eq!(result, original);
}

#[test]
fn test_replace_json_value_simple() {
    let text = r#"{"name": "test", "count": 42}"#;
    let old_val = Value::from(42);
    let new_val = Value::from(100);
    let result = replace_json_value(text, "count", &old_val, &new_val).unwrap();
    assert!(result.contains("100"));
    assert!(!result.contains("42"));
}

#[test]
fn test_replace_json_value_with_space() {
    let text = r#"{"name": "test", "count": 42}"#;
    let old_val = Value::from("test");
    let new_val = Value::from("updated");
    let result = replace_json_value(text, "name", &old_val, &new_val).unwrap();
    assert!(result.contains("updated"));
}

#[test]
fn replacing_changes_one_place() {
    let text = "{ // a: 1\n  \"a\": 1, \"b\": { \"a\": 1 } /* end */ }";
    let result = replace_json_value(text, "a", &Value::from(1), &Value::from(2)).unwrap();
    assert_eq!(result, "{ // a: 1\n  \"a\": 2, \"b\": { \"a\": 1 } /* end */ }");
}

#[test]
fn replacing_looks_for_the_tight_member_first() {
    let text = r#"{"x": {"a": 1}, "y": {"a":1}}"#;
    let result = replace_json_value(text, "a", &Value::from(1), &Value::from(2)).unwrap();
    assert_eq!(result, r#"{"x": {"a": 1}, "y": {"a":2}}"#);
}

#[test]
fn replacing_writes_the_new_value_over_several_lines() {
    let text = r#"{"a":[1,2]}"#;
    let result = replace_json_value(text, "a", &value("[1, 2]"), &value("[3]")).unwrap();
    assert_eq!(result, "{\"a\":[\n  3\n]}");
}

#[test]
fn replacing_what_is_not_found_changes_nothing() {
    let text = r#"{"a":  1, "b": [ 1 ]}"#;
    assert_eq!(replace_json_value(text, "a", &Value::from(1), &Value::from(2)).unwrap(), text);
    assert_eq!(replace_json_value(text, "b", &value("[1]"), &value("[2]")).unwrap(), text);
}

#[test]
fn replacing_counts_characters_not_bytes() {
    let text = "{\"é\": \"漢\", \"a\": \"字\"} // 🦀";
    let result = replace_json_value(text, "a", &Value::from("字"), &Value::from("é")).unwrap();
    assert_eq!(result, "{\"é\": \"漢\", \"a\": \"é\"} // 🦀");
}

#[test]
fn merging_replaces_changed_members_in_the_order_of_their_names() {
    let text = r#"{"b": 1, "a": 1, "c": 3}"#;
    let old = value(text);
    let new = value(r#"{"a": 10, "b": 20, "c": 3}"#);
    let result =
        merge_json_objects(text, old.as_object().unwrap(), new.as_object().unwrap()).unwrap();
    assert_eq!(result, r#"{"b": 20, "a": 10, "c": 3}"#);
}

#[test]
fn merging_goes_by_the_order_of_names() {
    // The replacement for `a` writes what `b` is looked for as.
    let text = r#"{"a":1,"b":1}"#;
    let old = value(text);
    let new = value(r#"{"a": {"b": 1}, "b": 2}"#);
    let result =
        merge_json_objects(text, old.as_object().unwrap(), new.as_object().unwrap()).unwrap();
    assert_eq!(result, "{\"a\":{\n  \"b\": 1\n},\"b\":2}");
}

#[test]
fn merging_other_names_writes_anew() {
    let text = "{\"a\": 1} // gone";
    let old = value("{\"a\": 1}");
    let new = value(r#"{"b": "x/y", "a": 1}"#);
    let result =
        merge_json_objects(text, old.as_object().unwrap(), new.as_object().unwrap()).unwrap();
    assert_eq!(result, "{\n  \"a\": 1,\n  \"b\": \"x/y\"\n}");
    let fewer = value("{}");
    let result =
        merge_json_objects(text, old.as_object().unwrap(), fewer.as_object().unwrap()).unwrap();
    assert_eq!(result, "{}");
}

#[test]
fn merging_other_shapes_writes_anew() {
    let result = smart_json_merge("[1] // a", &value("[1]"), &value("[2]")).unwrap();
    assert_eq!(result, "[\n  2\n]");
    let result = smart_json_merge("{}", &value("{}"), &value("null")).unwrap();
    assert_eq!(result, "null");
    let result = smart_json_merge("1", &value("1"), &value("{}")).unwrap();
    assert_eq!(result, "{}");
}

#[test]
fn equal_documents_keep_the_text_whatever_it_is() {
    let result = smart_json_merge("not JSON", &value("[1, 2.5]"), &value("[1,2.5]")).unwrap();
    assert_eq!(result, "not JSON");
}

#[test]
fn zeros_of_both_signs_are_equal() {
    assert_eq!(preserve_comments_in_json("[0.0] // a", &value("[-0.0]")).unwrap(), "[0.0] // a");
    assert_eq!(preserve_comments_in_json("[0] // a", &value("[0.0]")).unwrap(), "[\n  0.0\n]");
}

#[test]
fn several_changes_keep_the_comments() {
    let original = "{\n  // first\n  \"a\": 1, // second\n  \"b\": \"x\" /* third */\n}";
    let new = value(r#"{"a": 2, "b": "y"}"#);
    let result = preserve_comments_in_json(original, &new).unwrap();
    assert_eq!(result, "{\n  // first\n  \"a\": 2, // second\n  \"b\": \"y\" /* third */\n}");
}

#[test]
fn unreadable_original_is_an_error() {
    let result = preserve_comments_in_json("{ \"a\": }", &value("{}"));
    match result {
        Err(AppError::Config(message)) => {
            assert_eq!(message, "Failed to parse original: expected value at line 1 column 8")
        }
        _ => panic!("expected an error"),
    }
}

#[test]
fn original_that_is_not_jsonc_is_an_error() {
    // The open comment is dropped when stripping, and refused when parsing.
    let result = preserve_comments_in_json("{} /* open", &value("{\"a\": 1}"));
    match result {
        Err(AppError::Config(message)) => {
            assert!(message.starts_with("JSONC parse error: ParseError("));
            assert!(message.contains("UnterminatedCommentBlock"));
        }
        _ => panic!("expected an error"),
    }
}

#[test]
fn original_with_an_open_comment_is_kept_when_nothing_changes() {
    let result = preserve_comments_in_json("{} /* open", &value("{}")).unwrap();
    assert_eq!(result, "{} /* open");
}

#[test]
fn member_text_is_replaced() {
    assert_eq!(replace_member_text("{\"a\":1,\"a\":1}", "a", "1", "[2]"), "{\"a\":[2],\"a\":1}");
    assert_eq!(replace_member_text("{\"a\": 1}", "a", "1", "2"), "{\"a\": 2}");
    assert_eq!(replace_member_text("{\"a\"  :1}", "a", "1", "2"), "{\"a\"  :1}");
}

#[test]
fn integers_are_written_in_decimal() {
    for (number, text) in [
        (Value::from(0), "0"),
        (Value::from(-9223372036854775808_i64), "-9223372036854775808"),
        (Value::from(18446744073709551615_u64), "18446744073709551615"),
    ] {
        let replaced =
            replace_json_value("{\"a\":7}", "a", &Value::from(7), &number).unwrap();
        assert_eq!(replaced, format!("{{\"a\":{text}}}"));
        let back = replace_json_value(&replaced, "a", &number, &Value::from(7)).unwrap();
        assert_eq!(back, "{\"a\":7}");
    }
}

#[test]
fn replacing_back_restores_the_text() {
    for text in ["{ /* c */ \"n\": 42, \"m\":42 } // d", "{\"n\":42}", "{\"n\"  :42}"] {
        let there = replace_json_value(text, "n", &Value::from(42), &Value::from(-7)).unwrap();
        let back = replace_json_value(&there, "n", &Value::from(-7), &Value::from(42)).unwrap();
        assert_eq!(back, text);
    }
}

#[test]
fn value_changed_in_place_is_read_back() {
    let original = "{ // k: 1\n \"s\": \"//\", /* x */ \"k\": 1 /* y */, \"f\": 0.5 } // z";
    for new_value in [Value::from("a // b"), Value::from(true), value("[1, {\"/*\": null}]")] {
        let mut cache: Option<String> = None;
        let mut config = read_opencode_config(Some(original), &mut cache).unwrap();
        config["k"] = new_value;
        let changed = preserve_comments_in_json(original, &config).unwrap();
        assert!(changed.starts_with("{ // k: 1\n \"s\": \"//\", /* x */ \"k\": "));
        assert!(changed.ends_with(" /* y */, \"f\": 0.5 } // z"));
        assert_eq!(read_opencode_config(Some(&changed), &mut cache).unwrap(), config);
    }
}

#[test]
fn numbers_parted_by_a_comment_are_read_in_two_ways() {
    let original = "{\"a\": [1/**/2]}";
    let result = preserve_comments_in_json(original, &value("{\"a\": [1, 2]}")).unwrap();
    assert_eq!(result, original);
    let result = preserve_comments_in_json(original, &value("{\"a\": [12]}")).unwrap();
    assert_eq!(result, original);
}

#[test]
fn a_member_in_a_comment_is_replaced_in_place_of_the_real_one() {
    let original = "{ // \"k\":1\n \"k\": 1 }";
    let changed = preserve_comments_in_json(original, &value("{\"k\": 2}")).unwrap();
    assert_eq!(changed, "{ // \"k\":2\n \"k\": 1 }");
}

#[test]
fn several_values_changed_in_place_are_read_back() {
    let original = "{ // x\n \"a\":1, /* y */ \"b\": \"u\", \"c\": [1,2] }";
    let mut cache: Option<String> = None;
    let config = value(r#"{"a": -5, "b": "// v", "c": [1, 2]}"#);
    let changed = preserve_comments_in_json(original, &config).unwrap();
    assert_eq!(changed, "{ // x\n \"a\":-5, /* y */ \"b\": \"// v\", \"c\": [1,2] }");
    assert_eq!(read_opencode_config(Some(&changed), &mut cache).unwrap(), config);
}

#[test]
fn a_member_that_is_named_again_is_read_from_the_later_place() {
    let original = "{\"k\":1, \"k\" : 1}";
    let changed = preserve_comments_in_json(original, &value("{\"k\": 2}")).unwrap();
    assert_eq!(changed, "{\"k\":2, \"k\" : 1}");
}

#[test]
fn a_value_that_begins_like_the_old_one_is_cut() {
    let original = "{\"x\": {\"k\":12}, \"k\" : 1}";
    let changed =
        preserve_comments_in_json(original, &value("{\"x\": {\"k\": 12}, \"k\": 3}")).unwrap();
    assert_eq!(changed, "{\"x\": {\"k\":32}, \"k\" : 1}");
}
