//! Stripping comments.

use opencode_config::strip_jsonc_comments;
use serde_json::Value;

#[test]
fn test_strip_jsonc_comments_line_comments() {
    let input = r#"{
  // This is a line comment
  "key": "value" // inline comment
}"#;
    let result = strip_jsonc_comments(input);
    let parsed: Value = serde_json::from_str(&result).unwrap();
    assert_eq!(parsed["key"], "value");
}

#[test]
fn test_strip_jsonc_comments_block_comments() {
    let input = r#"{
  /* This is a
     block comment */
  "key": "value"
}"#;
    let result = strip_jsonc_comments(input);
    let parsed: Value = serde_json::from_str(&result).unwrap();
    assert_eq!(parsed["key"], "value");
}

#[test]
fn test_strip_jsonc_comments_preserve_strings() {
    let input = r#"{
  "url": "https://example.com//path", // comment
  "pattern": "/* not a comment */"
}"#;
    let result = strip_jsonc_comments(input);
    let parsed: Value = serde_json::from_str(&result).unwrap();
    assert_eq!(parsed["url"], "https://example.com//path");
    assert_eq!(parsed["pattern"], "/* not a comment */");
}

#[test]
fn test_strip_jsonc_comments_complex() {
    let input = r#"{
  // Header comment
  "provider": {
    "openai": { // OpenAI config
      "apiKey": "sk-test", /* API key */
      "model": "gpt-4"
    }
  },
  /* Footer comment */
  "$schema": "https://opencode.ai/config.json"
}"#;
    let result = strip_jsonc_comments(input);
    let parsed: Value = serde_json::from_str(&result).unwrap();
    assert!(parsed["provider"].is_object());
    assert_eq!(parsed["provider"]["openai"]["model"], "gpt-4");
}

#[test]
fn empty_text_stays_empty() {
    assert_eq!(strip_jsonc_comments(""), "");
}

#[test]
fn line_comment_keeps_its_line_feed() {
    assert_eq!(strip_jsonc_comments("a // b\nc"), "a \nc");
    assert_eq!(strip_jsonc_comments("a // b\r\nc"), "a \nc");
    assert_eq!(strip_jsonc_comments("a // b"), "a ");
    assert_eq!(strip_jsonc_comments("//"), "");
}

#[test]
fn block_comment_goes_with_its_end_mark() {
    assert_eq!(strip_jsonc_comments("a/* b */c"), "ac");
    assert_eq!(strip_jsonc_comments("a/***/c"), "ac");
    assert_eq!(strip_jsonc_comments("a/**/c"), "ac");
    assert_eq!(strip_jsonc_comments("a/* // */c"), "ac");
    assert_eq!(strip_jsonc_comments("/* a */ */"), " */");
}

#[test]
fn open_block_comment_takes_the_rest() {
    assert_eq!(strip_jsonc_comments("a/* b\nc"), "a");
    assert_eq!(strip_jsonc_comments("a/*/"), "a");
    assert_eq!(strip_jsonc_comments("a/*"), "a");
}

#[test]
fn lone_slashes_are_kept() {
    assert_eq!(strip_jsonc_comments("/"), "/");
    assert_eq!(strip_jsonc_comments("a / b"), "a / b");
    assert_eq!(strip_jsonc_comments("/ /"), "/ /");
    assert_eq!(strip_jsonc_comments("*/"), "*/");
}

#[test]
fn escapes_do_not_end_a_string() {
    assert_eq!(strip_jsonc_comments(r#""a\" // b" // c"#), r#""a\" // b" "#);
    assert_eq!(strip_jsonc_comments(r#""a\\" // b"#), r#""a\\" "#);
    assert_eq!(strip_jsonc_comments(r#""a\\\" /* b */""#), r#""a\\\" /* b */""#);
}

#[test]
fn open_string_is_kept_to_the_end() {
    assert_eq!(strip_jsonc_comments("\"a // b\n/* c */"), "\"a // b\n/* c */");
}

#[test]
fn quotes_in_comments_do_not_open_strings() {
    assert_eq!(strip_jsonc_comments("// \"a\n/* \" */b // c"), "\nb ");
}

#[test]
fn wide_characters_are_kept() {
    assert_eq!(strip_jsonc_comments("é // ü\n\"漢//字\" /* 🦀 */🦀"), "é \n\"漢//字\" 🦀");
}

#[test]
fn stripping_twice_is_stripping_once() {
    let texts = [
        "a // b\nc /* d */ e \"// f\" / g",
        "// a\n/ /* b */",
        "/* // */ \"/*\" // \"",
        "\"a",
    ];
    for text in texts {
        let once = strip_jsonc_comments(text);
        assert_eq!(strip_jsonc_comments(&once), once);
    }
}

#[test]
fn text_without_comments_is_unchanged() {
    let text = "{ \"a\": \"http://b\", \"c\": [1, 2] } / d";
    assert_eq!(strip_jsonc_comments(text), text);
}

#[test]
fn parts_are_stripped_one_by_one() {
    let a = "{ \"a//\": 1, // b\n /* c */ ";
    let b = "\"d\": 2 } // e";
    let whole = format!("{}{}", a, b);
    let parts = format!("{}{}", strip_jsonc_comments(a), strip_jsonc_comments(b));
    assert_eq!(strip_jsonc_comments(&whole), parts);
    assert_eq!(parts, "{ \"a//\": 1, \n  \"d\": 2 } ");
}
