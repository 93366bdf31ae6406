//! Plugins.

use opencode_config::add_plugin;
use opencode_config::plugins::put_plugin;
use opencode_config::plugins::take_plugins;
use opencode_config::read_opencode_config;
use opencode_config::remove_plugin_by_prefix;
use opencode_config::AppError;
use serde_json::Value;

fn value(text: &str) -> Value {
    serde_json::from_str(text).unwrap()
}

fn with(text: &str, plugin: &str) -> Value {
    let mut config = value(text);
    put_plugin(&mut config, plugin);
    config
}

fn without(text: &str, prefix: &str) -> Value {
    let mut config = value(text);
    take_plugins(&mut config, prefix);
    config
}

#[test]
fn first_plugin_makes_the_list() {
    let mut cache: Option<String> = None;
    let text = add_plugin(None, &mut cache, "a").unwrap().unwrap();
    assert_eq!(
        text,
        "{\n  \"$schema\": \"https://opencode.ai/config.json\",\n  \"plugin\": [\n    \"a\"\n  ]\n}"
    );
    assert_eq!(with("null", "a"), value(r#"{"plugin": ["a"]}"#));
    assert_eq!(with(r#"{"plugin": "x", "y": 1}"#, "a"), value(r#"{"plugin": ["a"], "y": 1}"#));
}

#[test]
fn plugin_goes_behind_the_others() {
    assert_eq!(with(r#"{"plugin": ["b", 1]}"#, "a"), value(r#"{"plugin": ["b", 1, "a"]}"#));
    assert_eq!(with(r#"{"plugin": []}"#, "a"), value(r#"{"plugin": ["a"]}"#));
}

#[test]
fn plugin_is_added_once() {
    assert_eq!(with(r#"{"plugin": ["a", "b"]}"#, "a"), value(r#"{"plugin": ["a", "b"]}"#));
    let mut config = value("{}");
    put_plugin(&mut config, "a");
    put_plugin(&mut config, "a");
    assert_eq!(config, value(r#"{"plugin": ["a"]}"#));
}

#[test]
fn adding_standard_removes_slim() {
    assert_eq!(
        with(
            r#"{"plugin": ["oh-my-opencode-slim", "x", "oh-my-opencode-slim@1", null]}"#,
            "oh-my-opencode@latest"
        ),
        value(r#"{"plugin": ["x", null, "oh-my-opencode@latest"]}"#)
    );
}

#[test]
fn adding_slim_removes_standard() {
    assert_eq!(
        with(
            r#"{"plugin": ["oh-my-opencode", "x", "oh-my-opencode-slim@1", "oh-my-opencode@2"]}"#,
            "oh-my-opencode-slim"
        ),
        value(r#"{"plugin": ["x", "oh-my-opencode-slim@1", "oh-my-opencode-slim"]}"#)
    );
}

#[test]
fn adding_another_keeps_both() {
    assert_eq!(
        with(r#"{"plugin": ["oh-my-opencode", "oh-my-opencode-slim"]}"#, "x"),
        value(r#"{"plugin": ["oh-my-opencode", "oh-my-opencode-slim", "x"]}"#)
    );
}

#[test]
fn removing_by_prefix_keeps_variants_with_a_dash() {
    assert_eq!(
        without(
            r#"{"plugin": ["oh-my-opencode", "oh-my-opencode@1", "oh-my-opencode-slim", "x", 2]}"#,
            "oh-my-opencode"
        ),
        value(r#"{"plugin": ["oh-my-opencode-slim", "x", 2]}"#)
    );
}

#[test]
fn empty_list_goes() {
    assert_eq!(without(r#"{"plugin": ["a", "ab"], "x": 1}"#, "a"), value(r#"{"x": 1}"#));
    assert_eq!(without(r#"{"plugin": []}"#, "a"), value("{}"));
}

#[test]
fn removing_where_there_is_no_list_changes_nothing() {
    assert_eq!(without(r#"{"plugin": "a"}"#, "a"), value(r#"{"plugin": "a"}"#));
    assert_eq!(without("[\"a\"]", "a"), value("[\"a\"]"));
    assert_eq!(without("{}", "a"), value("{}"));
}

#[test]
fn empty_prefix_keeps_what_begins_with_a_dash() {
    assert_eq!(without(r#"{"plugin": ["a", "-b", ""]}"#, ""), value(r#"{"plugin": ["-b"]}"#));
}

#[test]
fn wide_prefixes_are_cut_between_characters() {
    assert_eq!(
        without(r#"{"plugin": ["é", "é-1", "éa", "e"]}"#, "é"),
        value(r#"{"plugin": ["é-1", "e"]}"#)
    );
}

#[test]
fn removing_undoes_adding() {
    let mut config = value(r#"{"plugin": ["x"]}"#);
    put_plugin(&mut config, "y");
    take_plugins(&mut config, "y");
    assert_eq!(config, value(r#"{"plugin": ["x"]}"#));
    take_plugins(&mut config, "y");
    assert_eq!(config, value(r#"{"plugin": ["x"]}"#));
}

#[test]
fn plugin_is_added_in_place() {
    let mut cache: Option<String> = None;
    let text = "{\"plugin\":[\"a\"]} // kept";
    let written = add_plugin(Some(text), &mut cache, "b").unwrap().unwrap();
    assert_eq!(written, "{\"plugin\":[\n  \"a\",\n  \"b\"\n]} // kept");
    assert_eq!(cache, Some(text.to_string()));
}

#[test]
fn plugin_is_removed_in_place() {
    let mut cache: Option<String> = None;
    let text = "{\"plugin\":[\"a\",\"b\"]} // kept";
    let written = remove_plugin_by_prefix(Some(text), &mut cache, "a").unwrap();
    assert_eq!(written, "{\"plugin\":[\n  \"b\"\n]} // kept");
    let written = remove_plugin_by_prefix(Some("{\"plugin\":[\"a\"]} // x"), &mut cache, "a");
    assert_eq!(written.unwrap(), "{}");
}

#[test]
fn plugins_need_keys_and_a_readable_file() {
    let mut cache: Option<String> = None;
    assert!(matches!(add_plugin(Some("[]"), &mut cache, "a"), Ok(None)));
    assert!(matches!(add_plugin(Some("{"), &mut cache, "a"), Err(AppError::Json { .. })));
    assert!(matches!(
        remove_plugin_by_prefix(Some("{"), &mut cache, "a"),
        Err(AppError::Json { .. })
    ));
    assert_eq!(remove_plugin_by_prefix(Some("[]"), &mut cache, "a").unwrap(), "[]");
}

#[test]
fn what_changes_no_plugin_keeps_the_text() {
    let mut cache: Option<String> = None;
    let text = "{ \"plugin\" : [ \"a\", \"b\" ] } // kept";
    assert_eq!(add_plugin(Some(text), &mut cache, "a").unwrap().unwrap(), text);
    assert_eq!(remove_plugin_by_prefix(Some(text), &mut cache, "c").unwrap(), text);
}

#[test]
fn written_plugins_are_read_back() {
    let mut cache: Option<String> = None;
    let text = add_plugin(Some("{\"x\": 1}"), &mut cache, "a").unwrap().unwrap();
    let config = read_opencode_config(Some(&text), &mut cache).unwrap();
    assert_eq!(config, value(r#"{"x": 1, "plugin": ["a"]}"#));
    let text = remove_plugin_by_prefix(Some(&text), &mut cache, "a").unwrap();
    let config = read_opencode_config(Some(&text), &mut cache).unwrap();
    assert_eq!(config, value(r#"{"x": 1}"#));
}

#[test]
fn plugins_changed_in_place_are_read_back() {
    let mut cache: Option<String> = None;
    let text = "{\"plugin\":[\"a\",\"b\"]} // c";
    let written = add_plugin(Some(text), &mut cache, "d").unwrap().unwrap();
    let config = read_opencode_config(Some(&written), &mut cache).unwrap();
    assert_eq!(config, value(r#"{"plugin": ["a", "b", "d"]}"#));
    let written = remove_plugin_by_prefix(Some(text), &mut cache, "a").unwrap();
    let config = read_opencode_config(Some(&written), &mut cache).unwrap();
    assert_eq!(config, value(r#"{"plugin": ["b"]}"#));
}
