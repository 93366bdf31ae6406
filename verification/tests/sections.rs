//! Providers and MCP servers.

use opencode_config::get_mcp_servers;
use opencode_config::get_providers;
use opencode_config::get_typed_providers;
use opencode_config::remove_mcp_server;
use opencode_config::remove_provider;
use opencode_config::sections::put_entry;
use opencode_config::sections::take_entry;
use opencode_config::set_mcp_server;
use opencode_config::set_provider;
use opencode_config::set_typed_provider;
use opencode_config::AppError;
use serde_json::Value;

fn value(text: &str) -> Value {
    serde_json::from_str(text).unwrap()
}

#[test]
fn providers_are_read() {
    let mut cache: Option<String> = None;
    let text = r#"{ "provider": { "a": 1, "b": {} /* c */ } }"#;
    let providers = get_providers(Some(text), &mut cache).unwrap();
    assert_eq!(Value::Object(providers), value(r#"{"a": 1, "b": {}}"#));
    assert_eq!(cache, Some(text.to_string()));
}

#[test]
fn missing_or_odd_sections_have_no_entries() {
    let mut cache: Option<String> = None;
    for text in ["{}", "{\"provider\": [1]}", "{\"provider\": null}", "[]", "null"] {
        assert!(get_providers(Some(text), &mut cache).unwrap().is_empty());
        assert!(get_mcp_servers(Some(text), &mut cache).unwrap().is_empty());
    }
    assert!(get_providers(None, &mut cache).unwrap().is_empty());
}

#[test]
fn unreadable_files_are_errors() {
    let mut cache: Option<String> = None;
    let broken = Some("{");
    assert!(matches!(get_providers(broken, &mut cache), Err(AppError::Json { .. })));
    assert!(matches!(
        set_provider(broken, &mut cache, "a", Value::Null),
        Err(AppError::Json { .. })
    ));
    assert!(matches!(remove_provider(broken, &mut cache, "a"), Err(AppError::Json { .. })));
    assert!(matches!(get_mcp_servers(broken, &mut cache), Err(AppError::Json { .. })));
    assert!(matches!(
        set_mcp_server(broken, &mut cache, "a", Value::Null),
        Err(AppError::Json { .. })
    ));
    assert!(matches!(remove_mcp_server(broken, &mut cache, "a"), Err(AppError::Json { .. })));
}

#[test]
fn first_provider_of_a_new_file() {
    let mut cache: Option<String> = None;
    let text = set_provider(None, &mut cache, "a", value(r#"{"npm": "x"}"#)).unwrap().unwrap();
    assert_eq!(
        text,
        "{\n  \"$schema\": \"https://opencode.ai/config.json\",\n  \"provider\": {\n    \"a\": {\n      \"npm\": \"x\"\n    }\n  }\n}"
    );
    let providers = get_providers(Some(&text), &mut cache).unwrap();
    assert_eq!(Value::Object(providers), value(r#"{"a": {"npm": "x"}}"#));
}

#[test]
fn first_server_of_a_file_without_servers() {
    let mut cache: Option<String> = None;
    let text = set_mcp_server(Some("{\"x\": 1} // y"), &mut cache, "a", Value::from(2))
        .unwrap()
        .unwrap();
    assert_eq!(text, "{\n  \"mcp\": {\n    \"a\": 2\n  },\n  \"x\": 1\n}");
    let servers = get_mcp_servers(Some(&text), &mut cache).unwrap();
    assert_eq!(Value::Object(servers), value(r#"{"a": 2}"#));
    assert!(get_providers(Some(&text), &mut cache).unwrap().is_empty());
}

#[test]
fn provider_is_added_in_place() {
    let mut cache: Option<String> = None;
    let text = "{\"provider\":{\"a\":1}} // kept";
    let written = set_provider(Some(text), &mut cache, "b", Value::from(2)).unwrap().unwrap();
    assert_eq!(written, "{\"provider\":{\n  \"a\": 1,\n  \"b\": 2\n}} // kept");
}

#[test]
fn null_counts_as_an_empty_configuration() {
    let mut cache: Option<String> = None;
    let text = set_provider(Some("null"), &mut cache, "a", Value::from(1)).unwrap().unwrap();
    assert_eq!(text, "{\n  \"provider\": {\n    \"a\": 1\n  }\n}");
}

#[test]
fn nothing_can_be_set_where_there_are_no_keys() {
    for text in ["[]", "1", "\"a\"", "true"] {
        let mut cache: Option<String> = None;
        assert!(matches!(set_provider(Some(text), &mut cache, "a", Value::Null), Ok(None)));
        assert!(matches!(set_mcp_server(Some(text), &mut cache, "a", Value::Null), Ok(None)));
        assert_eq!(cache, Some(text.to_string()));
    }
}

#[test]
fn odd_section_is_left_alone() {
    let mut cache: Option<String> = None;
    let text = "{\"provider\": null} // a";
    assert_eq!(set_provider(Some(text), &mut cache, "a", Value::Null).unwrap().unwrap(), text);
    assert_eq!(remove_provider(Some(text), &mut cache, "a").unwrap(), text);
}

#[test]
fn removed_provider_is_gone() {
    let mut cache: Option<String> = None;
    let text = "{\"provider\":{\"a\":1,\"b\":2}} // kept";
    let written = remove_provider(Some(text), &mut cache, "a").unwrap();
    assert_eq!(written, "{\"provider\":{\n  \"b\": 2\n}} // kept");
    let providers = get_providers(Some(&written), &mut cache).unwrap();
    assert_eq!(Value::Object(providers), value(r#"{"b": 2}"#));
}

#[test]
fn removing_what_is_not_there_keeps_the_text() {
    let mut cache: Option<String> = None;
    let text = "{ \"provider\" : { \"a\" : 1.5 } , /* x */ \"mcp\":{} }";
    assert_eq!(remove_provider(Some(text), &mut cache, "b").unwrap(), text);
    assert_eq!(remove_mcp_server(Some(text), &mut cache, "a").unwrap(), text);
    assert_eq!(remove_provider(Some("[] // y"), &mut cache, "b").unwrap(), "[] // y");
}

#[test]
fn removed_server_is_gone() {
    let mut cache: Option<String> = None;
    let written = remove_mcp_server(Some("{\"mcp\":{\"a\":1}}"), &mut cache, "a").unwrap();
    assert_eq!(written, "{\"mcp\":{}}");
}

#[test]
fn missing_file_is_written_over_what_is_remembered() {
    let mut cache = Some("{\"$schema\": \"x\"} // y".to_string());
    let written = remove_provider(None, &mut cache, "a").unwrap();
    assert_eq!(written, "{\"$schema\": \"https://opencode.ai/config.json\"} // y");
}

#[test]
fn entries_are_put_and_taken() {
    let mut config = value(r#"{"x": 1, "mcp": {"a": 1}}"#);
    put_entry(&mut config, "provider", "a", Value::from(1));
    put_entry(&mut config, "provider", "b", Value::from(2));
    put_entry(&mut config, "provider", "a", Value::from(3));
    assert_eq!(config, value(r#"{"x": 1, "mcp": {"a": 1}, "provider": {"a": 3, "b": 2}}"#));
    take_entry(&mut config, "provider", "b");
    assert_eq!(config, value(r#"{"x": 1, "mcp": {"a": 1}, "provider": {"a": 3}}"#));
    take_entry(&mut config, "provider", "b");
    take_entry(&mut config, "other", "a");
    assert_eq!(config, value(r#"{"x": 1, "mcp": {"a": 1}, "provider": {"a": 3}}"#));
}

#[test]
fn typed_provider_is_set() {
    let mut cache: Option<String> = None;
    let text = set_typed_provider(None, &mut cache, "a", Ok(Value::from(1))).unwrap().unwrap();
    let providers = get_providers(Some(&text), &mut cache).unwrap();
    assert_eq!(Value::Object(providers), value(r#"{"a": 1}"#));
}

#[test]
fn typed_provider_that_cannot_be_serialized_is_an_error() {
    let mut cache: Option<String> = None;
    let failure = serde_json::from_str::<Value>("{").unwrap_err();
    let message = failure.to_string();
    match set_typed_provider(Some("{}"), &mut cache, "a", Err(failure)) {
        Err(AppError::JsonSerialize { source }) => assert_eq!(source.to_string(), message),
        _ => panic!("expected an error"),
    }
    assert_eq!(cache, None);
}

#[test]
fn typed_providers_are_the_accepted_ones() {
    let providers = value(r#"{"c": 3, "a": 1, "b": 2}"#);
    let map = providers.as_object().unwrap();
    let typed = get_typed_providers(map, &vec![true, false, true]);
    let entries: Vec<(String, Value)> = typed.into_iter().collect();
    assert_eq!(
        entries,
        vec![("a".to_string(), Value::from(1)), ("c".to_string(), Value::from(3))]
    );
    assert_eq!(get_typed_providers(map, &vec![true, true, true]).len(), 3);
    assert!(get_typed_providers(map, &vec![]).is_empty());
}

#[test]
fn setting_the_same_keeps_the_text() {
    let mut cache: Option<String> = None;
    let text = "{ \"provider\" : { \"a\" : [ 1 ] } } // kept";
    let written = set_provider(Some(text), &mut cache, "a", value("[1]")).unwrap().unwrap();
    assert_eq!(written, text);
}

#[test]
fn an_entry_of_a_section_in_another_layout_is_not_written() {
    let mut cache: Option<String> = None;
    let first = set_provider(None, &mut cache, "a", Value::from(1)).unwrap().unwrap();
    let second = set_provider(Some(&first), &mut cache, "b", Value::from(2)).unwrap().unwrap();
    assert_eq!(second, first);
}

#[test]
fn first_entry_is_read_beside_a_number_that_changes() {
    let mut cache: Option<String> = None;
    let text = "{\"n\": 31.245270191439438}";
    let entry = value("{\"a\": [1]}");
    let written = set_provider(Some(text), &mut cache, "x", entry.clone()).unwrap().unwrap();
    let providers = get_providers(Some(&written), &mut cache).unwrap();
    assert_eq!(providers.len(), 1);
    assert_eq!(providers["x"], entry);
}

#[test]
fn entries_changed_in_place_are_read_back() {
    let mut cache: Option<String> = None;
    let text = "{/* a */\"mcp\":{\"x\":1}} // b";
    let written = set_mcp_server(Some(text), &mut cache, "y", Value::from(2)).unwrap().unwrap();
    let servers = get_mcp_servers(Some(&written), &mut cache).unwrap();
    assert_eq!(Value::Object(servers), value(r#"{"x": 1, "y": 2}"#));
    let written = remove_mcp_server(Some(text), &mut cache, "x").unwrap();
    assert!(get_mcp_servers(Some(&written), &mut cache).unwrap().is_empty());
}
