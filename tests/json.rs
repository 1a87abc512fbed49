use config_parser::json::{Json, JsonError, JsonValue};

fn text(s: &str) -> JsonValue {
    JsonValue::String(s.to_string())
}

#[test]
fn test_get_value() {
    let json_str = r#"{ "key1": { "key2": { "key3": "value" } } }"#;
    let json = Json::from_text(json_str).unwrap();
    assert_eq!(json.get("key1.key2.key3").unwrap(), JsonValue::String("value".to_string()));
}

#[test]
#[should_panic]
fn test_incorrect_structure() {
    let input = "{\"Hello\": {[\"asdf\", 2134}]}";
    let _json = JsonValue::parse(input).unwrap();
}

#[test]
#[should_panic]
fn test_duplicate_key() {
    let input = "{\"foo\": 1234, \"foo\": true}";
    let _json = Json::from_text(input).unwrap();
}

#[test]
fn test_leveled_structure() {
    let input = "{\"struct\": {\"hello\": [\"world\", 24]}, \"my_life\": \"be live\"}";
    let json = Json::from_text(input).unwrap();
    let inside_obj = vec![(
        "hello".to_string(),
        JsonValue::Array(vec![JsonValue::String("world".to_string()), JsonValue::Number(24)]),
    )];
    let expected = JsonValue::Object(vec![
        ("struct".to_string(), JsonValue::Object(inside_obj)),
        ("my_life".to_string(), JsonValue::String("be live".to_string())),
    ]);
    assert_eq!(json.root(), expected);
}

#[test]
fn test_all_simple_types() {
    let input = "{\"foo\": \"bar\", \"boo\": true, \"far\": 34, \"nil\": null}";
    let json = Json::from_text(input).unwrap();
    let expected = JsonValue::Object(vec![
        ("foo".to_string(), JsonValue::String("bar".to_string())),
        ("boo".to_string(), JsonValue::Bool(true)),
        ("far".to_string(), JsonValue::Number(34)),
        ("nil".to_string(), JsonValue::Null),
    ]);
    assert_eq!(json.root(), expected);
}

#[test]
fn one_array_test_with_all_simple_types() {
    let input = "{\"foo\": [\"asdf\", 1, null, true]}";
    let json = Json::from_text(input).unwrap();
    let expected = JsonValue::Object(vec![(
        "foo".to_string(),
        JsonValue::Array(vec![
            JsonValue::String("asdf".to_string()),
            JsonValue::Number(1),
            JsonValue::Null,
            JsonValue::Bool(true),
        ]),
    )]);
    assert_eq!(json.root(), expected);
}

#[test]
fn test_set_value() {
    let mut json = Json::from_text("{ \"key1\": { \"key2\": { \"key3\": \"value\" } } }").unwrap();
    json.set("key1.key2.key4", JsonValue::Number(42)).unwrap();
    assert_eq!(json.get("key1.key2.key4").unwrap(), JsonValue::Number(42));
    json.set("key1.key5", JsonValue::Bool(true)).unwrap();
    assert_eq!(json.get("key1.key5").unwrap(), JsonValue::Bool(true));
}

#[test]
fn test_set_simple_key() {
    let mut json = Json::from_text("{ \"key1\": \"value1\" }").unwrap();
    json.set("key1", JsonValue::Number(42)).unwrap();
    assert_eq!(json.get("key1").unwrap(), JsonValue::Number(42));
}

#[test]
fn test_set_new_key_in_existing_object() {
    let mut json = Json::from_text("{ \"key1\": { \"key2\": \"value2\" } }").unwrap();
    json.set("key1.key3", JsonValue::Bool(true)).unwrap();
    assert_eq!(json.get("key1.key3").unwrap(), JsonValue::Bool(true));
}

#[test]
fn test_set_deeply_nested_key() {
    let mut json = Json::from_text("{ \"key1\": { \"key2\": {} } }").unwrap();
    json.set("key1.key2.key3.key4", JsonValue::String("deep_value".to_string())).unwrap();
    assert_eq!(
        json.get("key1.key2.key3.key4").unwrap(),
        JsonValue::String("deep_value".to_string())
    );
}

#[test]
fn test_set_creates_intermediate_objects() {
    let mut json = Json::from_text("{}").unwrap();
    json.set("key1.key2.key3", JsonValue::Bool(false)).unwrap();
    assert_eq!(json.get("key1.key2.key3").unwrap(), JsonValue::Bool(false));
}

#[test]
fn test_set_overwrites_existing_value() {
    let mut json = Json::from_text("{ \"key1\": { \"key2\": \"old_value\" } }").unwrap();
    json.set("key1.key2", JsonValue::String("new_value".to_string())).unwrap();
    assert_eq!(json.get("key1.key2").unwrap(), JsonValue::String("new_value".to_string()));
}

#[test]
fn test_set_error_on_non_object_intermediate_key() {
    let mut json = Json::from_text("{ \"key1\": \"string_value\" }").unwrap();
    let result = json.set("key1.key2", JsonValue::Bool(true));
    assert!(result.is_err());
}

#[test]
fn test_set_creates_root_object_if_empty() {
    let mut json = Json::from_text("{}").unwrap();
    json.set("key1", JsonValue::Bool(true)).unwrap();
    assert_eq!(json.get("key1").unwrap(), JsonValue::Bool(true));
}

#[test]
fn test_set_handles_multiple_nested_keys() {
    let mut json = Json::from_text("{ \"key1\": { \"key2\": { \"key3\": \"value3\" } } }").unwrap();
    json.set("key1.key2.key4", JsonValue::String("new_value".to_string())).unwrap();
    assert_eq!(json.get("key1.key2.key4").unwrap(), JsonValue::String("new_value".to_string()));
    json.set("key1.key2.key5", JsonValue::Number(99)).unwrap();
    assert_eq!(json.get("key1.key2.key5").unwrap(), JsonValue::Number(99));
}

#[test]
fn test_set_replaces_entire_object() {
    let mut json = Json::from_text("{ \"key1\": { \"key2\": { \"key3\": \"value3\" } } }").unwrap();
    json.set(
        "key1.key2",
        JsonValue::Object(vec![("new_key".to_string(), JsonValue::Bool(true))]),
    )
    .unwrap();
    assert_eq!(json.get("key1.key2.new_key").unwrap(), JsonValue::Bool(true));
    assert!(json.get("key1.key2.key3").is_err());
}

#[test]
fn test_set_handles_empty_key() {
    let mut json = Json::from_text("{ \"key1\": { \"key2\": {} } }").unwrap();
    let result = json.set("", JsonValue::Bool(true));
    assert!(result.is_err());
}

#[test]
fn duplicate_key_is_reported_as_such() {
    let r = JsonValue::parse("{\"foo\": 1, \"foo\": 2}");
    assert_eq!(r, Err(JsonError::DuplicateKey));
    let nested = JsonValue::parse("[{\"a\": 1, \"a\": 1}]");
    assert_eq!(nested, Err(JsonError::DuplicateKey));
}

#[test]
fn nested_get_yields_string() {
    let json = Json::from_text("{\"key1\": {\"key2\": {\"key3\": \"value\"}}}").unwrap();
    assert_eq!(json.get("key1.key2.key3"), Ok(text("value")));
    let inner = JsonValue::Object(vec![("key3".to_string(), text("value"))]);
    assert_eq!(json.get("key1.key2"), Ok(inner));
}

#[test]
fn path_through_scalar_fails() {
    let json = Json::from_text("{\"key1\": \"x\"}").unwrap();
    assert_eq!(json.get("key1.key2"), Err(JsonError::PathTypeMismatch));
    let json = Json::from_text("{\"key1\": [1, 2]}").unwrap();
    assert_eq!(json.get("key1.0"), Err(JsonError::PathTypeMismatch));
}

#[test]
fn missing_key_is_not_found() {
    let json = Json::from_text("{\"key1\": {\"a\": 1}}").unwrap();
    assert_eq!(json.get("key1.b"), Err(JsonError::PathNotFound));
    assert_eq!(json.get("zzz"), Err(JsonError::PathNotFound));
}

#[test]
fn array_root_cannot_be_navigated() {
    let mut json = Json::from_text("[1, 2]").unwrap();
    assert_eq!(json.get("a"), Err(JsonError::PathTypeMismatch));
    assert_eq!(json.set("a", JsonValue::Null), Err(JsonError::PathTypeMismatch));
    assert_eq!(json.to_string(), "[1, 2]");
}

#[test]
fn auto_vivification_creates_objects() {
    let mut json = Json::from_text("{}").unwrap();
    assert_eq!(json.set("key1.key2.key3", JsonValue::Bool(false)), Ok(()));
    assert_eq!(json.get("key1.key2.key3"), Ok(JsonValue::Bool(false)));
    assert!(matches!(json.get("key1"), Ok(JsonValue::Object(_))));
    assert!(matches!(json.get("key1.key2"), Ok(JsonValue::Object(_))));
    assert_eq!(json.to_string(), "{\"key1\": {\"key2\": {\"key3\": false}}}");
}

#[test]
fn overwrite_discards_old_subtree() {
    let mut json = Json::from_text("{\"key1\": {\"key2\": \"old\"}}").unwrap();
    json.set("key1.key2", text("new")).unwrap();
    assert_eq!(json.get("key1.key2"), Ok(text("new")));
    let mut json = Json::from_text("{\"key1\": {\"key2\": {\"c\": 1, \"d\": [2]}}}").unwrap();
    json.set("key1.key2", text("new")).unwrap();
    assert_eq!(json.get("key1.key2"), Ok(text("new")));
    assert_eq!(json.get("key1.key2.c"), Err(JsonError::PathTypeMismatch));
    assert_eq!(json.to_string(), "{\"key1\": {\"key2\": \"new\"}}");
}

#[test]
fn empty_path_is_rejected() {
    let mut json = Json::from_text("{\"a\": 1}").unwrap();
    assert_eq!(json.set("", JsonValue::Bool(true)), Err(JsonError::EmptyPath));
    assert_eq!(json.set("   ", JsonValue::Null), Err(JsonError::EmptyPath));
    assert_eq!(json.set("", JsonValue::Object(vec![])), Err(JsonError::EmptyPath));
    assert_eq!(json.to_string(), "{\"a\": 1}");
}

#[test]
fn failed_set_leaves_document_alone() {
    let mut json = Json::from_text("{\"a\": {\"b\": 1}}").unwrap();
    assert_eq!(json.set("a.b.c", JsonValue::Null), Err(JsonError::PathTypeMismatch));
    assert_eq!(json.to_string(), "{\"a\": {\"b\": 1}}");
}

#[test]
fn set_trims_the_path() {
    let mut json = Json::from_text("{}").unwrap();
    json.set("  a.b  ", JsonValue::Number(5)).unwrap();
    assert_eq!(json.get("a.b"), Ok(JsonValue::Number(5)));
}

#[test]
fn array_order_is_preserved() {
    let v = JsonValue::parse("[\"a\", 1, null, true]").unwrap();
    assert_eq!(
        v,
        JsonValue::Array(vec![text("a"), JsonValue::Number(1), JsonValue::Null, JsonValue::Bool(true)])
    );
    assert_eq!(v.to_string(), "[\"a\", 1, null, true]");
}

#[test]
fn round_trip_of_rendered_text() {
    let v = JsonValue::parse("{ \"s\": {\"h\": [\"w\", -24, {}]}, \"t\" : TRUE }").unwrap();
    let once = v.to_string();
    assert_eq!(once, "{\"s\": {\"h\": [\"w\", -24, {}]}, \"t\": true}");
    let again = JsonValue::parse(&once).unwrap();
    assert_eq!(again.to_string(), once);
    assert_eq!(again, v);
}

#[test]
fn scalars_parse() {
    assert_eq!(JsonValue::parse("  42 "), Ok(JsonValue::Number(42)));
    assert_eq!(JsonValue::parse("-7"), Ok(JsonValue::Number(-7)));
    assert_eq!(JsonValue::parse("+7"), Ok(JsonValue::Number(7)));
    assert_eq!(JsonValue::parse("9223372036854775807"), Ok(JsonValue::Number(i64::MAX)));
    assert_eq!(JsonValue::parse("-9223372036854775808"), Ok(JsonValue::Number(i64::MIN)));
    assert_eq!(JsonValue::parse("True"), Ok(JsonValue::Bool(true)));
    assert_eq!(JsonValue::parse("fAlSe"), Ok(JsonValue::Bool(false)));
    assert_eq!(JsonValue::parse("null"), Ok(JsonValue::Null));
    assert_eq!(JsonValue::parse("\"a b\""), Ok(text("a b")));
    assert_eq!(JsonValue::parse("\"\""), Ok(text("")));
}

#[test]
fn malformed_inputs_fail() {
    assert_eq!(JsonValue::parse("9223372036854775808"), Err(JsonError::MalformedInput));
    assert_eq!(JsonValue::parse("1.5"), Err(JsonError::MalformedInput));
    assert_eq!(JsonValue::parse("1e3"), Err(JsonError::MalformedInput));
    assert_eq!(JsonValue::parse("NULL"), Err(JsonError::MalformedInput));
    assert_eq!(JsonValue::parse(""), Err(JsonError::MalformedInput));
    assert_eq!(JsonValue::parse("-"), Err(JsonError::MalformedInput));
    assert_eq!(JsonValue::parse("\"abc"), Err(JsonError::MalformedInput));
    assert_eq!(JsonValue::parse("{"), Err(JsonError::MalformedInput));
    assert_eq!(JsonValue::parse("{\"a\": [1}"), Err(JsonError::MalformedInput));
    assert_eq!(JsonValue::parse("[1, 2"), Err(JsonError::MalformedInput));
    assert_eq!(JsonValue::parse("[\"a]"), Err(JsonError::MalformedInput));
    assert_eq!(JsonValue::parse("{\"a\": 1, \"b\"}"), Err(JsonError::MalformedInput));
    assert!(Json::from_text("42").is_err());
    assert_eq!(Json::from_text("\"s\"").err(), Some(JsonError::MalformedInput));
}

#[test]
fn empty_containers() {
    assert_eq!(JsonValue::parse("{}"), Ok(JsonValue::Object(vec![])));
    assert_eq!(JsonValue::parse(" [] "), Ok(JsonValue::Array(vec![])));
    assert_eq!(JsonValue::Object(vec![]).to_string(), "{}");
    assert_eq!(JsonValue::Array(vec![]).to_string(), "[]");
}

#[test]
fn numbers_render_exactly() {
    assert_eq!(JsonValue::Number(0).to_string(), "0");
    assert_eq!(JsonValue::Number(-305).to_string(), "-305");
    assert_eq!(JsonValue::Number(i64::MIN).to_string(), "-9223372036854775808");
    assert_eq!(JsonValue::Number(i64::MAX).to_string(), "9223372036854775807");
    assert_eq!(JsonValue::Bool(false).to_string(), "false");
    assert_eq!(JsonValue::Null.to_string(), "null");
}

#[test]
fn strings_keep_their_characters() {
    let v = JsonValue::parse("[\"é ü, x\", \"日本\"]").unwrap();
    assert_eq!(v, JsonValue::Array(vec![text("é ü, x"), text("日本")]));
    assert_eq!(v.to_string(), "[\"é ü, x\", \"日本\"]");
}

#[test]
fn set_on_existing_key_keeps_one_entry() {
    let mut json = Json::from_text("{\"a\": 1, \"b\": {\"c\": 2}}").unwrap();
    json.set("a", JsonValue::Number(3)).unwrap();
    json.set("b.c", JsonValue::Null).unwrap();
    assert_eq!(json.to_string(), "{\"a\": 3, \"b\": {\"c\": null}}");
}

#[test]
fn get_of_empty_path_looks_up_empty_key() {
    let json = Json::from_text("{\"\": 1, \"a\": 2}").unwrap();
    assert_eq!(json.get(""), Ok(JsonValue::Number(1)));
    let json = Json::from_text("{\"a\": 2}").unwrap();
    assert_eq!(json.get(""), Err(JsonError::PathNotFound));
}

#[test]
fn clone_copies_the_tree() {
    let v = JsonValue::parse("{\"a\": [1, {\"b\": \"c\"}]}").unwrap();
    let w = v.clone();
    assert_eq!(v, w);
    assert_eq!(w.to_string(), "{\"a\": [1, {\"b\": \"c\"}]}");
}

#[test]
fn parse_chars_matches_parse() {
    let cs: Vec<char> = " [true, -3] ".chars().collect();
    assert_eq!(
        JsonValue::parse_chars(&cs),
        Ok(JsonValue::Array(vec![JsonValue::Bool(true), JsonValue::Number(-3)]))
    );
}

#[test]
fn trailing_empty_key_round_trips() {
    let v = JsonValue::parse("{\"b\": 2, \"\": 1, }").unwrap();
    let text = v.to_string();
    assert_eq!(text, "{\"b\": 2, \"\": 1}");
    assert_eq!(JsonValue::parse(&text), Ok(v));
    assert_eq!(
        JsonValue::parse("{\"\": 1}"),
        Ok(JsonValue::Object(vec![("".to_string(), JsonValue::Number(1))]))
    );
}

#[test]
fn colon_inside_a_string_is_kept() {
    let v = JsonValue::parse("{\"a\": \"x:y\", \"b\": \"be live\"}").unwrap();
    assert_eq!(
        v,
        JsonValue::Object(vec![
            ("a".to_string(), JsonValue::String("x:y".to_string())),
            ("b".to_string(), JsonValue::String("be live".to_string())),
        ])
    );
    assert_eq!(v.to_string(), "{\"a\": \"x:y\", \"b\": \"be live\"}");
    let k = JsonValue::parse("{\"a:b\": 1, \"w\": [\"a:b\"]}").unwrap();
    assert_eq!(
        k,
        JsonValue::Object(vec![
            ("a:b".to_string(), JsonValue::Number(1)),
            ("w".to_string(), JsonValue::Array(vec![JsonValue::String("a:b".to_string())])),
        ])
    );
}

#[test]
fn pending_entry_without_value_fails() {
    assert_eq!(JsonValue::parse("{\"a\": }"), Err(JsonError::MalformedInput));
    assert_eq!(JsonValue::parse("{\"a\"}"), Err(JsonError::MalformedInput));
}
