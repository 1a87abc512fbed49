use config_parser::json::{JsonError, JsonValue};
use config_parser::Config;

#[test]
fn config_reads_and_writes_paths() {
    let mut c = Config::from_text("{\"username\": \"root\", \"net\": {\"retries\": 80}}").unwrap();
    assert_eq!(c.get("username"), Ok(JsonValue::String("root".to_string())));
    assert_eq!(c.get("net.retries"), Ok(JsonValue::Number(80)));
    c.set("net.retries", JsonValue::Number(8080)).unwrap();
    assert_eq!(c.get("net.retries"), Ok(JsonValue::Number(8080)));
    assert_eq!(c.to_string(), "{\"username\": \"root\", \"net\": {\"retries\": 8080}}");
}

#[test]
fn config_errors() {
    assert_eq!(Config::from_text("{\"a\": 1, \"a\": 2}").err(), Some(JsonError::DuplicateKey));
    let mut c = Config::from_text("{}").unwrap();
    assert_eq!(c.set(" ", JsonValue::Null), Err(JsonError::EmptyPath));
    assert_eq!(c.get("x"), Err(JsonError::PathNotFound));
}
