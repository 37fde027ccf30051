use yan::{YANParser, YANValue};

#[test]
fn test_primitive_string() {
    let parser = YANParser::new();
    let result = parser.parse("name: Budi").unwrap();
    assert_eq!(result.get("name"), Some(&YANValue::String("Budi".to_string())));
}

#[test]
fn test_primitive_number() {
    let parser = YANParser::new();
    let result = parser.parse("age: 25").unwrap();
    assert_eq!(result.get("age"), Some(&YANValue::Int(25)));
}

#[test]
fn test_boolean() {
    let parser = YANParser::new();
    let result = parser.parse("active: yes").unwrap();
    assert_eq!(result.get("active"), Some(&YANValue::Bool(true)));
}

#[test]
fn test_null() {
    let parser = YANParser::new();
    let result = parser.parse("data: null").unwrap();
    assert_eq!(result.get("data"), Some(&YANValue::Null));
}

#[test]
fn test_array() {
    let parser = YANParser::new();
    let result = parser.parse("tags: a; b; c").unwrap();
    if let Some(YANValue::Array(arr)) = result.get("tags") {
        assert_eq!(arr.len(), 3);
    } else {
        panic!("Expected array");
    }
}

#[test]
fn test_inline_object() {
    let parser = YANParser::new();
    let result = parser.parse("cfg: {host: localhost; port: 80}").unwrap();
    if let Some(YANValue::Object(obj)) = result.get("cfg") {
        assert_eq!(obj.get("host"), Some(&YANValue::String("localhost".to_string())));
        assert_eq!(obj.get("port"), Some(&YANValue::Int(80)));
    } else {
        panic!("Expected object");
    }
}

#[test]
fn test_block_object() {
    let parser = YANParser::new();
    let result = parser.parse("person:\n  name: Budi\n  age: 25").unwrap();
    if let Some(YANValue::Object(obj)) = result.get("person") {
        assert_eq!(obj.get("name"), Some(&YANValue::String("Budi".to_string())));
        assert_eq!(obj.get("age"), Some(&YANValue::Int(25)));
    } else {
        panic!("Expected object");
    }
}

#[test]
fn test_comment() {
    let parser = YANParser::new();
    let result = parser.parse("# comment\nname: Budi").unwrap();
    assert_eq!(result.get("name"), Some(&YANValue::String("Budi".to_string())));
}

#[test]
fn test_type_hint() {
    let parser = YANParser::new();
    let result = parser.parse("n: @int 42").unwrap();
    assert_eq!(result.get("n"), Some(&YANValue::Int(42)));
}
