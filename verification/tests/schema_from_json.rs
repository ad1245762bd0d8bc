use jsonb_schema::schema::{from_serde_json, InstanceType, Schema, SingleOrVec};
use jsonb_schema::{Number, Value};

fn json_value(text: &str) -> Value {
    let v: serde_json::Value = serde_json::from_str(text).unwrap();
    convert(&v)
}

fn convert(v: &serde_json::Value) -> Value {
    match v {
        serde_json::Value::Null => Value::Null,
        serde_json::Value::Bool(b) => Value::Bool(*b),
        serde_json::Value::Number(n) => {
            if let Some(i) = n.as_i64() {
                Value::Number(Number::Int64(i))
            } else if let Some(u) = n.as_u64() {
                Value::Number(Number::UInt64(u))
            } else {
                Value::Number(Number::Float64Bits(n.as_f64().unwrap().to_bits()))
            }
        }
        serde_json::Value::String(s) => Value::String(s.clone()),
        serde_json::Value::Array(a) => Value::Array(a.iter().map(convert).collect()),
        serde_json::Value::Object(m) => {
            Value::Object(m.iter().map(|(k, v)| (k.clone(), convert(v))).collect())
        }
    }
}

fn error_text(text: &str) -> String {
    from_serde_json(&json_value(text)).unwrap_err().message()
}

#[test]
fn test_from_json_basic() {
    let schema = from_serde_json(&json_value(r#"{"type": "string"}"#)).unwrap();
    assert_eq!(schema.instance_type, Some(SingleOrVec::Single(InstanceType::String)));
}

#[test]
fn test_from_json_boolean() {
    let true_schema = from_serde_json(&Value::Bool(true)).unwrap();
    assert_eq!(true_schema, Schema::default());
    let false_schema = from_serde_json(&Value::Bool(false)).unwrap();
    assert!(false_schema.enum_values.is_some());
    assert!(false_schema.enum_values.as_ref().unwrap().is_empty());
}

#[test]
fn test_from_json_nested() {
    let schema = from_serde_json(&json_value(
        r#"{"type": "object", "properties": {"foo": {"type": "integer"}}, "required": ["foo"]}"#,
    ))
    .unwrap();
    match schema.instance_type {
        Some(SingleOrVec::Single(InstanceType::Object)) => {}
        _ => panic!("Expected object type"),
    }
    let props = schema.properties.unwrap();
    let foo = props.iter().find(|(k, _)| k == "foo").map(|(_, s)| s);
    assert!(foo.is_some());
    assert_eq!(foo.unwrap().instance_type, Some(SingleOrVec::Single(InstanceType::Integer)));
    let req = schema.required.unwrap();
    assert!(req.contains(&"foo".to_string()));
}

#[test]
fn test_from_json_arrays() {
    let schema = from_serde_json(&json_value(
        r#"{"type": "array", "prefixItems": [{"type": "string"}], "items": {"type": "integer"}}"#,
    ))
    .unwrap();
    assert!(schema.prefix_items.is_some());
    assert_eq!(schema.prefix_items.as_ref().unwrap().len(), 1);
    assert!(schema.items.is_some());
    assert_eq!(
        schema.items.as_ref().unwrap().instance_type,
        Some(SingleOrVec::Single(InstanceType::Integer))
    );
}

#[test]
fn test_from_json_numeric_constraints() {
    let schema = from_serde_json(&json_value(
        r#"{"type": "integer", "minimum": 10, "maximum": 100, "multipleOf": 5}"#,
    ))
    .unwrap();
    assert_eq!(schema.minimum, Some(10));
    assert_eq!(schema.maximum, Some(100));
    assert_eq!(schema.multiple_of, Some(5));
}

#[test]
fn test_from_json_numeric_float_error() {
    let result = from_serde_json(&json_value(r#"{"type": "integer", "minimum": 10.5}"#));
    assert!(result.is_err());
}

#[test]
fn test_format_date() {
    let schema = from_serde_json(&json_value(r#"{"type": "string", "format": "date"}"#)).unwrap();
    assert_eq!(schema.format, Some("date".to_string()));
}

#[test]
fn test_invalid_format_type() {
    let result = from_serde_json(&json_value(r#"{"type": "string", "format": 123}"#));
    assert!(result.is_err());
    assert_eq!(result.unwrap_err().message(), "format must be a string");
}

#[test]
fn test_from_json_ignored_keywords() {
    let schema = from_serde_json(&json_value(
        r#"{"type": "string", "title": "A string", "description": "Just a string", "examples": ["example1", "example2"]}"#,
    ))
    .expect("Should not fail on ignored keywords");
    assert_eq!(schema.instance_type, Some(SingleOrVec::Single(InstanceType::String)));
}

#[test]
fn test_from_json_still_errors_on_unknown() {
    let result = from_serde_json(&json_value(r#"{"type": "string", "unknownKeyword": "should fail"}"#));
    assert!(result.is_err());
    assert_eq!(result.unwrap_err().message(), "Unsupported keyword: unknownKeyword");
}

#[test]
fn test_valid_dollar_schema() {
    let result = from_serde_json(&json_value(
        r#"{"$schema": "https://json-schema.org/draft/2020-12/schema", "type": "string"}"#,
    ));
    assert!(result.is_ok());
}

#[test]
fn test_invalid_dollar_schema_value() {
    let result = from_serde_json(&json_value(
        r#"{"$schema": "http://json-schema.org/draft-07/schema", "type": "string"}"#,
    ));
    assert!(result.is_err());
    assert_eq!(
        result.unwrap_err().message(),
        "Unsupported $schema: http://json-schema.org/draft-07/schema"
    );
}

#[test]
fn test_invalid_dollar_schema_type() {
    let result = from_serde_json(&json_value(r#"{"$schema": 123, "type": "string"}"#));
    assert!(result.is_err());
    assert_eq!(result.unwrap_err().message(), "$schema must be a string");
}

#[test]
fn type_list_and_unknown_type() {
    let schema = from_serde_json(&json_value(r#"{"type": ["string", "integer", "null"]}"#)).unwrap();
    match schema.instance_type {
        Some(SingleOrVec::Vec(types)) => {
            assert_eq!(types, vec![InstanceType::String, InstanceType::Integer, InstanceType::Null]);
        }
        _ => panic!("Expected Vec"),
    }
    assert_eq!(error_text(r#"{"type": "text"}"#), "Unknown type: text");
    assert_eq!(error_text(r#"{"type": [1]}"#), "type array must contain strings");
    assert_eq!(error_text(r#"{"type": 1}"#), "type must be a string or array of strings");
}

#[test]
fn keyword_value_errors() {
    assert_eq!(error_text("3"), "Schema must be an object or boolean");
    assert_eq!(error_text(r#"{"pattern": 1}"#), "pattern must be a string");
    assert_eq!(error_text(r#"{"properties": []}"#), "properties must be an object");
    assert_eq!(error_text(r#"{"required": {}}"#), "required must be an array");
    assert_eq!(error_text(r#"{"required": [1]}"#), "required items must be strings");
    assert_eq!(error_text(r#"{"minimum": "1"}"#), "minimum must be a number");
    assert_eq!(error_text(r#"{"minItems": -1}"#), "minItems must be a non-negative integer");
    assert_eq!(error_text(r#"{"maxLength": "x"}"#), "maxLength must be a number");
    assert_eq!(error_text(r#"{"prefixItems": {}}"#), "prefixItems must be an array");
    assert_eq!(error_text(r#"{"enum": 1}"#), "enum must be an array");
    assert_eq!(error_text(r#"{"items": {"type": "nope"}}"#), "Unknown type: nope");
}

#[test]
fn required_names_sorted_once() {
    let schema = from_serde_json(&json_value(r#"{"required": ["b", "a", "b"]}"#)).unwrap();
    assert_eq!(schema.required, Some(vec!["a".to_string(), "b".to_string()]));
}

#[test]
fn pattern_escapes_and_anchors() {
    let schema = from_serde_json(&json_value(r#"{"pattern": "^a\\.b[0-9]+x\\$$"}"#)).unwrap();
    assert_eq!(schema.pattern_prefix, Some("a.b".to_string()));
    assert_eq!(schema.pattern_suffix, Some("x$".to_string()));
    let schema = from_serde_json(&json_value(r#"{"pattern": "^(abc)$"}"#)).unwrap();
    assert_eq!(schema.pattern_prefix, None);
    assert_eq!(schema.pattern_suffix, None);
}

#[test]
fn enum_and_const_keep_values() {
    let schema = from_serde_json(&json_value(r#"{"enum": [1, "a"], "const": {"k": [true]}}"#)).unwrap();
    assert_eq!(
        schema.enum_values,
        Some(vec![Value::Number(Number::Int64(1)), Value::String("a".to_string())])
    );
    assert_eq!(
        schema.const_value,
        Some(Value::Object(vec![("k".to_string(), Value::Array(vec![Value::Bool(true)]))]))
    );
}

#[test]
fn whole_float_bounds_are_accepted() {
    let schema = from_serde_json(&json_value(
        r#"{"type": "integer", "minimum": 10.0, "maximum": -2.0, "multipleOf": 4096.0}"#,
    ))
    .unwrap();
    assert_eq!(schema.minimum, Some(10));
    assert_eq!(schema.maximum, Some(-2));
    assert_eq!(schema.multiple_of, Some(4096));
}

#[test]
fn huge_float_bounds_saturate() {
    let schema =
        from_serde_json(&json_value(r#"{"minimum": 1e40, "maximum": -1e40}"#)).unwrap();
    assert_eq!(schema.minimum, Some(i128::MAX));
    assert_eq!(schema.maximum, Some(i128::MIN));
    let schema = from_serde_json(&json_value(r#"{"minimum": 1e20}"#)).unwrap();
    assert_eq!(schema.minimum, Some(100_000_000_000_000_000_000));
}

#[test]
fn small_fraction_bound_is_rejected() {
    let result = from_serde_json(&json_value(r#"{"minimum": 0.25}"#));
    assert_eq!(
        result.unwrap_err().message(),
        "minimum must be an integer".to_string()
    );
}

#[test]
fn properties_and_required_come_out_once_in_name_order() {
    let schema = from_serde_json(&json_value(
        r#"{"type": "object",
            "properties": {"b": {"type": "string"}, "a": {"type": "integer"}},
            "required": ["b", "a", "b"],
            "items": {"required": ["z", "y"]}}"#,
    ))
    .unwrap();
    let names: Vec<String> = schema
        .properties
        .as_ref()
        .unwrap()
        .iter()
        .map(|(k, _)| k.clone())
        .collect();
    assert_eq!(names, vec!["a".to_string(), "b".to_string()]);
    assert_eq!(schema.required, Some(vec!["a".to_string(), "b".to_string()]));
    assert_eq!(
        schema.items.as_ref().unwrap().required,
        Some(vec!["y".to_string(), "z".to_string()])
    );
}
