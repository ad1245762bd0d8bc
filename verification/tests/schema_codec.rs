use jsonb_schema::traverse::skip_typed_value;
use jsonb_schema::encoder::encodable;
use jsonb_schema::schema::{decode, encode, from_serde_json, InstanceType, Schema, SingleOrVec};
use jsonb_schema::{Decimal64, Number, Value};

/// A library value from JSON text; object members come out sorted by key.
fn json_value(text: &str) -> Value {
    let v: serde_json::Value = serde_json::from_str(text).unwrap();
    convert(&v)
}

fn convert(v: &serde_json::Value) -> Value {
    match v {
        serde_json::Value::Null => Value::Null,
        serde_json::Value::Bool(b) => Value::Bool(*b),
        serde_json::Value::Number(n) => {
            if let Some(i) = n.as_i64() {
                Value::Number(Number::Int64(i))
            } else if let Some(u) = n.as_u64() {
                Value::Number(Number::UInt64(u))
            } else {
                Value::Number(Number::Float64Bits(n.as_f64().unwrap().to_bits()))
            }
        }
        serde_json::Value::String(s) => Value::String(s.clone()),
        serde_json::Value::Array(a) => Value::Array(a.iter().map(convert).collect()),
        serde_json::Value::Object(m) => {
            Value::Object(m.iter().map(|(k, v)| (k.clone(), convert(v))).collect())
        }
    }
}

/// The number as a double, as a caller would read it.
fn as_f64(n: &Number) -> f64 {
    match n {
        Number::Int64(i) => *i as f64,
        Number::UInt64(u) => *u as f64,
        Number::Float64Bits(b) => f64::from_bits(*b),
        Number::Decimal64(d) => d.value as f64 / 10f64.powi(d.scale as i32),
        Number::Decimal128(d) => d.value as f64 / 10f64.powi(d.scale as i32),
    }
}

fn typed(t: InstanceType) -> Schema {
    Schema {
        instance_type: Some(SingleOrVec::Single(t)),
        ..Schema::default()
    }
}

fn roundtrip(value: &Value, schema: &Schema) -> Vec<u8> {
    let mut buf = Vec::new();
    encode(value, schema, &mut buf);
    let decoded = decode(&buf, schema);
    assert_eq!(&decoded, value);
    buf
}

#[test]
fn test_schema_encoding_decoding() {
    let schema = Schema {
        instance_type: Some(SingleOrVec::Single(InstanceType::Object)),
        properties: Some(vec![
            ("a".to_string(), typed(InstanceType::Integer)),
            ("b".to_string(), typed(InstanceType::String)),
        ]),
        required: Some(vec!["a".to_string(), "b".to_string()]),
        ..Schema::default()
    };
    let value = Value::Object(vec![
        ("a".to_string(), Value::Number(Number::Int64(10))),
        ("b".to_string(), Value::String("hello".to_string())),
    ]);
    let mut buf = Vec::new();
    encode(&value, &schema, &mut buf);
    let decoded = decode(&buf, &schema);
    assert_eq!(value, decoded);
}

#[test]
fn test_schema_encoding_extra_keys() {
    let schema = Schema {
        instance_type: Some(SingleOrVec::Single(InstanceType::Object)),
        properties: Some(vec![("a".to_string(), typed(InstanceType::Integer))]),
        required: Some(vec!["a".to_string()]),
        ..Schema::default()
    };
    let value = Value::Object(vec![
        ("a".to_string(), Value::Number(Number::Int64(10))),
        ("c".to_string(), Value::Bool(true)),
    ]);
    let mut buf = Vec::new();
    encode(&value, &schema, &mut buf);
    let decoded = decode(&buf, &schema);
    assert_eq!(value, decoded);
}

#[test]
fn test_delta_encoding_integers() {
    let min_val = 1000;
    let schema = Schema {
        instance_type: Some(SingleOrVec::Single(InstanceType::Integer)),
        minimum: Some(min_val),
        ..Schema::default()
    };
    let val = 1005;
    let value = Value::Number(Number::Int64(val));
    let mut buf = Vec::new();
    encode(&value, &schema, &mut buf);
    assert_eq!(buf.len(), 2);
    assert_eq!(buf[0], 0xFF);
    assert_eq!(buf[1], 0x05);
    let decoded = decode(&buf, &schema);
    if let Value::Number(n) = decoded {
        assert_eq!(n.as_i64(), Some(val));
    } else {
        panic!("Expected Number");
    }
}

#[test]
fn test_array_min_items_optimization() {
    let schema =
        from_serde_json(&json_value(r#"{"type": "array", "minItems": 3, "items": {"type": "string"}}"#))
            .unwrap();
    assert_eq!(schema.min_items, Some(3));
    let val = json_value(r#"["a", "b", "c", "d", "e"]"#);
    let mut buf = Vec::new();
    encode(&val, &schema, &mut buf);
    assert_eq!(buf[0], 0x02);
    let decoded = decode(&buf, &schema);
    assert_eq!(decoded, val);
}

#[test]
fn test_array_min_items_exact_length() {
    let schema =
        from_serde_json(&json_value(r#"{"type": "array", "minItems": 3, "items": {"type": "string"}}"#))
            .unwrap();
    let val = json_value(r#"["a", "b", "c"]"#);
    let mut buf = Vec::new();
    encode(&val, &schema, &mut buf);
    assert_eq!(buf[0], 0x00);
    let decoded = decode(&buf, &schema);
    assert_eq!(decoded, val);
}

#[test]
fn test_array_min_items_less_than_min() {
    let schema =
        from_serde_json(&json_value(r#"{"type": "array", "minItems": 5, "items": {"type": "string"}}"#))
            .unwrap();
    let val = json_value(r#"["a", "b", "c"]"#);
    let mut buf = Vec::new();
    encode(&val, &schema, &mut buf);
    assert_eq!(buf[0], 0x03);
}

#[test]
fn test_array_max_items_parsed() {
    let schema = from_serde_json(&json_value(r#"{"type": "array", "maxItems": 10}"#)).unwrap();
    assert_eq!(schema.max_items, Some(10));
}

#[test]
fn test_const_value() {
    let schema = from_serde_json(&json_value(r#"{"const": "constant_string"}"#)).unwrap();
    let val = Value::String("constant_string".to_string());
    let mut buf = Vec::new();
    encode(&val, &schema, &mut buf);
    assert!(buf.is_empty());
    let decoded = decode(&buf, &schema);
    assert_eq!(decoded, val);
}

#[test]
fn test_enum_values() {
    let schema = from_serde_json(&json_value(r#"{"enum": [1, "a", true]}"#)).unwrap();

    let val1 = Value::Number(Number::Int64(1));
    let mut buf = Vec::new();
    encode(&val1, &schema, &mut buf);
    assert_eq!(buf.len(), 1);
    assert_eq!(buf[0], 0x00);
    let decoded1 = decode(&buf, &schema);
    assert_eq!(decoded1, val1);

    let val2 = Value::String("a".to_string());
    buf.clear();
    encode(&val2, &schema, &mut buf);
    assert_eq!(buf.len(), 1);
    assert_eq!(buf[0], 0x01);
    let decoded2 = decode(&buf, &schema);
    assert_eq!(decoded2, val2);

    let val3 = Value::Bool(true);
    buf.clear();
    encode(&val3, &schema, &mut buf);
    assert_eq!(buf.len(), 1);
    assert_eq!(buf[0], 0x02);
    let decoded3 = decode(&buf, &schema);
    assert_eq!(decoded3, val3);
}

#[test]
fn test_multi_type_encoding_decoding() {
    let schema = Schema {
        instance_type: Some(SingleOrVec::Vec(vec![InstanceType::Integer, InstanceType::String])),
        minimum: Some(1000),
        ..Schema::default()
    };
    let val_int = Value::Number(Number::Int64(1005));
    let mut buf = Vec::new();
    encode(&val_int, &schema, &mut buf);
    let decoded_int = decode(&buf, &schema);
    assert_eq!(val_int, decoded_int);

    let val_str = Value::String("hello".to_string());
    buf.clear();
    encode(&val_str, &schema, &mut buf);
    let decoded_str = decode(&buf, &schema);
    assert_eq!(val_str, decoded_str);
}

#[test]
fn test_multiple_of_optimization() {
    let multiple = 3;
    let schema = Schema {
        instance_type: Some(SingleOrVec::Single(InstanceType::Integer)),
        multiple_of: Some(multiple),
        ..Schema::default()
    };
    let val = 9;
    let value = Value::Number(Number::Int64(val));
    let mut buf = Vec::new();
    encode(&value, &schema, &mut buf);
    assert_eq!(buf.len(), 2);
    assert_eq!(buf[0], 0xFF);
    assert_eq!(buf[1], 0x03);
    let decoded = decode(&buf, &schema);
    if let Value::Number(n) = decoded {
        assert_eq!(n.as_i64(), Some(val));
    } else {
        panic!("Expected Number");
    }
}

#[test]
fn test_multiple_of_with_aligned_minimum() {
    let schema = Schema {
        instance_type: Some(SingleOrVec::Single(InstanceType::Integer)),
        minimum: Some(10),
        multiple_of: Some(5),
        ..Schema::default()
    };
    let val = 20;
    let value = Value::Number(Number::Int64(val));
    let mut buf = Vec::new();
    encode(&value, &schema, &mut buf);
    assert_eq!(buf.len(), 2);
    assert_eq!(buf[0], 0xFF);
    assert_eq!(buf[1], 0x02);
    let decoded = decode(&buf, &schema);
    if let Value::Number(n) = decoded {
        assert_eq!(n.as_i64(), Some(val));
    } else {
        panic!("Expected Number");
    }
}

#[test]
fn test_multiple_of_with_unaligned_minimum() {
    let schema = Schema {
        instance_type: Some(SingleOrVec::Single(InstanceType::Integer)),
        minimum: Some(11),
        multiple_of: Some(5),
        ..Schema::default()
    };
    let val = 20;
    let value = Value::Number(Number::Int64(val));
    let mut buf = Vec::new();
    encode(&value, &schema, &mut buf);
    assert_eq!(buf.len(), 2);
    assert_eq!(buf[0], 0xFF);
    assert_eq!(buf[1], 0x04);
    let decoded = decode(&buf, &schema);
    if let Value::Number(n) = decoded {
        assert_eq!(n.as_i64(), Some(val));
    } else {
        panic!("Expected Number");
    }
}

#[test]
fn test_multiple_of_union() {
    let schema = Schema {
        instance_type: Some(SingleOrVec::Vec(vec![InstanceType::Integer, InstanceType::String])),
        multiple_of: Some(2),
        ..Schema::default()
    };
    let val = 8;
    let value = Value::Number(Number::Int64(val));
    let mut buf = Vec::new();
    encode(&value, &schema, &mut buf);
    assert_eq!(buf.len(), 3);
    assert_eq!(buf[0], 0x03);
    assert_eq!(buf[1], 0xFF);
    assert_eq!(buf[2], 0x04);
    let decoded = decode(&buf, &schema);
    if let Value::Number(n) = decoded {
        assert_eq!(n.as_i64(), Some(val));
    } else {
        panic!("Expected Number");
    }
}

#[test]
fn test_multiple_of_float() {
    let schema = Schema {
        instance_type: Some(SingleOrVec::Single(InstanceType::Number)),
        multiple_of: Some(2),
        ..Schema::default()
    };
    let val: f64 = 4.0;
    let value = Value::Number(Number::Float64Bits(val.to_bits()));
    let mut buf = Vec::new();
    encode(&value, &schema, &mut buf);
    // 4.0 / 2 = 2.0 (integer): TAG_OPTIMIZED_NUMBER then uvarint(2).
    assert_eq!(buf.len(), 2);
    assert_eq!(buf[0], 0xFF);
    assert_eq!(buf[1], 0x02);
    let decoded = decode(&buf, &schema);
    if let Value::Number(n) = decoded {
        assert_eq!(as_f64(&n), val);
    } else {
        panic!("Expected Number");
    }
}

#[test]
fn test_multiple_of_float_unoptimized() {
    let schema = Schema {
        instance_type: Some(SingleOrVec::Single(InstanceType::Number)),
        multiple_of: Some(2),
        ..Schema::default()
    };
    let val: f64 = 4.5;
    let value = Value::Number(Number::Float64Bits(val.to_bits()));
    let mut buf = Vec::new();
    encode(&value, &schema, &mut buf);
    assert!(buf.len() > 2);
    assert_ne!(buf[0], 0xFF);
    let decoded = decode(&buf, &schema);
    if let Value::Number(n) = decoded {
        assert_eq!(as_f64(&n), val);
    } else {
        panic!("Expected Number");
    }
}

#[test]
fn test_multiple_of_decimal() {
    let schema = Schema {
        instance_type: Some(SingleOrVec::Single(InstanceType::Number)),
        multiple_of: Some(2),
        ..Schema::default()
    };
    let val = Decimal64 { scale: 1, value: 40 };
    let value = Value::Number(Number::Decimal64(val));
    let mut buf = Vec::new();
    encode(&value, &schema, &mut buf);
    assert!(buf.len() > 1);
    let decoded = decode(&buf, &schema);
    if let Value::Number(n) = decoded {
        assert_eq!(as_f64(&n), 4.0);
    } else {
        panic!("Expected Number");
    }
}

#[test]
fn test_prefix_items_optimization() {
    let schema = Schema {
        instance_type: Some(SingleOrVec::Single(InstanceType::Array)),
        prefix_items: Some(vec![typed(InstanceType::Integer), typed(InstanceType::String)]),
        ..Schema::default()
    };
    let value = Value::Array(vec![
        Value::Number(Number::Int64(10)),
        Value::String("hello".to_string()),
        Value::Bool(true),
    ]);
    let mut buf = Vec::new();
    encode(&value, &schema, &mut buf);
    assert_eq!(buf.len(), 11);
    let decoded = decode(&buf, &schema);
    assert_eq!(value, decoded);
}

#[test]
fn test_items_optimization() {
    let schema = Schema {
        instance_type: Some(SingleOrVec::Single(InstanceType::Array)),
        items: Some(Box::new(typed(InstanceType::Integer))),
        ..Schema::default()
    };
    let value = Value::Array(vec![Value::Number(Number::Int64(10)), Value::Number(Number::Int64(20))]);
    let mut buf = Vec::new();
    encode(&value, &schema, &mut buf);
    assert_eq!(buf.len(), 7);
    let decoded = decode(&buf, &schema);
    assert_eq!(value, decoded);
}

#[test]
fn test_prefix_items_and_items_optimization() {
    let schema = Schema {
        instance_type: Some(SingleOrVec::Single(InstanceType::Array)),
        prefix_items: Some(vec![typed(InstanceType::String)]),
        items: Some(Box::new(typed(InstanceType::Integer))),
        ..Schema::default()
    };
    let value = Value::Array(vec![
        Value::String("start".to_string()),
        Value::Number(Number::Int64(10)),
        Value::Number(Number::Int64(20)),
    ]);
    let mut buf = Vec::new();
    encode(&value, &schema, &mut buf);
    assert_eq!(buf.len(), 13);
    let decoded = decode(&buf, &schema);
    assert_eq!(value, decoded);
}

#[test]
fn test_string_min_length_optimization() {
    let schema = from_serde_json(&json_value(r#"{"type": "string", "minLength": 5}"#)).unwrap();
    assert_eq!(schema.min_length, Some(5));
    let val = Value::String("hello world".to_string());
    let mut buf = Vec::new();
    encode(&val, &schema, &mut buf);
    assert_eq!(buf[0], 0x06);
    let s = std::str::from_utf8(&buf[1..]).unwrap();
    assert_eq!(s, "hello world");
    let decoded = decode(&buf, &schema);
    assert_eq!(decoded, val);
}

#[test]
fn test_string_min_length_exact() {
    let schema = from_serde_json(&json_value(r#"{"type": "string", "minLength": 5}"#)).unwrap();
    let val = Value::String("hello".to_string());
    let mut buf = Vec::new();
    encode(&val, &schema, &mut buf);
    assert_eq!(buf[0], 0x00);
    let s = std::str::from_utf8(&buf[1..]).unwrap();
    assert_eq!(s, "hello");
    let decoded = decode(&buf, &schema);
    assert_eq!(decoded, val);
}

#[test]
fn test_string_max_length_parsed() {
    let schema = from_serde_json(&json_value(r#"{"type": "string", "maxLength": 10}"#)).unwrap();
    assert_eq!(schema.max_length, Some(10));
}

#[test]
fn test_string_min_length_with_pattern_ignored() {
    let schema =
        from_serde_json(&json_value(r#"{"type": "string", "pattern": "^prefix", "minLength": 6}"#))
            .unwrap();
    let val = Value::String("prefixA".to_string());
    let mut buf = Vec::new();
    encode(&val, &schema, &mut buf);
    assert_eq!(buf[0], 0x07);
    let decoded = decode(&buf, &schema);
    assert_eq!(decoded, val);
}

#[test]
fn test_pattern_prefix() {
    let schema = from_serde_json(&json_value(r#"{"type": "string", "pattern": "^http://"}"#)).unwrap();
    assert_eq!(schema.pattern_prefix, Some("http://".to_string()));
    assert_eq!(schema.pattern_suffix, None);
    let value = Value::String("http://example.com".to_string());
    let mut buf = Vec::new();
    encode(&value, &schema, &mut buf);
    assert_eq!(buf.len(), 13);
    assert_eq!(buf[0], 0x07);
    let decoded = decode(&buf, &schema);
    assert_eq!(decoded, value);
}

#[test]
fn test_pattern_suffix() {
    let schema = from_serde_json(&json_value(r#"{"type": "string", "pattern": "\\.com$"}"#)).unwrap();
    assert_eq!(schema.pattern_prefix, None);
    assert_eq!(schema.pattern_suffix, Some(".com".to_string()));
    let value = Value::String("example.com".to_string());
    let mut buf = Vec::new();
    encode(&value, &schema, &mut buf);
    assert_eq!(buf.len(), 9);
    assert_eq!(buf[0], 0x07);
    let decoded = decode(&buf, &schema);
    assert_eq!(decoded, value);
}

#[test]
fn test_pattern_both() {
    let schema =
        from_serde_json(&json_value(r#"{"type": "string", "pattern": "^http://(.*)\\.com$"}"#)).unwrap();
    assert_eq!(schema.pattern_prefix, Some("http://".to_string()));
    assert_eq!(schema.pattern_suffix, Some(".com".to_string()));
    let value = Value::String("http://example.com".to_string());
    let mut buf = Vec::new();
    encode(&value, &schema, &mut buf);
    assert_eq!(buf.len(), 9);
    assert_eq!(buf[0], 0x07);
    let decoded = decode(&buf, &schema);
    assert_eq!(decoded, value);
}

#[test]
fn test_pattern_mismatch() {
    let schema = from_serde_json(&json_value(r#"{"type": "string", "pattern": "^http://"}"#)).unwrap();
    let value = Value::String("https://example.com".to_string());
    let mut buf = Vec::new();
    encode(&value, &schema, &mut buf);
    assert_eq!(buf.len(), 21);
    assert_eq!(buf[0], 0x00);
    let decoded = decode(&buf, &schema);
    assert_eq!(decoded, value);
}

#[test]
fn test_pattern_none() {
    let schema = from_serde_json(&json_value(r#"{"type": "string", "pattern": ".*"}"#)).unwrap();
    assert_eq!(schema.pattern_prefix, None);
    assert_eq!(schema.pattern_suffix, None);
}

#[test]
fn test_pattern_complex_prefix() {
    let schema = from_serde_json(&json_value(r#"{"type": "string", "pattern": "^http://.*"}"#)).unwrap();
    assert_eq!(schema.pattern_prefix, Some("http://".to_string()));
    assert_eq!(schema.pattern_suffix, None);
}

#[test]
fn untyped_values_roundtrip() {
    let schema = Schema::default();
    let value = json_value(r#"{"a": [1, -2, 3000000000, "x", null, true, false], "b": {"c": "d"}, "e": 1.5}"#);
    let buf = roundtrip(&value, &schema);
    assert_eq!(buf[0], 0x06);
}

#[test]
fn typed_nested_object_roundtrips() {
    let schema = from_serde_json(&json_value(
        r#"{"type": "object",
            "properties": {"id": {"type": "integer", "minimum": 1},
                           "tags": {"type": "array", "items": {"type": "string"}},
                           "ip": {"type": "string", "format": "ipv4"}},
            "required": ["id", "ip"]}"#,
    ))
    .unwrap();
    assert_eq!(schema.required, Some(vec!["id".to_string(), "ip".to_string()]));
    let value = json_value(r#"{"id": 7, "ip": "10.0.0.1", "tags": ["x", "y"], "other": {"k": 1}}"#);
    roundtrip(&value, &schema);
}

#[test]
fn negative_number_below_minimum_is_not_optimized() {
    let schema = Schema {
        instance_type: Some(SingleOrVec::Single(InstanceType::Integer)),
        minimum: Some(10),
        ..Schema::default()
    };
    let value = Value::Number(Number::Int64(3));
    let buf = roundtrip(&value, &schema);
    assert_ne!(buf[0], 0xFF);
}

#[test]
fn large_integer_decodes_beyond_i64() {
    let schema = Schema {
        instance_type: Some(SingleOrVec::Single(InstanceType::Integer)),
        multiple_of: Some(1),
        minimum: Some(-10),
        ..Schema::default()
    };
    let value = Value::Number(Number::UInt64(u64::MAX));
    let mut buf = Vec::new();
    encode(&value, &schema, &mut buf);
    assert_eq!(buf[0], 0xFF);
    let decoded = decode(&buf, &schema);
    assert_eq!(
        decoded,
        Value::Number(Number::Decimal128(jsonb_schema::Decimal128 { scale: 0, value: u64::MAX as i128 }))
    );
}

#[test]
fn encodable_rejects_zero_multiple_of() {
    let schema = Schema {
        instance_type: Some(SingleOrVec::Single(InstanceType::Integer)),
        multiple_of: Some(0),
        ..Schema::default()
    };
    assert!(!encodable(&Value::Number(Number::Int64(10)), &schema));
    // A string under the same schema meets no arithmetic.
    assert!(encodable(&Value::String("x".to_string()), &schema));
}

#[test]
fn encodable_rejects_overflowing_difference_inside_object() {
    let inner = Schema {
        instance_type: Some(SingleOrVec::Single(InstanceType::Integer)),
        minimum: Some(i128::MIN),
        ..Schema::default()
    };
    let schema = Schema {
        instance_type: Some(SingleOrVec::Single(InstanceType::Object)),
        properties: Some(vec![("a".to_string(), inner)]),
        ..Schema::default()
    };
    let big = json_value(r#"{"a": 5}"#);
    assert!(!encodable(&big, &schema));
    let small = json_value(r#"{"a": -5}"#);
    assert!(encodable(&small, &schema));
}

#[test]
fn encodable_accepts_ordinary_schema() {
    let schema = Schema {
        instance_type: Some(SingleOrVec::Single(InstanceType::Array)),
        items: Some(Box::new(Schema {
            instance_type: Some(SingleOrVec::Single(InstanceType::Integer)),
            multiple_of: Some(5),
            minimum: Some(10),
            ..Schema::default()
        })),
        ..Schema::default()
    };
    let value = json_value("[10, 15, 100]");
    assert!(encodable(&value, &schema));
    roundtrip(&value, &schema);
}

#[test]
fn float_multiples_of_large_and_negative_steps() {
    // A negative step: -6.0 holds -3 twice.
    let schema = Schema {
        instance_type: Some(SingleOrVec::Single(InstanceType::Number)),
        multiple_of: Some(-3),
        ..Schema::default()
    };
    let value = Value::Number(Number::Float64Bits((-6.0f64).to_bits()));
    let mut buf = Vec::new();
    encode(&value, &schema, &mut buf);
    assert_eq!(buf, vec![0xFF, 0x02]);
    // A step above 2^53 is rounded to a double first: 2^53 + 1 becomes 2^53.
    let schema = Schema {
        instance_type: Some(SingleOrVec::Single(InstanceType::Number)),
        multiple_of: Some((1i128 << 53) + 1),
        ..Schema::default()
    };
    let value = Value::Number(Number::Float64Bits(((1u64 << 54) as f64).to_bits()));
    let mut buf = Vec::new();
    encode(&value, &schema, &mut buf);
    assert_eq!(buf, vec![0xFF, 0x02]);
    // A fraction of the step, and a NaN, are written plainly.
    let schema = Schema {
        instance_type: Some(SingleOrVec::Single(InstanceType::Number)),
        multiple_of: Some(4),
        ..Schema::default()
    };
    for x in [2.0f64, 0.5, f64::NAN] {
        let value = Value::Number(Number::Float64Bits(x.to_bits()));
        let mut buf = Vec::new();
        encode(&value, &schema, &mut buf);
        assert_ne!(buf[0], 0xFF);
    }
}

#[test]
fn decoded_objects_hold_keys_in_order_once() {
    // Entries written out of order, and a key written twice, come back in
    // key order with the later value.
    let value = Value::Object(vec![
        ("b".to_string(), Value::Number(Number::Int64(1))),
        ("a".to_string(), Value::Number(Number::Int64(2))),
        ("b".to_string(), Value::Bool(true)),
    ]);
    let mut buf = Vec::new();
    encode(&value, &Schema::default(), &mut buf);
    let decoded = decode(&buf, &Schema::default());
    assert_eq!(
        decoded,
        Value::Object(vec![
            ("a".to_string(), Value::Number(Number::Int64(2))),
            ("b".to_string(), Value::Bool(true)),
        ])
    );
}

#[test]
fn invalid_utf8_decodes_with_replacement_characters() {
    // TAG_STRING, length 2, then a byte that starts no UTF-8 sequence and "A".
    let buf = vec![0x04, 0x02, 0xFF, 0x41];
    let decoded = decode(&buf, &Schema::default());
    assert_eq!(decoded, Value::String("\u{FFFD}A".to_string()));
}

#[test]
fn decoded_double_multiple_is_the_integer_it_equals() {
    let schema = Schema {
        instance_type: Some(SingleOrVec::Single(InstanceType::Number)),
        multiple_of: Some(3),
        ..Schema::default()
    };
    let value = Value::Number(Number::Float64Bits((-12.0f64).to_bits()));
    let mut buf = Vec::new();
    encode(&value, &schema, &mut buf);
    assert_eq!(buf[0], 0xFF);
    assert_eq!(decode(&buf, &schema), Value::Number(Number::Int64(-12)));
    let object_schema = Schema {
        instance_type: Some(SingleOrVec::Single(InstanceType::Object)),
        properties: Some(vec![(
            "n".to_string(),
            Schema {
                instance_type: Some(SingleOrVec::Single(InstanceType::Number)),
                multiple_of: Some(3),
                ..Schema::default()
            },
        )]),
        required: Some(vec!["n".to_string()]),
        ..Schema::default()
    };
    let object = Value::Object(vec![("n".to_string(), Value::Number(Number::Float64Bits(6.0f64.to_bits())))]);
    let mut buf = Vec::new();
    encode(&object, &object_schema, &mut buf);
    assert_eq!(
        decode(&buf, &object_schema),
        Value::Object(vec![("n".to_string(), Value::Number(Number::Int64(6)))])
    );
}

#[test]
fn skipping_a_typed_value_steps_over_its_encoding() {
    let schema = from_serde_json(&json_value(
        r#"{"type": "object", "properties": {"a": {"type": "string"}, "b": {"type": "number", "multipleOf": 5}}, "required": ["a"]}"#,
    ))
    .unwrap();
    let value = json_value(r#"{"a": "x", "b": 10, "c": [1, 2]}"#);
    let mut enc = Vec::new();
    encode(&value, &schema, &mut enc);
    let mut buf = vec![7u8, 7, 7];
    buf.extend_from_slice(&enc);
    buf.extend_from_slice(&[9u8, 9]);
    let mut pos: usize = 3;
    skip_typed_value(&buf, &mut pos, InstanceType::Object, &schema);
    assert_eq!(pos, 3 + enc.len());
}

#[test]
fn skipping_a_non_canonical_formatted_text_steps_over_its_encoding() {
    let schema = from_serde_json(&json_value(r#"{"type": "string", "format": "ipv6"}"#)).unwrap();
    let value = Value::String("2001:0DB8::1".to_string());
    let mut enc = Vec::new();
    encode(&value, &schema, &mut enc);
    assert_eq!(enc.len(), 17);
    assert_eq!(decode(&enc, &schema), Value::String("2001:db8::1".to_string()));
    let mut buf = vec![1u8, 2];
    buf.extend_from_slice(&enc);
    buf.extend_from_slice(&[5u8, 5, 5]);
    let mut pos: usize = 2;
    skip_typed_value(&buf, &mut pos, InstanceType::String, &schema);
    assert_eq!(pos, 2 + enc.len());
}
