use jsonb_schema::jsonpath::{
    ArrayIndex, BinaryOperator, Expr, Index, JsonPath, Path, PathValue, RecursiveLevel,
    RecursiveLevelEnd, Selector, UnaryOperator,
};
use jsonb_schema::schema::{encode, from_serde_json, Schema};
use jsonb_schema::{Number, Value};

fn json_value(text: &str) -> Value {
    let v: serde_json::Value = serde_json::from_str(text).unwrap();
    convert(&v)
}

fn convert(v: &serde_json::Value) -> Value {
    match v {
        serde_json::Value::Null => Value::Null,
        serde_json::Value::Bool(b) => Value::Bool(*b),
        serde_json::Value::Number(n) => {
            if let Some(i) = n.as_i64() {
                Value::Number(Number::Int64(i))
            } else if let Some(u) = n.as_u64() {
                Value::Number(Number::UInt64(u))
            } else {
                Value::Number(Number::Float64Bits(n.as_f64().unwrap().to_bits()))
            }
        }
        serde_json::Value::String(s) => Value::String(s.clone()),
        serde_json::Value::Array(a) => Value::Array(a.iter().map(convert).collect()),
        serde_json::Value::Object(m) => {
            Value::Object(m.iter().map(|(k, v)| (k.clone(), convert(v))).collect())
        }
    }
}

fn path(segments: Vec<Path>) -> JsonPath {
    let mut paths = vec![Path::Root];
    paths.extend(segments);
    JsonPath { paths }
}

fn field(name: &str) -> Path {
    Path::DotField(name.to_string())
}

fn index(i: i32) -> Path {
    Path::ArrayIndices(vec![ArrayIndex::Index(Index::Index(i))])
}

fn root_paths() -> Expr {
    Expr::Paths(vec![Path::Root])
}

fn current(segments: Vec<Path>) -> Expr {
    let mut paths = vec![Path::Current];
    paths.extend(segments);
    Expr::Paths(paths)
}

fn literal(v: PathValue) -> Expr {
    Expr::Value(Box::new(v))
}

fn binary(op: BinaryOperator, left: Expr, right: Expr) -> Expr {
    Expr::BinaryOp { op, left: Box::new(left), right: Box::new(right) }
}

fn predicate(e: Expr) -> JsonPath {
    JsonPath { paths: vec![Path::Expr(Box::new(e))] }
}

fn int_lit(i: i64) -> PathValue {
    PathValue::Number(Number::Int64(i))
}

fn text(s: &str) -> Value {
    Value::String(s.to_string())
}

fn num(i: i64) -> Value {
    Value::Number(Number::Int64(i))
}

fn untyped(v: &Value) -> Vec<u8> {
    let mut buf = Vec::new();
    encode(v, &Schema::default(), &mut buf);
    buf
}

#[test]
fn test_selector_schema_string_min_length() {
    let schema = from_serde_json(&json_value(r#"{"type": "string", "minLength": 5}"#)).unwrap();
    let val = text("hello world");
    let mut buf = Vec::new();
    encode(&val, &schema, &mut buf);
    let mut selector = Selector::new(&buf).with_schema(&schema);

    let p = JsonPath { paths: vec![Path::Root] };
    let res = selector.select_value(&p).unwrap();
    assert_eq!(res.unwrap(), text("hello world"));

    let p = predicate(binary(BinaryOperator::Eq, root_paths(), literal(PathValue::String("hello world".to_string()))));
    assert_eq!(selector.predicate_match(&p).unwrap(), Some(true));

    let p = predicate(binary(BinaryOperator::Eq, root_paths(), literal(PathValue::String("hello".to_string()))));
    assert_eq!(selector.predicate_match(&p).unwrap(), Some(false));
}

#[test]
fn test_selector_schema_object_keys() {
    let schema = from_serde_json(&json_value(
        r#"{"type": "object", "properties": {"a": {"type": "string"}, "b": {"type": "number"}}, "required": ["a"]}"#,
    ))
    .unwrap();
    let val = Value::Object(vec![("a".to_string(), text("val_a")), ("b".to_string(), num(10))]);
    let mut buf = Vec::new();
    encode(&val, &schema, &mut buf);
    let mut selector = Selector::new(&buf).with_schema(&schema);

    let p = path(vec![field("a")]);
    assert_eq!(selector.select_value(&p).unwrap().unwrap(), text("val_a"));
    let p = path(vec![field("b")]);
    assert_eq!(selector.select_value(&p).unwrap().unwrap(), num(10));
}

#[test]
fn test_selector_schema_multiple_of_optimization() {
    let schema = from_serde_json(&json_value(r#"{"type": "number", "multipleOf": 5}"#)).unwrap();
    let val = num(10);
    let mut buf = Vec::new();
    encode(&val, &schema, &mut buf);
    let mut selector = Selector::new(&buf).with_schema(&schema);

    let p = predicate(binary(BinaryOperator::Eq, root_paths(), literal(int_lit(10))));
    assert_eq!(selector.predicate_match(&p).unwrap(), Some(true));
    let p = predicate(binary(BinaryOperator::Eq, root_paths(), literal(int_lit(12))));
    assert_eq!(selector.predicate_match(&p).unwrap(), Some(false));
    let p = predicate(binary(BinaryOperator::Eq, root_paths(), literal(int_lit(15))));
    assert_eq!(selector.predicate_match(&p).unwrap(), Some(false));
}

#[test]
fn test_selector_schema_array_indices() {
    let schema = from_serde_json(&json_value(
        r#"{"type": "array", "items": {"type": "number"}, "minItems": 3}"#,
    ))
    .unwrap();
    let val = Value::Array(vec![num(1), num(2), num(3), num(4)]);
    let mut buf = Vec::new();
    encode(&val, &schema, &mut buf);
    let mut selector = Selector::new(&buf).with_schema(&schema);

    let q1 = path(vec![index(0)]);
    assert_eq!(selector.select_value(&q1).unwrap().unwrap(), num(1));
    let q2 = path(vec![index(3)]);
    assert_eq!(selector.select_value(&q2).unwrap().unwrap(), num(4));
    let q3 = path(vec![index(4)]);
    assert!(selector.select_value(&q3).unwrap().is_none());
}

#[test]
fn untyped_selection_of_values_array_and_first() {
    let doc = json_value(r#"{"a": {"b": [1, 2, 3]}, "c": 4}"#);
    let buf = untyped(&doc);
    let mut selector = Selector::new(&buf);

    let p = path(vec![field("a"), field("b"), Path::BracketWildcard]);
    assert_eq!(selector.select_values(&p).unwrap(), vec![num(1), num(2), num(3)]);
    assert_eq!(selector.select_array(&p).unwrap(), Value::Array(vec![num(1), num(2), num(3)]));
    assert_eq!(selector.select_first(&p).unwrap(), Some(num(1)));
    assert_eq!(selector.select_value(&p).unwrap(), Some(Value::Array(vec![num(1), num(2), num(3)])));
    let q4 = path(vec![field("d")]);
    assert_eq!(selector.select_first(&q4).unwrap(), None);

    let q5 = path(vec![field("a"), field("b"), index(1)]);
    assert!(selector.path_exists(&q5).unwrap());
    let q6 = path(vec![field("c")]);
    assert!(selector.path_exists(&q6).unwrap());
    let q7 = path(vec![field("a"), field("x")]);
    assert!(!selector.path_exists(&q7).unwrap());
}

#[test]
fn untyped_filter_and_predicate() {
    let doc = json_value(
        r#"[{"price": 12, "title": "Book A"}, {"price": 8, "title": "Book B"}, {"price": 5, "title": "Book C"}]"#,
    );
    let buf = untyped(&doc);
    let mut selector = Selector::new(&buf);

    let cheap = binary(BinaryOperator::Lt, current(vec![field("price")]), literal(int_lit(10)));
    let p = path(vec![Path::BracketWildcard, Path::FilterExpr(Box::new(cheap)), field("title")]);
    assert_eq!(selector.select_values(&p).unwrap(), vec![text("Book B"), text("Book C")]);

    let all_prices = Expr::Paths(vec![Path::Root, Path::BracketWildcard, field("price")]);
    let p = predicate(binary(BinaryOperator::Lt, all_prices, literal(int_lit(10))));
    assert_eq!(selector.predicate_match(&p).unwrap(), Some(true));

    let titles = Expr::Paths(vec![Path::Root, Path::BracketWildcard, field("title")]);
    let p = predicate(binary(BinaryOperator::Eq, titles, literal(PathValue::String("Book D".to_string()))));
    assert_eq!(selector.predicate_match(&p).unwrap(), Some(false));

    let p = path(vec![Path::BracketWildcard, field("title")]);
    assert_eq!(selector.predicate_match(&p).unwrap(), None);
}

#[test]
fn arithmetic_and_errors() {
    let doc = json_value(r#"{"a": 7, "b": [1, 2]}"#);
    let buf = untyped(&doc);
    let mut selector = Selector::new(&buf);

    let a = Expr::Paths(vec![Path::Root, field("a")]);
    let p = predicate(binary(BinaryOperator::Multiply, a, literal(int_lit(3))));
    assert_eq!(selector.select_values(&p).unwrap(), vec![num(21)]);

    let b = Expr::Paths(vec![Path::Root, field("b"), Path::BracketWildcard]);
    let p = JsonPath {
        paths: vec![Path::Expr(Box::new(Expr::UnaryOp { op: UnaryOperator::Subtract, operand: Box::new(b) }))],
    };
    assert_eq!(selector.select_values(&p).unwrap(), vec![num(-1), num(-2)]);

    let a = Expr::Paths(vec![Path::Root, field("a")]);
    let p = predicate(binary(BinaryOperator::Divide, a, literal(int_lit(0))));
    assert!(selector.select_values(&p).is_err());

    let p = JsonPath { paths: vec![Path::Current, field("a")] };
    assert!(selector.select_values(&p).is_err());
}

#[test]
fn recursive_descent_and_slices() {
    let doc = json_value(r#"{"a": {"b": 1}, "c": [2, 3, 4, 5]}"#);
    let buf = untyped(&doc);
    let mut selector = Selector::new(&buf);

    let level_one = RecursiveLevel { start: 1, end: None };
    let p = path(vec![Path::RecursiveDotWildcard(Some(level_one))]);
    assert_eq!(
        selector.select_values(&p).unwrap(),
        vec![json_value(r#"{"b": 1}"#), json_value("[2, 3, 4, 5]")]
    );

    let deep = RecursiveLevel { start: 2, end: Some(RecursiveLevelEnd::Last) };
    let p = path(vec![Path::RecursiveDotWildcard(Some(deep))]);
    assert_eq!(selector.select_values(&p).unwrap(), vec![num(1), num(2), num(3), num(4), num(5)]);

    let slice = ArrayIndex::Slice(Index::Index(1), Index::LastIndex(-1));
    let p = path(vec![field("c"), Path::ArrayIndices(vec![slice, ArrayIndex::Index(Index::Index(0))])]);
    assert_eq!(selector.select_values(&p).unwrap(), vec![num(3), num(4), num(2)]);
}

#[test]
fn schema_indices_select_as_listed_with_repeats() {
    let schema = from_serde_json(&json_value(r#"{"type": "array", "items": {"type": "integer"}}"#)).unwrap();
    let val = Value::Array(vec![num(10), num(20), num(30)]);
    let mut buf = Vec::new();
    encode(&val, &schema, &mut buf);
    let mut selector = Selector::new(&buf).with_schema(&schema);

    let idx = vec![ArrayIndex::Index(Index::Index(2)), ArrayIndex::Index(Index::Index(0)), ArrayIndex::Index(Index::Index(2))];
    let p = path(vec![Path::ArrayIndices(idx)]);
    assert_eq!(selector.select_values(&p).unwrap(), vec![num(30), num(10), num(30)]);
    let plain = untyped(&val);
    let mut untyped_selector = Selector::new(&plain);
    assert_eq!(untyped_selector.select_values(&p).unwrap(), vec![num(30), num(10), num(30)]);
}

#[test]
fn schema_object_members_in_key_order() {
    let schema = from_serde_json(&json_value(
        r#"{"type": "object", "properties": {"a": {"type": "integer"}, "z": {"type": "string"}}, "required": ["z"]}"#,
    ))
    .unwrap();
    let val = json_value(r#"{"a": 1, "z": "last", "m": true}"#);
    let mut buf = Vec::new();
    encode(&val, &schema, &mut buf);
    let mut selector = Selector::new(&buf).with_schema(&schema);

    let p = path(vec![Path::DotWildcard]);
    assert_eq!(selector.select_values(&p).unwrap(), vec![num(1), Value::Bool(true), text("last")]);
    let plain = untyped(&val);
    let mut untyped_selector = Selector::new(&plain);
    assert_eq!(untyped_selector.select_values(&p).unwrap(), vec![num(1), Value::Bool(true), text("last")]);

    let has_m = Expr::ExistsFunc(vec![Path::Current, field("m")]);
    let p = predicate(has_m);
    assert_eq!(selector.predicate_match(&p).unwrap(), Some(true));
}

#[test]
fn comparison_kinds() {
    let doc = json_value(r#"{"s": "abc", "n": null, "t": true}"#);
    let buf = untyped(&doc);
    let mut selector = Selector::new(&buf);

    let s = Expr::Paths(vec![Path::Root, field("s")]);
    let p = predicate(binary(BinaryOperator::StartsWith, s, literal(PathValue::String("ab".to_string()))));
    assert_eq!(selector.predicate_match(&p).unwrap(), Some(true));

    let s = Expr::Paths(vec![Path::Root, field("s")]);
    let p = predicate(binary(BinaryOperator::NotEq, s, literal(int_lit(1))));
    assert_eq!(selector.predicate_match(&p).unwrap(), Some(true));

    let s = Expr::Paths(vec![Path::Root, field("s")]);
    let p = predicate(binary(BinaryOperator::Lt, s, literal(int_lit(1))));
    assert_eq!(selector.predicate_match(&p).unwrap(), None);

    let n = Expr::Paths(vec![Path::Root, field("n")]);
    let p = predicate(binary(BinaryOperator::Eq, n, literal(PathValue::Null)));
    assert_eq!(selector.predicate_match(&p).unwrap(), Some(true));

    let t = Expr::Paths(vec![Path::Root, field("t")]);
    let p = predicate(binary(BinaryOperator::Gt, t, literal(PathValue::Boolean(false))));
    assert_eq!(selector.predicate_match(&p).unwrap(), Some(true));
}

#[test]
fn field_selection_reads_the_field_in_place() {
    let schema = from_serde_json(&json_value(
        r#"{"type": "object",
            "properties": {"id": {"type": "integer", "minimum": 100},
                           "tag": {"type": "string"}},
            "required": ["id"]}"#,
    ))
    .unwrap();
    let value = json_value(r#"{"id": 105, "note": [1, 2], "tag": "x"}"#);
    let mut buf = Vec::new();
    encode(&value, &schema, &mut buf);
    let cases = vec![
        ("id", vec![num(105)]),
        ("tag", vec![text("x")]),
        ("note", vec![Value::Array(vec![num(1), num(2)])]),
        ("missing", vec![]),
    ];
    for (name, expected) in cases {
        let p = path(vec![field(name)]);
        let mut selector = Selector::new(&buf).with_schema(&schema);
        assert_eq!(selector.select_values(&p).unwrap(), expected);
        // The plain encoding gives the same.
        let mut plain = Vec::new();
        encode(&value, &Schema::default(), &mut plain);
        let mut selector = Selector::new(&plain);
        assert_eq!(selector.select_values(&p).unwrap(), expected);
    }
}

#[test]
fn wildcard_reads_array_elements_in_place() {
    let schema = from_serde_json(&json_value(
        r#"{"type": "array", "minItems": 1,
            "prefixItems": [{"type": "string"}],
            "items": {"type": "integer", "multipleOf": 5}}"#,
    ))
    .unwrap();
    let value = json_value(r#"["a", 10, 25]"#);
    let mut buf = Vec::new();
    encode(&value, &schema, &mut buf);
    let p = path(vec![Path::BracketWildcard]);
    let mut selector = Selector::new(&buf).with_schema(&schema);
    assert_eq!(
        selector.select_values(&p).unwrap(),
        vec![text("a"), num(10), num(25)]
    );
    // A value that is not an array is selected whole.
    let scalar = json_value("7");
    let mut plain = Vec::new();
    encode(&scalar, &Schema::default(), &mut plain);
    let mut selector = Selector::new(&plain);
    assert_eq!(selector.select_values(&p).unwrap(), vec![num(7)]);
}

#[test]
fn index_reads_the_named_element_in_place() {
    let schema = from_serde_json(&json_value(
        r#"{"type": "array", "items": {"type": "string", "minLength": 1}}"#,
    ))
    .unwrap();
    let value = json_value(r#"["a", "bb", "ccc"]"#);
    let mut typed = Vec::new();
    encode(&value, &schema, &mut typed);
    let mut plain = Vec::new();
    encode(&value, &Schema::default(), &mut plain);
    let cases = vec![
        (Index::Index(1), vec![text("bb")]),
        (Index::LastIndex(0), vec![text("ccc")]),
        (Index::Index(3), vec![]),
    ];
    for (i, expected) in cases {
        let p = path(vec![Path::ArrayIndices(vec![ArrayIndex::Index(i)])]);
        let mut selector = Selector::new(&typed).with_schema(&schema);
        assert_eq!(selector.select_values(&p).unwrap(), expected);
        let mut selector = Selector::new(&plain);
        assert_eq!(selector.select_values(&p).unwrap(), expected);
    }
}

#[test]
fn nested_fields_are_read_in_place() {
    let schema = from_serde_json(&json_value(
        r#"{"type": "object",
            "properties": {"a": {"type": "object",
                                 "properties": {"b": {"type": "integer", "minimum": 0}},
                                 "required": ["b"]}},
            "required": ["a"]}"#,
    ))
    .unwrap();
    let value = json_value(r#"{"a": {"b": 42, "c": "x"}, "d": null}"#);
    let mut buf = Vec::new();
    encode(&value, &schema, &mut buf);
    let cases = vec![
        (vec!["a", "b"], vec![num(42)]),
        (vec!["a", "c"], vec![text("x")]),
        (vec!["d"], vec![Value::Null]),
        (vec!["a", "z"], vec![]),
        (vec!["d", "b"], vec![]),
    ];
    for (names, expected) in cases {
        let p = path(names.into_iter().map(field).collect());
        let mut selector = Selector::new(&buf).with_schema(&schema);
        assert_eq!(selector.select_values(&p).unwrap(), expected);
    }
}

#[test]
fn comparing_in_place_agrees_with_comparing_the_value() {
    let schema =
        from_serde_json(&json_value(r#"{"type": "integer", "multipleOf": 5, "minimum": 10}"#)).unwrap();
    let val = num(20);
    let mut buf = Vec::new();
    encode(&val, &schema, &mut buf);
    let plain = untyped(&val);
    let cases = [
        (BinaryOperator::Eq, 20, true),
        (BinaryOperator::Eq, 21, false),
        (BinaryOperator::Eq, 25, false),
        (BinaryOperator::NotEq, 25, true),
        (BinaryOperator::Lt, 25, true),
        (BinaryOperator::Gte, 21, false),
    ];
    for (op, lit, expected) in cases {
        let p = predicate(binary(op, root_paths(), literal(int_lit(lit))));
        let mut typed = Selector::new(&buf).with_schema(&schema);
        assert_eq!(typed.predicate_match(&p).unwrap(), Some(expected));
        let mut untyped_selector = Selector::new(&plain);
        assert_eq!(untyped_selector.predicate_match(&p).unwrap(), Some(expected));
    }
}

#[test]
fn recursive_descent_selects_every_value_in_document_order() {
    let doc = json_value(r#"{"a": [1, {"b": 2}], "c": 3}"#);
    let buf = untyped(&doc);
    let mut selector = Selector::new(&buf);
    let p = JsonPath { paths: vec![Path::Root, Path::RecursiveDotWildcard(None)] };
    let got = selector.select_values(&p).unwrap();
    let inner = json_value(r#"{"b": 2}"#);
    let list = json_value(r#"[1, {"b": 2}]"#);
    let whole = json_value(r#"{"a": [1, {"b": 2}], "c": 3}"#);
    assert_eq!(got, vec![whole, list, num(1), inner, num(2), num(3)]);
}

#[test]
fn schema_recursive_descent_matches_the_untyped_form() {
    let schema = from_serde_json(&json_value(
        r#"{"type": "object", "properties": {"a": {"type": "array", "items": {"type": "integer"}}, "z": {"type": "null"}}, "required": ["z"]}"#,
    ))
    .unwrap();
    let val = json_value(r#"{"a": [1, 2], "m": {"k": "v"}, "z": null}"#);
    let mut buf = Vec::new();
    encode(&val, &schema, &mut buf);
    let plain = untyped(&val);
    let p = JsonPath { paths: vec![Path::Root, Path::RecursiveDotWildcard(None)] };
    let mut typed = Selector::new(&buf).with_schema(&schema);
    let mut untyped_selector = Selector::new(&plain);
    let got = typed.select_values(&p).unwrap();
    assert_eq!(got, untyped_selector.select_values(&p).unwrap());
    assert_eq!(got.len(), 7);

    let null_schema = from_serde_json(&json_value(r#"{"type": "null"}"#)).unwrap();
    let mut nbuf = Vec::new();
    encode(&Value::Null, &null_schema, &mut nbuf);
    let mut typed = Selector::new(&nbuf).with_schema(&null_schema);
    assert_eq!(typed.select_values(&p).unwrap(), vec![Value::Null]);
}

#[test]
fn predicates_on_fields_agree_with_and_without_a_schema() {
    let schema = from_serde_json(&json_value(
        r#"{"type": "object", "properties": {"ip": {"type": "string", "format": "ipv6"}, "name": {"type": "string", "minLength": 2}, "n": {"type": "integer", "multipleOf": 5}, "ok": {"type": "boolean"}}, "required": ["ip", "n"]}"#,
    ))
    .unwrap();
    let val = json_value(r#"{"ip": "2001:db8::1", "n": 10, "name": "alpha", "ok": true, "z": null}"#);
    let mut buf = Vec::new();
    encode(&val, &schema, &mut buf);
    let plain = untyped(&val);
    let cases = vec![
        (BinaryOperator::Eq, "ip", PathValue::String("2001:db8::1".to_string()), Some(true)),
        (BinaryOperator::StartsWith, "ip", PathValue::String("2001".to_string()), Some(true)),
        (BinaryOperator::Eq, "n", int_lit(10), Some(true)),
        (BinaryOperator::Eq, "n", int_lit(12), Some(false)),
        (BinaryOperator::Gt, "n", int_lit(5), Some(true)),
        (BinaryOperator::Lt, "name", PathValue::String("beta".to_string()), Some(true)),
        (BinaryOperator::Eq, "ok", PathValue::Boolean(true), Some(true)),
        (BinaryOperator::Eq, "z", PathValue::Null, Some(true)),
        (BinaryOperator::Eq, "missing", int_lit(1), Some(false)),
    ];
    for (op, name, lit, expected) in cases {
        let p = predicate(binary(op, current_root_field(name), literal(lit)));
        let mut typed = Selector::new(&buf).with_schema(&schema);
        let mut untyped_selector = Selector::new(&plain);
        assert_eq!(typed.predicate_match(&p).unwrap(), expected);
        assert_eq!(untyped_selector.predicate_match(&p).unwrap(), expected);
    }
}

fn current_root_field(name: &str) -> Expr {
    Expr::Paths(vec![Path::Root, field(name)])
}

#[test]
fn selection_with_a_schema_agrees_with_selection_without() {
    let schema = from_serde_json(&json_value(
        r#"{"type": "object", "properties": {"list": {"type": "array", "items": {"type": "object", "properties": {"k": {"type": "integer"}}, "required": ["k"]}}, "z": {"type": "string"}}, "required": ["z", "list"]}"#,
    ))
    .unwrap();
    let val = json_value(r#"{"a": 1, "list": [{"k": 5, "b": true}, {"k": 7}], "z": "end"}"#);
    let mut buf = Vec::new();
    encode(&val, &schema, &mut buf);
    let plain = untyped(&val);
    let multi = |v: Vec<i32>| Path::ArrayIndices(v.into_iter().map(|i| ArrayIndex::Index(Index::Index(i))).collect());
    let paths = vec![
        path(vec![Path::DotWildcard]),
        path(vec![field("list"), Path::BracketWildcard, Path::DotWildcard]),
        path(vec![field("list"), multi(vec![1, 0, 1]), field("k")]),
        path(vec![Path::DotWildcard, Path::BracketWildcard]),
    ];
    for p in &paths {
        let mut typed = Selector::new(&buf).with_schema(&schema);
        let mut untyped_selector = Selector::new(&plain);
        assert_eq!(typed.select_values(p).unwrap(), untyped_selector.select_values(p).unwrap());
    }
    let mut typed = Selector::new(&buf).with_schema(&schema);
    assert_eq!(typed.select_values(&paths[2]).unwrap(), vec![num(7), num(5), num(7)]);
}

#[test]
fn recursive_descent_with_levels_agrees_with_and_without_a_schema() {
    let schema = from_serde_json(&json_value(
        r#"{"type": "object", "properties": {"a": {"type": "array", "items": {"type": "object", "properties": {"x": {"type": "integer"}}, "required": ["x"]}}}, "required": ["a"]}"#,
    ))
    .unwrap();
    let val = json_value(r#"{"a": [{"x": 1, "y": [2, 3]}], "b": "t"}"#);
    let mut buf = Vec::new();
    encode(&val, &schema, &mut buf);
    let plain = untyped(&val);
    let level_one = RecursiveLevel { start: 1, end: Some(RecursiveLevelEnd::Index(2)) };
    let paths = vec![
        path(vec![Path::RecursiveDotWildcard(None)]),
        path(vec![Path::RecursiveDotWildcard(Some(level_one))]),
        path(vec![field("a"), Path::RecursiveDotWildcard(None), Path::DotWildcard]),
    ];
    for p in &paths {
        let mut typed = Selector::new(&buf).with_schema(&schema);
        let mut untyped_selector = Selector::new(&plain);
        assert_eq!(typed.select_values(p).unwrap(), untyped_selector.select_values(p).unwrap());
    }
}
