use dyn_schema::binc::serialize;
use dyn_schema::error::Error;
use dyn_schema::flatbin::encode_flat_alloc;
use dyn_schema::names::NameSet;
use dyn_schema::slow::encode_tree;
use dyn_schema::ty::{Field, Ty};
use dyn_schema::value::{Number, Object, Value};

fn field(name: &str, ty: Ty) -> Field {
    Field { name: name.to_string(), ty }
}

fn text(s: &str) -> Value {
    Value::String(s.to_string())
}

fn uint(n: u64) -> Value {
    Value::Number(Number::from_u64(n))
}

fn object(members: Vec<(&str, Value)>) -> Value {
    let mut o = Object::new();
    for (key, value) in members {
        o.insert(key.to_string(), value);
    }
    Value::Object(o)
}

fn names(set: &NameSet) -> Vec<String> {
    let mut all = Vec::new();
    let mut i = 0;
    while let Some(name) = set.name(i) {
        all.push(name.clone());
        i += 1;
    }
    assert_eq!(all.len(), set.len());
    all.sort();
    all
}

fn every_value() -> Vec<Value> {
    vec![
        Value::Null,
        Value::Bool(true),
        uint(1),
        text("s"),
        Value::Array(vec![]),
        object(vec![]),
    ]
}

fn kind(value: &Value) -> &'static str {
    match value {
        Value::Null => "null",
        Value::Bool(_) => "a boolean",
        Value::Number(_) => "a number",
        Value::String(_) => "a string",
        Value::Array(_) => "an array",
        Value::Object(_) => "an object",
    }
}

#[test]
fn a_wrong_kind_is_reported_with_both_names() {
    let nodes: Vec<(Ty, &str, &str)> = vec![
        (Ty::Bool, "a boolean", "a boolean"),
        (Ty::U64, "a non-negative integer", "a number"),
        (Ty::I64, "an integer", "a number"),
        (Ty::F64, "a number", "a number"),
        (Ty::Bytes, "a byte array", "an array"),
        (Ty::String, "a string", "a string"),
        (Ty::Array { inner: Box::new(Ty::Bool) }, "an array", "an array"),
        (Ty::Struct { fields: vec![] }, "an object", "an object"),
    ];
    for (ty, label, accepted) in &nodes {
        for value in every_value() {
            let outcome = serialize(ty, &value);
            if kind(&value) == *accepted {
                assert!(outcome.is_ok());
            } else {
                match outcome {
                    Err(Error::UnexpectedType { expected, got }) => {
                        assert_eq!(expected, *label);
                        assert_eq!(got, kind(&value));
                    }
                    _ => panic!("no type error"),
                }
            }
        }
    }
}

#[test]
fn a_negative_integer_is_no_unsigned_one() {
    let value = Value::Number(Number::from_i64(-1));
    let e = serialize(&Ty::U64, &value).unwrap_err();
    assert!(matches!(
        e,
        Error::UnexpectedType { expected: "a non-negative integer", got: "a number" }
    ));
    let float = Value::Number(Number::from_float_bits(1.0f64.to_bits()).unwrap());
    assert!(matches!(serialize(&Ty::U64, &float), Err(Error::UnexpectedType { .. })));
    assert!(matches!(serialize(&Ty::I64, &float), Err(Error::UnexpectedType { .. })));
}

#[test]
fn one_missing_and_one_extra_key_are_named() {
    let ty = Ty::Struct {
        fields: vec![field("a", Ty::U64), field("b", Ty::U64), field("c", Ty::U64)],
    };
    let value = object(vec![("a", uint(1)), ("b", uint(2)), ("x", uint(3))]);
    for outcome in [serialize(&ty, &value), encode_flat_alloc(&ty, &value), encode_tree(&ty, &value)]
    {
        match outcome {
            Err(Error::FieldMismatch { expected_len, expected, got_len, got, missing, extra }) => {
                assert_eq!(expected_len, 3);
                assert_eq!(got_len, 3);
                assert_eq!(names(&expected), vec!["a", "b", "c"]);
                assert_eq!(names(&got), vec!["a", "b", "x"]);
                assert_eq!(names(&missing), vec!["c"]);
                assert_eq!(names(&extra), vec!["x"]);
                assert!(missing.contains("c"));
                assert!(!missing.contains("a"));
            }
            _ => panic!("no field mismatch"),
        }
    }
}

#[test]
fn dropping_a_field_of_the_schema_names_the_extra_key() {
    let full = Ty::Struct {
        fields: vec![
            field("name", Ty::String),
            field("age", Ty::U64),
            field("hobbies", Ty::Array { inner: Box::new(Ty::String) }),
        ],
    };
    let short = Ty::Struct { fields: vec![field("name", Ty::String), field("age", Ty::U64)] };
    let value = object(vec![
        ("name", text("Alexander")),
        ("age", uint(27)),
        ("hobbies", Value::Array(vec![text("Music"), text("Programming")])),
    ]);
    assert!(serialize(&full, &value).is_ok());
    assert!(encode_flat_alloc(&full, &value).is_ok());
    for outcome in [serialize(&short, &value), encode_flat_alloc(&short, &value)] {
        match outcome {
            Err(Error::FieldMismatch { expected_len, expected, got_len, got, missing, extra }) => {
                assert_eq!(expected_len, 2);
                assert_eq!(got_len, 3);
                assert_eq!(names(&expected), vec!["age", "name"]);
                assert_eq!(names(&got), vec!["age", "hobbies", "name"]);
                assert!(names(&missing).is_empty());
                assert_eq!(missing.len(), 0);
                assert_eq!(names(&extra), vec!["hobbies"]);
            }
            _ => panic!("no field mismatch"),
        }
    }
}

#[test]
fn a_missing_key_is_named_when_the_object_is_short() {
    let ty = Ty::Struct { fields: vec![field("a", Ty::U64), field("b", Ty::U64)] };
    let value = object(vec![("a", uint(1))]);
    match serialize(&ty, &value) {
        Err(Error::FieldMismatch { expected_len, got_len, missing, extra, .. }) => {
            assert_eq!(expected_len, 2);
            assert_eq!(got_len, 1);
            assert_eq!(names(&missing), vec!["b"]);
            assert!(names(&extra).is_empty());
        }
        _ => panic!("no field mismatch"),
    }
}

#[test]
fn a_differing_key_set_fails_before_any_field_is_read() {
    let ty = Ty::Struct {
        fields: vec![field("a", Ty::U64), field("b", Ty::U64), field("c", Ty::U64)],
    };
    let value = object(vec![("a", text("x")), ("b", uint(1)), ("d", uint(2))]);
    for outcome in [serialize(&ty, &value), encode_flat_alloc(&ty, &value), encode_tree(&ty, &value)]
    {
        match outcome {
            Err(Error::FieldMismatch { expected_len, expected, got_len, got, missing, extra }) => {
                assert_eq!(expected_len, 3);
                assert_eq!(got_len, 3);
                assert_eq!(names(&expected), vec!["a", "b", "c"]);
                assert_eq!(names(&got), vec!["a", "b", "d"]);
                assert_eq!(names(&missing), vec!["c"]);
                assert_eq!(names(&extra), vec!["d"]);
            }
            _ => panic!("no field mismatch"),
        }
    }
    let pair = Ty::Struct { fields: vec![field("a", Ty::Bool), field("b", Ty::U64)] };
    let value = object(vec![("a", Value::Null), ("x", uint(2))]);
    assert!(matches!(serialize(&pair, &value), Err(Error::FieldMismatch { .. })));
    let value = object(vec![("x", uint(2)), ("a", Value::Bool(true))]);
    let mut buffer = vec![7];
    let e = dyn_schema::binc::serialize_into(&pair, &value, &mut buffer).unwrap_err();
    assert!(matches!(e, Error::FieldMismatch { expected_len: 2, got_len: 2, .. }));
    assert_eq!(buffer, vec![7]);
}

#[test]
fn a_nested_key_set_is_tested_when_its_node_is_reached() {
    let inner = Ty::Struct { fields: vec![field("k", Ty::U64)] };
    let ty = Ty::Struct { fields: vec![field("a", Ty::Bool), field("b", inner)] };
    let value = object(vec![("a", uint(1)), ("b", object(vec![("z", uint(1))]))]);
    assert!(matches!(
        serialize(&ty, &value),
        Err(Error::UnexpectedType { expected: "a boolean", got: "a number" })
    ));
    let value = object(vec![("a", Value::Bool(true)), ("b", object(vec![("z", uint(1))]))]);
    match serialize(&ty, &value) {
        Err(Error::FieldMismatch { expected, got, missing, extra, .. }) => {
            assert_eq!(names(&expected), vec!["k"]);
            assert_eq!(names(&got), vec!["z"]);
            assert_eq!(names(&missing), vec!["k"]);
            assert_eq!(names(&extra), vec!["z"]);
        }
        _ => panic!("no field mismatch"),
    }
}

#[test]
fn what_is_no_byte_is_refused_as_such() {
    let too_big = Value::Array(vec![uint(1), uint(300)]);
    assert!(matches!(serialize(&Ty::Bytes, &too_big), Err(Error::NotAByte)));
    assert!(matches!(encode_flat_alloc(&Ty::Bytes, &too_big), Err(Error::NotAByte)));
    let float = Value::Number(Number::from_float_bits(1.5f64.to_bits()).unwrap());
    assert!(matches!(serialize(&Ty::Bytes, &Value::Array(vec![float])), Err(Error::NotAByte)));
    let negative = Value::Number(Number::from_i64(-1));
    assert!(matches!(serialize(&Ty::Bytes, &Value::Array(vec![negative])), Err(Error::NotAByte)));
    let word = Value::Array(vec![text("a")]);
    assert!(matches!(serialize(&Ty::Bytes, &word), Err(Error::NotAByte)));
    let nested = Value::Array(vec![Value::Array(vec![])]);
    assert!(matches!(serialize(&Ty::Bytes, &nested), Err(Error::NotAByte)));
    let edge = Value::Array(vec![uint(255), uint(256)]);
    assert!(matches!(serialize(&Ty::Bytes, &edge), Err(Error::NotAByte)));
    assert!(matches!(
        serialize(&Ty::Bytes, &uint(1)),
        Err(Error::UnexpectedType { expected: "a byte array", got: "a number" })
    ));
}

#[test]
fn a_schema_with_a_name_twice_matches_no_object() {
    let ty = Ty::Struct { fields: vec![field("a", Ty::U64), field("a", Ty::U64)] };
    let both = object(vec![("a", uint(1)), ("b", uint(2))]);
    match serialize(&ty, &both) {
        Err(Error::FieldMismatch { expected_len, expected, got_len, got, missing, extra }) => {
            assert_eq!(expected_len, 2);
            assert_eq!(got_len, 2);
            assert_eq!(names(&expected), vec!["a"]);
            assert_eq!(names(&got), vec!["a", "b"]);
            assert!(names(&missing).is_empty());
            assert_eq!(names(&extra), vec!["b"]);
        }
        _ => panic!("no field mismatch"),
    }
    let one = object(vec![("a", uint(1))]);
    match serialize(&ty, &one) {
        Err(Error::FieldMismatch { expected_len, expected, got_len, missing, extra, .. }) => {
            assert_eq!(expected_len, 2);
            assert_eq!(got_len, 1);
            assert_eq!(names(&expected), vec!["a"]);
            assert!(names(&missing).is_empty());
            assert!(names(&extra).is_empty());
        }
        _ => panic!("no field mismatch"),
    }
    assert!(matches!(encode_flat_alloc(&ty, &both), Err(Error::FieldMismatch { .. })));
    let decoded = dyn_schema::binc::deserialize(&ty, &[1, 2]).unwrap();
    assert_eq!(decoded, object(vec![("a", uint(2))]));
}
