use bincode::Options;
use dyn_schema::binc::{deserialize, deserialize_prefix, serialize, serialize_into};
use dyn_schema::error::Error;
use dyn_schema::ty::{Field, Ty};
use dyn_schema::value::{Number, Object, Value};

fn field(name: &str, ty: Ty) -> Field {
    Field { name: name.to_string(), ty }
}

fn text(s: &str) -> Value {
    Value::String(s.to_string())
}

fn uint(n: u64) -> Value {
    Value::Number(Number::from_u64(n))
}

fn sint(i: i64) -> Value {
    Value::Number(Number::from_i64(i))
}

fn float(x: f64) -> Value {
    Value::Number(Number::from_float_bits(x.to_bits()).unwrap())
}

fn object(members: Vec<(&str, Value)>) -> Value {
    let mut o = Object::new();
    for (key, value) in members {
        o.insert(key.to_string(), value);
    }
    Value::Object(o)
}

fn array_of(inner: Ty) -> Ty {
    Ty::Array { inner: Box::new(inner) }
}

#[test]
fn simple_roundtrip() {
    let ty = Ty::Struct {
        fields: vec![
            field("name", Ty::String),
            field("age", Ty::U64),
            field("hobbies", array_of(Ty::String)),
            field("rustacean", Ty::Bool),
        ],
    };

    let value = object(vec![
        ("name", text("Alexander")),
        ("age", uint(27)),
        ("hobbies", Value::Array(vec![text("music"), text("programming")])),
        ("rustacean", Value::Bool(true)),
    ]);

    let bytes = serialize(&ty, &value).unwrap();
    println!("{:?}", bytes);
    let new_value = deserialize(&ty, &bytes).unwrap();
    assert_eq!(value, new_value);
}

#[test]
fn only_string() {
    let ty = Ty::String;
    let value = text("Alexander");

    let bytes = serialize(&ty, &value).unwrap();
    println!("{:?}", bytes);
    let new_value = deserialize(&ty, &bytes).unwrap();
    assert_eq!(value, new_value);
}

#[test]
fn vec_string() {
    let ty = array_of(Ty::String);
    let value = Value::Array(vec![text("Alexander"), text("Gabriel")]);

    let bytes = serialize(&ty, &value).unwrap();
    println!("{:?}", bytes);
    let new_value = deserialize(&ty, &bytes).unwrap();
    assert_eq!(value, new_value);
}

#[test]
fn struct_of_struct() {
    let ty = Ty::Struct {
        fields: vec![
            field("name", Ty::String),
            field("age", Ty::U64),
            field(
                "parents",
                array_of(Ty::Struct {
                    fields: vec![field("name", Ty::String), field("age", Ty::U64)],
                }),
            ),
            field("b", Ty::Bytes),
            field("rustacean", Ty::Bool),
        ],
    };

    let value = object(vec![
        ("name", text("Alexander")),
        ("age", uint(27)),
        (
            "parents",
            Value::Array(vec![
                object(vec![("name", text("ABC")), ("age", uint(100))]),
                object(vec![("name", text("DEF")), ("age", uint(40))]),
            ]),
        ),
        ("rustacean", Value::Bool(true)),
        ("b", Value::Array(vec![uint(100), uint(50), uint(200), uint(255), uint(0)])),
    ]);

    let bytes = serialize(&ty, &value).unwrap();
    println!("{:?}", bytes);
    let new_value = deserialize(&ty, &bytes).unwrap();
    assert_eq!(value, new_value);
}

#[test]
fn unsigned_integers_have_variable_width() {
    let cases: Vec<(u64, Vec<u8>)> = vec![
        (0, vec![0]),
        (250, vec![250]),
        (251, vec![251, 251, 0]),
        (65535, vec![251, 255, 255]),
        (65536, vec![252, 0, 0, 1, 0]),
        (4294967295, vec![252, 255, 255, 255, 255]),
        (4294967296, vec![253, 0, 0, 0, 0, 1, 0, 0, 0]),
        (u64::MAX, vec![253, 255, 255, 255, 255, 255, 255, 255, 255]),
    ];
    for (n, expected) in cases {
        let bytes = serialize(&Ty::U64, &uint(n)).unwrap();
        assert_eq!(bytes, expected);
        assert_eq!(bytes, bincode::DefaultOptions::new().serialize(&n).unwrap());
        assert_eq!(deserialize(&Ty::U64, &bytes).unwrap(), uint(n));
    }
}

#[test]
fn signed_integers_are_zigzagged() {
    let cases: Vec<(i64, Vec<u8>)> = vec![
        (0, vec![0]),
        (-1, vec![1]),
        (1, vec![2]),
        (-2, vec![3]),
        (125, vec![250]),
        (-126, vec![251, 251, 0]),
        (i64::MAX, vec![253, 254, 255, 255, 255, 255, 255, 255, 255]),
        (i64::MIN, vec![253, 255, 255, 255, 255, 255, 255, 255, 255]),
    ];
    for (i, expected) in cases {
        let bytes = serialize(&Ty::I64, &sint(i)).unwrap();
        assert_eq!(bytes, expected);
        assert_eq!(bytes, bincode::DefaultOptions::new().serialize(&i).unwrap());
        assert_eq!(deserialize(&Ty::I64, &bytes).unwrap(), sint(i));
    }
}

#[test]
fn an_unsigned_value_fits_a_signed_node_up_to_the_largest_i64() {
    let bytes = serialize(&Ty::I64, &uint(5)).unwrap();
    assert_eq!(bytes, vec![10]);
    assert_eq!(deserialize(&Ty::I64, &bytes).unwrap(), uint(5));
    let e = serialize(&Ty::I64, &uint(i64::MAX as u64 + 1)).unwrap_err();
    assert!(matches!(e, Error::UnexpectedType { expected: "an integer", got: "a number" }));
}

#[test]
fn booleans_are_one_byte() {
    assert_eq!(serialize(&Ty::Bool, &Value::Bool(false)).unwrap(), vec![0]);
    assert_eq!(serialize(&Ty::Bool, &Value::Bool(true)).unwrap(), vec![1]);
    assert_eq!(deserialize(&Ty::Bool, &[1]).unwrap(), Value::Bool(true));
    assert_eq!(deserialize(&Ty::Bool, &[0]).unwrap(), Value::Bool(false));
    assert!(matches!(deserialize(&Ty::Bool, &[2]), Err(Error::Serialization)));
    assert!(matches!(deserialize(&Ty::Bool, &[]), Err(Error::Serialization)));
}

#[test]
fn floats_are_their_bits_in_little_endian() {
    let bytes = serialize(&Ty::F64, &float(1.5)).unwrap();
    assert_eq!(bytes, vec![0, 0, 0, 0, 0, 0, 0xf8, 0x3f]);
    assert_eq!(bytes, bincode::DefaultOptions::new().serialize(&1.5f64).unwrap());
    assert_eq!(deserialize(&Ty::F64, &bytes).unwrap(), float(1.5));
}

#[test]
fn an_integer_under_a_float_node_is_converted() {
    let bytes = serialize(&Ty::F64, &uint(27)).unwrap();
    assert_eq!(bytes, 27.0f64.to_bits().to_le_bytes().to_vec());
    assert_eq!(deserialize(&Ty::F64, &bytes).unwrap(), float(27.0));
    let bytes = serialize(&Ty::F64, &sint(-2)).unwrap();
    assert_eq!(bytes, (-2.0f64).to_bits().to_le_bytes().to_vec());
    assert_eq!(deserialize(&Ty::F64, &bytes).unwrap(), float(-2.0));
    let bytes = serialize(&Ty::F64, &uint(u64::MAX)).unwrap();
    assert_eq!(bytes, (u64::MAX as f64).to_bits().to_le_bytes().to_vec());
}

#[test]
fn a_float_that_is_not_finite_decodes_to_null() {
    let nan = f64::NAN.to_bits().to_le_bytes();
    assert_eq!(deserialize(&Ty::F64, &nan).unwrap(), Value::Null);
    let inf = f64::INFINITY.to_bits().to_le_bytes();
    assert_eq!(deserialize(&Ty::F64, &inf).unwrap(), Value::Null);
}

#[test]
fn strings_are_a_length_and_utf8() {
    let bytes = serialize(&Ty::String, &text("h\u{e9}llo")).unwrap();
    assert_eq!(bytes, vec![6, b'h', 0xc3, 0xa9, b'l', b'l', b'o']);
    assert_eq!(bytes, bincode::DefaultOptions::new().serialize("h\u{e9}llo").unwrap());
    assert_eq!(deserialize(&Ty::String, &bytes).unwrap(), text("h\u{e9}llo"));
    assert_eq!(serialize(&Ty::String, &text("")).unwrap(), vec![0]);
}

#[test]
fn a_long_string_has_a_wide_length() {
    let long = "x".repeat(300);
    let bytes = serialize(&Ty::String, &text(&long)).unwrap();
    assert_eq!(&bytes[..3], &[251, 44, 1]);
    assert_eq!(bytes.len(), 303);
    assert_eq!(deserialize(&Ty::String, &bytes).unwrap(), text(&long));
}

#[test]
fn a_string_that_is_not_utf8_is_refused() {
    assert!(matches!(deserialize(&Ty::String, &[1, 0xff]), Err(Error::Serialization)));
    assert!(matches!(deserialize(&Ty::String, &[2, 0xc3]), Err(Error::Serialization)));
    assert!(matches!(deserialize(&Ty::String, &[3, b'a']), Err(Error::Serialization)));
}

#[test]
fn byte_arrays_are_a_count_and_their_bytes() {
    let value = Value::Array(vec![uint(100), uint(50), uint(200), uint(255), uint(0)]);
    let bytes = serialize(&Ty::Bytes, &value).unwrap();
    assert_eq!(bytes, vec![5, 100, 50, 200, 255, 0]);
    assert_eq!(
        bytes,
        bincode::DefaultOptions::new().serialize(&vec![100u8, 50, 200, 255, 0]).unwrap()
    );
    assert_eq!(deserialize(&Ty::Bytes, &bytes).unwrap(), value);
}

#[test]
fn the_example_matches_the_outside_encoder() {
    let ty = Ty::Struct {
        fields: vec![
            field("name", Ty::String),
            field("age", Ty::U64),
            field("hobbies", array_of(Ty::String)),
        ],
    };
    let value = object(vec![
        ("hobbies", Value::Array(vec![text("Music"), text("Programming")])),
        ("name", text("Alexander")),
        ("age", uint(27)),
    ]);
    let bytes = serialize(&ty, &value).unwrap();
    let mut expected = vec![9];
    expected.extend_from_slice(b"Alexander");
    expected.push(27);
    expected.push(2);
    expected.push(5);
    expected.extend_from_slice(b"Music");
    expected.push(11);
    expected.extend_from_slice(b"Programming");
    assert_eq!(bytes, expected);
    let typed = ("Alexander", 27u64, vec!["Music", "Programming"]);
    assert_eq!(bytes, bincode::DefaultOptions::new().serialize(&typed).unwrap());
    assert_eq!(deserialize(&ty, &bytes).unwrap(), value);
}

#[test]
fn decoding_puts_members_in_schema_order() {
    let ty = Ty::Struct { fields: vec![field("b", Ty::U64), field("a", Ty::Bool)] };
    let value = deserialize(&ty, &[7, 1]).unwrap();
    match &value {
        Value::Object(o) => {
            assert_eq!(o.len(), 2);
            assert_eq!(o.entry(0).unwrap().0, "b");
            assert_eq!(o.entry(1).unwrap().0, "a");
            assert_eq!(o.get("b"), Some(&uint(7)));
            assert_eq!(o.get("a"), Some(&Value::Bool(true)));
            assert!(o.entry(2).is_none());
        }
        _ => panic!("not an object"),
    }
}

#[test]
fn decoding_keeps_schema_order_at_every_depth() {
    let row = Ty::Struct { fields: vec![field("z", Ty::Bool), field("m", Ty::U64)] };
    let ty = Ty::Struct {
        fields: vec![field("rows", array_of(row)), field("a", Ty::U64), field("rows2", Ty::Bool)],
    };
    let value = deserialize(&ty, &[2, 1, 5, 0, 6, 9, 1]).unwrap();
    let outer = match &value {
        Value::Object(o) => o,
        _ => panic!("not an object"),
    };
    assert_eq!(outer.entry(0).unwrap().0, "rows");
    assert_eq!(outer.entry(1).unwrap().0, "a");
    assert_eq!(outer.entry(2).unwrap().0, "rows2");
    assert!(outer.entry(3).is_none());
    let rows = match outer.get("rows") {
        Some(Value::Array(rows)) => rows,
        _ => panic!("not an array"),
    };
    assert_eq!(rows.len(), 2);
    for row in rows {
        match row {
            Value::Object(o) => {
                assert_eq!(o.entry(0).unwrap().0, "z");
                assert_eq!(o.entry(1).unwrap().0, "m");
                assert!(o.entry(2).is_none());
            }
            _ => panic!("not an object"),
        }
    }
    let twice = Ty::Struct {
        fields: vec![field("a", Ty::U64), field("b", Ty::U64), field("a", Ty::Bool)],
    };
    let value = deserialize(&twice, &[1, 2, 1]).unwrap();
    match &value {
        Value::Object(o) => {
            assert_eq!(o.len(), 2);
            assert_eq!(o.entry(0).unwrap().0, "a");
            assert_eq!(o.entry(0).unwrap().1, &Value::Bool(true));
            assert_eq!(o.entry(1).unwrap().0, "b");
        }
        _ => panic!("not an object"),
    }
}

#[test]
fn a_lenient_marker_is_read() {
    assert_eq!(deserialize(&Ty::U64, &[251, 5, 0]).unwrap(), uint(5));
    assert_eq!(deserialize(&Ty::U64, &[252, 5, 0, 0, 0]).unwrap(), uint(5));
}

#[test]
fn bytes_that_end_early_are_refused() {
    assert!(matches!(deserialize(&Ty::U64, &[]), Err(Error::Serialization)));
    assert!(matches!(deserialize(&Ty::U64, &[251, 1]), Err(Error::Serialization)));
    assert!(matches!(deserialize(&Ty::U64, &[254]), Err(Error::Serialization)));
    assert!(matches!(deserialize(&Ty::U64, &[255]), Err(Error::Serialization)));
    assert!(matches!(deserialize(&Ty::F64, &[0, 0, 0]), Err(Error::Serialization)));
    assert!(matches!(deserialize(&Ty::Bytes, &[3, 1, 2]), Err(Error::Serialization)));
    assert!(matches!(deserialize(&array_of(Ty::U64), &[2, 1]), Err(Error::Serialization)));
    let huge = [253, 255, 255, 255, 255, 255, 255, 255, 255];
    assert!(matches!(deserialize(&Ty::String, &huge), Err(Error::Serialization)));
    assert!(matches!(deserialize(&array_of(Ty::Bool), &huge), Err(Error::Serialization)));
}

#[test]
fn bytes_left_over_are_refused() {
    assert!(matches!(deserialize(&Ty::U64, &[7, 0]), Err(Error::Serialization)));
    let (value, used) = deserialize_prefix(&Ty::U64, &[7, 0]).unwrap();
    assert_eq!(value, uint(7));
    assert_eq!(used, 1);
}

#[test]
fn serialize_into_appends() {
    let mut buffer = vec![9, 9];
    serialize_into(&Ty::U64, &uint(300), &mut buffer).unwrap();
    serialize_into(&Ty::Bool, &Value::Bool(true), &mut buffer).unwrap();
    assert_eq!(buffer, vec![9, 9, 251, 44, 1, 1]);
}

#[test]
fn a_failed_encode_leaves_what_it_wrote() {
    let ty = Ty::Struct { fields: vec![field("a", Ty::U64), field("b", Ty::Bool)] };
    let value = object(vec![("a", uint(3)), ("b", uint(4))]);
    let mut buffer = vec![1];
    let e = serialize_into(&ty, &value, &mut buffer).unwrap_err();
    assert!(matches!(e, Error::UnexpectedType { expected: "a boolean", got: "a number" }));
    assert_eq!(buffer, vec![1, 3]);
    assert!(serialize(&ty, &value).is_err());
}

#[test]
fn an_empty_struct_takes_no_bytes() {
    let ty = Ty::Struct { fields: vec![] };
    let bytes = serialize(&ty, &object(vec![])).unwrap();
    assert!(bytes.is_empty());
    assert_eq!(deserialize(&ty, &bytes).unwrap(), object(vec![]));
    let list = array_of(Ty::Struct { fields: vec![] });
    let value = Value::Array(vec![object(vec![]), object(vec![])]);
    let bytes = serialize(&list, &value).unwrap();
    assert_eq!(bytes, vec![2]);
    assert_eq!(deserialize(&list, &bytes).unwrap(), value);
}
