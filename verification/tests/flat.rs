use dyn_schema::binc;
use dyn_schema::error::Error;
use dyn_schema::flatbin::{
    decode_flat, decode_flat_prefix, encode_flat, encode_flat_alloc, Builder, FlatbinBuf,
};
use dyn_schema::slow::{decode_tree, encode_tree};
use dyn_schema::ty::{Field, Ty};
use dyn_schema::value::{Number, Object, Value};

fn field(name: &str, ty: Ty) -> Field {
    Field { name: name.to_string(), ty }
}

fn text(s: &str) -> Value {
    Value::String(s.to_string())
}

fn uint(n: u64) -> Value {
    Value::Number(Number::from_u64(n))
}

fn float(x: f64) -> Value {
    Value::Number(Number::from_float_bits(x.to_bits()).unwrap())
}

fn object(members: Vec<(&str, Value)>) -> Value {
    let mut o = Object::new();
    for (key, value) in members {
        o.insert(key.to_string(), value);
    }
    Value::Object(o)
}

fn example_schema() -> Ty {
    Ty::Struct {
        fields: vec![
            field("name", Ty::String),
            field("age", Ty::U64),
            field("hobbies", Ty::Array { inner: Box::new(Ty::String) }),
        ],
    }
}

fn example_value() -> Value {
    object(vec![
        ("name", text("Alexander")),
        ("age", uint(27)),
        ("hobbies", Value::Array(vec![text("Music"), text("Programming")])),
    ])
}

fn word(n: u64) -> Vec<u8> {
    n.to_le_bytes().to_vec()
}

#[test]
fn flat_scalars_are_fixed_width() {
    assert_eq!(encode_flat_alloc(&Ty::Bool, &Value::Bool(true)).unwrap(), vec![1]);
    assert_eq!(encode_flat_alloc(&Ty::Bool, &Value::Bool(false)).unwrap(), vec![0]);
    assert_eq!(
        encode_flat_alloc(&Ty::U64, &uint(258)).unwrap(),
        vec![2, 1, 0, 0, 0, 0, 0, 0]
    );
    let minus_two = Value::Number(Number::from_i64(-2));
    assert_eq!(
        encode_flat_alloc(&Ty::I64, &minus_two).unwrap(),
        vec![254, 255, 255, 255, 255, 255, 255, 255]
    );
    assert_eq!(decode_flat(&Ty::I64, &[254, 255, 255, 255, 255, 255, 255, 255]).unwrap(), minus_two);
    assert_eq!(
        encode_flat_alloc(&Ty::F64, &float(1.5)).unwrap(),
        vec![0, 0, 0, 0, 0, 0, 0xf8, 0x3f]
    );
    assert_eq!(decode_flat(&Ty::F64, &[0, 0, 0, 0, 0, 0, 0xf8, 0x3f]).unwrap(), float(1.5));
    assert_eq!(decode_flat(&Ty::U64, &word(u64::MAX)).unwrap(), uint(u64::MAX));
}

#[test]
fn flat_runs_have_an_eight_byte_length() {
    let mut expected = word(2);
    expected.extend_from_slice(b"hi");
    assert_eq!(encode_flat_alloc(&Ty::String, &text("hi")).unwrap(), expected);
    assert_eq!(decode_flat(&Ty::String, &expected).unwrap(), text("hi"));
    let bytes = Value::Array(vec![uint(7), uint(255)]);
    let mut expected = word(2);
    expected.extend_from_slice(&[7, 255]);
    assert_eq!(encode_flat_alloc(&Ty::Bytes, &bytes).unwrap(), expected);
    assert_eq!(decode_flat(&Ty::Bytes, &expected).unwrap(), bytes);
}

#[test]
fn the_example_is_positional_in_the_flat_layout() {
    let bytes = encode_flat_alloc(&example_schema(), &example_value()).unwrap();
    let mut expected = word(9);
    expected.extend_from_slice(b"Alexander");
    expected.extend_from_slice(&word(27));
    expected.extend_from_slice(&word(2));
    expected.extend_from_slice(&word(5));
    expected.extend_from_slice(b"Music");
    expected.extend_from_slice(&word(11));
    expected.extend_from_slice(b"Programming");
    assert_eq!(bytes, expected);
    assert_eq!(decode_flat(&example_schema(), &bytes).unwrap(), example_value());
}

#[test]
fn the_example_is_lossless_in_every_backend() {
    let ty = example_schema();
    let value = example_value();
    let reference = encode_tree(&ty, &value).unwrap();
    let flat = encode_flat_alloc(&ty, &value).unwrap();
    let variable = binc::serialize(&ty, &value).unwrap();
    assert_eq!(decode_tree(&ty, &reference).unwrap(), value);
    assert_eq!(decode_flat(&ty, &flat).unwrap(), value);
    assert_eq!(binc::deserialize(&ty, &variable).unwrap(), value);
    assert_eq!(reference, flat);
    assert_ne!(flat, variable);
    assert!(variable.len() < flat.len());
    assert!(binc::deserialize(&ty, &flat).ok() != Some(example_value()));
}

#[test]
fn validation_is_the_same_in_every_backend() {
    let ty = example_schema();
    let value = object(vec![("name", text("A")), ("age", text("old")), ("hobbies", uint(1))]);
    let a = binc::serialize(&ty, &value).unwrap_err();
    let b = encode_flat_alloc(&ty, &value).unwrap_err();
    let c = encode_tree(&ty, &value).unwrap_err();
    for e in [a, b, c] {
        assert!(matches!(
            e,
            Error::UnexpectedType { expected: "a non-negative integer", got: "a string" }
        ));
    }
}

#[test]
fn a_writer_appends_to_its_buffer() {
    let mut buf = FlatbinBuf::new();
    assert_eq!(buf.len(), 0);
    encode_flat(&Ty::Bool, &Value::Bool(true), Builder::new(&mut buf)).unwrap();
    encode_flat(&Ty::U64, &uint(3), Builder::new(&mut buf)).unwrap();
    assert_eq!(buf.as_bytes(), &[1, 3, 0, 0, 0, 0, 0, 0, 0]);
    assert_eq!(buf.len(), 9);
}

#[test]
fn a_session_can_write_and_start_over() {
    let mut buf = FlatbinBuf::new();
    {
        let mut writer = Builder::new(&mut buf);
        writer.write(&Ty::Bool, &Value::Bool(true)).unwrap();
        writer.write(&Ty::Bool, &Value::Bool(false)).unwrap();
        writer.reset();
        writer.write(&Ty::U64, &uint(1)).unwrap();
    }
    assert_eq!(buf.as_bytes(), &[1, 0, 0, 0, 0, 0, 0, 0]);
    buf.clear();
    assert_eq!(buf.len(), 0);
    encode_flat(&example_schema(), &example_value(), Builder::new(&mut buf)).unwrap();
    assert_eq!(buf.as_bytes(), encode_flat_alloc(&example_schema(), &example_value()).unwrap());
}

#[test]
fn a_failed_write_leaves_a_prefix_behind() {
    let ty = Ty::Struct { fields: vec![field("a", Ty::Bool), field("b", Ty::Bool)] };
    let value = object(vec![("a", Value::Bool(true)), ("b", uint(1))]);
    let mut buf = FlatbinBuf::new();
    let e = encode_flat(&ty, &value, Builder::new(&mut buf)).unwrap_err();
    assert!(matches!(e, Error::UnexpectedType { expected: "a boolean", got: "a number" }));
    assert_eq!(buf.as_bytes(), &[1]);
    assert!(encode_flat_alloc(&ty, &value).is_err());
    assert!(encode_tree(&ty, &value).is_err());
}

#[test]
fn flat_bytes_that_do_not_fit_are_refused() {
    assert!(matches!(decode_flat(&Ty::U64, &[1, 2, 3]), Err(Error::Serialization)));
    assert!(matches!(decode_flat(&Ty::Bool, &[2]), Err(Error::Serialization)));
    assert!(matches!(decode_flat(&Ty::Bool, &[]), Err(Error::Serialization)));
    let mut short = word(4);
    short.extend_from_slice(b"abc");
    assert!(matches!(decode_flat(&Ty::String, &short), Err(Error::Serialization)));
    let mut bad = word(1);
    bad.push(0xff);
    assert!(matches!(decode_flat(&Ty::String, &bad), Err(Error::Serialization)));
    assert!(matches!(decode_tree(&Ty::String, &bad), Err(Error::Serialization)));
    let mut long = word(1);
    long.push(9);
    assert!(matches!(
        decode_flat(&Ty::Array { inner: Box::new(Ty::U64) }, &long),
        Err(Error::Serialization)
    ));
}

#[test]
fn flat_bytes_left_over_are_refused() {
    let mut bytes = word(5);
    bytes.push(0);
    assert!(matches!(decode_flat(&Ty::U64, &bytes), Err(Error::Serialization)));
    assert!(matches!(decode_tree(&Ty::U64, &bytes), Err(Error::Serialization)));
    let (value, used) = decode_flat_prefix(&Ty::U64, &bytes).unwrap();
    assert_eq!(value, uint(5));
    assert_eq!(used, 8);
}

#[test]
fn nested_documents_round_trip_in_both_layouts() {
    let ty = Ty::Struct {
        fields: vec![
            field("id", Ty::I64),
            field("score", Ty::F64),
            field("blob", Ty::Bytes),
            field(
                "rows",
                Ty::Array {
                    inner: Box::new(Ty::Struct {
                        fields: vec![
                            field("ok", Ty::Bool),
                            field("tags", Ty::Array { inner: Box::new(Ty::String) }),
                        ],
                    }),
                },
            ),
        ],
    };
    let value = object(vec![
        ("rows", Value::Array(vec![
            object(vec![("tags", Value::Array(vec![text("a"), text("")])), ("ok", Value::Bool(true))]),
            object(vec![("ok", Value::Bool(false)), ("tags", Value::Array(vec![]))]),
        ])),
        ("blob", Value::Array(vec![uint(0), uint(255)])),
        ("score", float(-0.25)),
        ("id", Value::Number(Number::from_i64(-77))),
    ]);
    let flat = encode_flat_alloc(&ty, &value).unwrap();
    assert_eq!(decode_flat(&ty, &flat).unwrap(), value);
    let variable = binc::serialize(&ty, &value).unwrap();
    assert_eq!(binc::deserialize(&ty, &variable).unwrap(), value);
}
