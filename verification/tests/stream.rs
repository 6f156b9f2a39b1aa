use dyn_schema::error::Error;
use dyn_schema::fast::{decode_stream, encode_stream, materialize, tokens_of, Token};
use dyn_schema::flatbin::{decode_flat, encode_flat_alloc, Builder, FlatbinBuf};
use dyn_schema::slow::{decode_tree, encode_tree};
use dyn_schema::ty::{Field, Ty};
use dyn_schema::value::{Number, Object, Value};

fn field(name: &str, ty: Ty) -> Field {
    Field { name: name.to_string(), ty }
}

fn text(s: &str) -> Value {
    Value::String(s.to_string())
}

fn uint(n: u64) -> Value {
    Value::Number(Number::from_u64(n))
}

fn object(members: Vec<(&str, Value)>) -> Value {
    let mut o = Object::new();
    for (key, value) in members {
        o.insert(key.to_string(), value);
    }
    Value::Object(o)
}

fn key(s: &str) -> Token {
    Token::Key(s.to_string())
}

fn word_token(s: &str) -> Token {
    Token::String(s.to_string())
}

fn number_token(n: u64) -> Token {
    Token::Number(Number::from_u64(n))
}

fn example_schema() -> Ty {
    Ty::Struct {
        fields: vec![
            field("name", Ty::String),
            field("age", Ty::U64),
            field("hobbies", Ty::Array { inner: Box::new(Ty::String) }),
        ],
    }
}

fn example_value() -> Value {
    object(vec![
        ("name", text("Alexander")),
        ("age", uint(27)),
        ("hobbies", Value::Array(vec![text("Music"), text("Programming")])),
    ])
}

fn example_tokens() -> Vec<Token> {
    vec![
        Token::StartObject,
        key("hobbies"),
        Token::StartArray,
        word_token("Music"),
        word_token("Programming"),
        Token::EndArray,
        key("age"),
        number_token(27),
        key("name"),
        word_token("Alexander"),
        Token::EndObject,
    ]
}

fn stream(ty: &Ty, tokens: &[Token]) -> Result<Vec<u8>, Error> {
    let mut buf = FlatbinBuf::new();
    encode_stream(ty, tokens, Builder::new(&mut buf))?;
    Ok(buf.as_bytes().to_vec())
}

fn shown(tokens: &[Token]) -> String {
    format!("{:?}", tokens)
}

#[test]
fn a_stream_encodes_as_its_document_does() {
    let bytes = stream(&example_schema(), &example_tokens()).unwrap();
    assert_eq!(bytes, encode_tree(&example_schema(), &example_value()).unwrap());
    assert_eq!(bytes, encode_flat_alloc(&example_schema(), &example_value()).unwrap());
    assert_eq!(decode_flat(&example_schema(), &bytes).unwrap(), example_value());
    assert_eq!(materialize(&example_tokens()).unwrap(), example_value());
}

#[test]
fn the_count_of_an_array_is_filled_in() {
    let ty = Ty::Array { inner: Box::new(Ty::Bool) };
    let tokens = vec![Token::StartArray, Token::Bool(true), Token::Bool(false), Token::EndArray];
    assert_eq!(stream(&ty, &tokens).unwrap(), vec![2, 0, 0, 0, 0, 0, 0, 0, 1, 0]);
    let empty = vec![Token::StartArray, Token::EndArray];
    assert_eq!(stream(&ty, &empty).unwrap(), vec![0; 8]);
    let bytes = vec![Token::StartArray, number_token(9), number_token(255), Token::EndArray];
    assert_eq!(stream(&Ty::Bytes, &bytes).unwrap(), vec![2, 0, 0, 0, 0, 0, 0, 0, 9, 255]);
}

#[test]
fn a_stream_is_appended_to_the_buffer() {
    let mut buf = FlatbinBuf::new();
    encode_stream(&Ty::Bool, &[Token::Bool(true)], Builder::new(&mut buf)).unwrap();
    let list = Ty::Array { inner: Box::new(Ty::Bool) };
    let tokens = vec![Token::StartArray, Token::Bool(false), Token::EndArray];
    encode_stream(&list, &tokens, Builder::new(&mut buf)).unwrap();
    assert_eq!(buf.as_bytes(), &[1, 1, 0, 0, 0, 0, 0, 0, 0, 0]);
}

#[test]
fn a_flat_buffer_decodes_to_a_stream_in_schema_order() {
    let bytes = encode_flat_alloc(&example_schema(), &example_value()).unwrap();
    let mut sink = vec![Token::Null];
    decode_stream(&example_schema(), &bytes, &mut sink).unwrap();
    let expected = vec![
        Token::Null,
        Token::StartObject,
        key("name"),
        word_token("Alexander"),
        key("age"),
        number_token(27),
        key("hobbies"),
        Token::StartArray,
        word_token("Music"),
        word_token("Programming"),
        Token::EndArray,
        Token::EndObject,
    ];
    assert_eq!(shown(&sink), shown(&expected));
    assert_eq!(materialize(&sink[1..]).unwrap(), decode_tree(&example_schema(), &bytes).unwrap());
}

#[test]
fn scalars_and_bytes_decode_to_their_tokens() {
    let mut sink = Vec::new();
    decode_stream(&Ty::Bytes, &[2, 0, 0, 0, 0, 0, 0, 0, 9, 255], &mut sink).unwrap();
    let expected = vec![Token::StartArray, number_token(9), number_token(255), Token::EndArray];
    assert_eq!(shown(&sink), shown(&expected));
    let mut sink = Vec::new();
    decode_stream(&Ty::F64, &f64::NAN.to_bits().to_le_bytes(), &mut sink).unwrap();
    assert_eq!(shown(&sink), shown(&[Token::Null]));
    let mut sink = Vec::new();
    decode_stream(&Ty::I64, &(-3i64).to_le_bytes(), &mut sink).unwrap();
    assert_eq!(shown(&sink), shown(&[Token::Number(Number::from_i64(-3))]));
}

#[test]
fn a_bad_buffer_is_refused_by_the_streaming_decoder() {
    let mut sink = Vec::new();
    assert!(matches!(decode_stream(&Ty::U64, &[1, 2], &mut sink), Err(Error::Serialization)));
    assert!(sink.is_empty());
    let mut trailing = 5u64.to_le_bytes().to_vec();
    trailing.push(1);
    assert!(matches!(decode_stream(&Ty::U64, &trailing, &mut sink), Err(Error::Serialization)));
    let pair = Ty::Struct { fields: vec![field("a", Ty::Bool), field("b", Ty::Bool)] };
    let mut sink = vec![Token::Null];
    assert!(matches!(decode_stream(&pair, &[1], &mut sink), Err(Error::Serialization)));
    assert!(matches!(sink[0], Token::Null));
}

#[test]
fn a_broken_stream_is_refused_and_nothing_is_written() {
    let broken: Vec<Vec<Token>> = vec![
        vec![],
        vec![Token::StartArray, Token::Bool(true)],
        vec![Token::StartObject, key("a")],
        vec![Token::StartObject, Token::Bool(true), Token::EndObject],
        vec![Token::StartArray, key("a"), Token::Bool(true), Token::EndArray],
        vec![Token::EndArray],
        vec![Token::Bool(true), Token::Bool(true)],
        vec![Token::StartArray, Token::EndObject],
        vec![key("a"), Token::Bool(true)],
    ];
    for tokens in &broken {
        let mut buf = FlatbinBuf::new();
        encode_stream(&Ty::Bool, &[Token::Bool(true)], Builder::new(&mut buf)).unwrap();
        let outcome = encode_stream(&Ty::Bool, tokens, Builder::new(&mut buf));
        assert!(matches!(outcome, Err(Error::Serialization)));
        assert_eq!(buf.as_bytes(), &[1]);
        assert!(matches!(materialize(tokens), Err(Error::Serialization)));
    }
}

#[test]
fn a_stream_fails_as_its_document_does() {
    let ty = Ty::Struct {
        fields: vec![field("a", Ty::U64), field("b", Ty::U64), field("c", Ty::U64)],
    };
    let tokens = vec![
        Token::StartObject,
        key("x"),
        number_token(3),
        key("b"),
        number_token(2),
        key("a"),
        number_token(1),
        Token::EndObject,
    ];
    let value = materialize(&tokens).unwrap();
    let by_tree = encode_tree(&ty, &value).unwrap_err();
    let by_stream = stream(&ty, &tokens).unwrap_err();
    assert_eq!(format!("{:?}", by_stream).len(), format!("{:?}", by_tree).len());
    match by_stream {
        Error::FieldMismatch { expected_len, got_len, missing, extra, .. } => {
            assert_eq!(expected_len, 3);
            assert_eq!(got_len, 3);
            assert_eq!(missing.len(), 1);
            assert!(missing.contains("c"));
            assert_eq!(extra.len(), 1);
            assert!(extra.contains("x"));
        }
        _ => panic!("no field mismatch"),
    }
    let short = vec![Token::StartObject, key("a"), number_token(1), Token::EndObject];
    assert!(matches!(
        stream(&ty, &short),
        Err(Error::FieldMismatch { expected_len: 3, got_len: 1, .. })
    ));
    let wrong = vec![Token::StartArray, Token::EndArray];
    assert!(matches!(
        stream(&ty, &wrong),
        Err(Error::UnexpectedType { expected: "an object", got: "an array" })
    ));
    let bytes = vec![Token::StartArray, number_token(300), Token::EndArray];
    assert!(matches!(stream(&Ty::Bytes, &bytes), Err(Error::NotAByte)));
    let nested = vec![Token::StartArray, Token::StartArray, Token::EndArray, Token::EndArray];
    assert!(matches!(stream(&Ty::Bytes, &nested), Err(Error::NotAByte)));
    assert!(matches!(
        stream(&Ty::U64, &[Token::Number(Number::from_i64(-1))]),
        Err(Error::UnexpectedType { expected: "a non-negative integer", got: "a number" })
    ));
    assert!(matches!(
        stream(&Ty::String, &[Token::Null]),
        Err(Error::UnexpectedType { expected: "a string", got: "null" })
    ));
}

#[test]
fn a_stream_with_other_keys_fails_before_any_value_is_read() {
    let ty = Ty::Struct {
        fields: vec![field("a", Ty::U64), field("b", Ty::U64), field("c", Ty::U64)],
    };
    let tokens = vec![
        Token::StartObject,
        key("a"),
        word_token("x"),
        key("b"),
        number_token(1),
        key("d"),
        number_token(2),
        Token::EndObject,
    ];
    let mut buf = FlatbinBuf::new();
    encode_stream(&Ty::Bool, &[Token::Bool(true)], Builder::new(&mut buf)).unwrap();
    match encode_stream(&ty, &tokens, Builder::new(&mut buf)) {
        Err(Error::FieldMismatch { expected_len, got_len, missing, extra, .. }) => {
            assert_eq!(expected_len, 3);
            assert_eq!(got_len, 3);
            assert_eq!(missing.len(), 1);
            assert!(missing.contains("c"));
            assert_eq!(extra.len(), 1);
            assert!(extra.contains("d"));
        }
        _ => panic!("no field mismatch"),
    }
    assert_eq!(buf.as_bytes(), &[1]);
    let value = materialize(&tokens).unwrap();
    assert!(matches!(encode_tree(&ty, &value), Err(Error::FieldMismatch { .. })));
    let twice = Ty::Struct { fields: vec![field("a", Ty::U64), field("a", Ty::U64)] };
    let tokens =
        vec![Token::StartObject, key("a"), number_token(1), key("b"), number_token(2), Token::EndObject];
    assert!(matches!(
        stream(&twice, &tokens),
        Err(Error::FieldMismatch { expected_len: 2, got_len: 2, .. })
    ));
}

#[test]
fn of_two_members_with_one_key_the_later_counts() {
    let ty = Ty::Struct { fields: vec![field("a", Ty::U64)] };
    let tokens = vec![
        Token::StartObject,
        key("a"),
        word_token("first"),
        key("a"),
        number_token(2),
        Token::EndObject,
    ];
    assert_eq!(materialize(&tokens).unwrap(), object(vec![("a", uint(2))]));
    assert_eq!(stream(&ty, &tokens).unwrap(), 2u64.to_le_bytes().to_vec());
}

#[test]
fn a_value_and_its_stream_stand_for_each_other() {
    let value = object(vec![
        ("z", Value::Null),
        ("list", Value::Array(vec![uint(1), object(vec![]), Value::Array(vec![])])),
        ("flag", Value::Bool(false)),
    ]);
    let tokens = tokens_of(&value);
    assert_eq!(tokens.len(), 14);
    assert!(matches!(tokens[0], Token::StartObject));
    assert!(matches!(tokens[13], Token::EndObject));
    assert_eq!(materialize(&tokens).unwrap(), value);
    assert_eq!(shown(&tokens_of(&uint(4))), shown(&[number_token(4)]));
}

#[test]
fn streaming_and_the_reference_codec_agree_both_ways() {
    let ty = Ty::Struct {
        fields: vec![
            field("rows", Ty::Array {
                inner: Box::new(Ty::Struct {
                    fields: vec![field("id", Ty::I64), field("raw", Ty::Bytes)],
                }),
            }),
            field("label", Ty::String),
        ],
    };
    let value = object(vec![
        ("label", text("t")),
        ("rows", Value::Array(vec![
            object(vec![
                ("raw", Value::Array(vec![uint(1), uint(2)])),
                ("id", Value::Number(Number::from_i64(-5))),
            ]),
            object(vec![("id", uint(6)), ("raw", Value::Array(vec![]))]),
        ])),
    ]);
    let bytes = stream(&ty, &tokens_of(&value)).unwrap();
    assert_eq!(bytes, encode_tree(&ty, &value).unwrap());
    assert_eq!(decode_flat(&ty, &bytes).unwrap(), value);
    let mut sink = Vec::new();
    decode_stream(&ty, &bytes, &mut sink).unwrap();
    assert_eq!(materialize(&sink).unwrap(), decode_tree(&ty, &bytes).unwrap());
    assert_eq!(materialize(&sink).unwrap(), value);
}
