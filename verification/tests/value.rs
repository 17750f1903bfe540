use nt_client::error::Error;
use nt_client::message_type::Type;
use nt_client::value::{decode_value, encode_value, read_value, value_fits, write_value, Value};

const ALL: [Type; 15] = [
    Type::Boolean,
    Type::Double,
    Type::Int,
    Type::Float,
    Type::String,
    Type::Json,
    Type::Raw,
    Type::Rpc,
    Type::MsgPack,
    Type::ProtoBuf,
    Type::BooleanArray,
    Type::DoubleArray,
    Type::IntArray,
    Type::FloatArray,
    Type::StringArray,
];

fn samples() -> Vec<(Type, Value)> {
    vec![
        (Type::Boolean, Value::Boolean(true)),
        (Type::Boolean, Value::Boolean(false)),
        (Type::Double, Value::Double(21.5f64.to_bits())),
        (Type::Double, Value::Double(f64::NAN.to_bits())),
        (Type::Double, Value::Double((-0.0f64).to_bits())),
        (Type::Int, Value::Int(0)),
        (Type::Int, Value::Int(-1)),
        (Type::Int, Value::Int(i64::MIN)),
        (Type::Int, Value::Int(i64::MAX)),
        (Type::Float, Value::Float(1.25f32.to_bits())),
        (Type::Float, Value::Float(f32::INFINITY.to_bits())),
        (Type::String, Value::String(String::new())),
        (Type::String, Value::String("hello".to_string())),
        (Type::String, Value::String("caf\u{e9} \u{1f600}".to_string())),
        (Type::Json, Value::String("{\"a\":1}".to_string())),
        (Type::Raw, Value::Raw(vec![])),
        (Type::Raw, Value::Raw(vec![0, 255, 1, 254])),
        (Type::Rpc, Value::Raw(vec![1])),
        (Type::MsgPack, Value::Raw(vec![0x92, 1, 2])),
        (Type::ProtoBuf, Value::Raw(vec![8, 1])),
        (Type::BooleanArray, Value::BooleanArray(vec![])),
        (Type::BooleanArray, Value::BooleanArray(vec![true, false, true])),
        (Type::DoubleArray, Value::DoubleArray(vec![])),
        (Type::DoubleArray, Value::DoubleArray(vec![1.0f64.to_bits(), (-2.5f64).to_bits()])),
        (Type::IntArray, Value::IntArray(vec![])),
        (Type::IntArray, Value::IntArray(vec![1, -2, i64::MAX, i64::MIN])),
        (Type::FloatArray, Value::FloatArray(vec![])),
        (Type::FloatArray, Value::FloatArray(vec![0.5f32.to_bits(), 3.0f32.to_bits()])),
        (Type::StringArray, Value::StringArray(vec![])),
        (Type::StringArray, Value::StringArray(vec![String::new()])),
        (
            Type::StringArray,
            Value::StringArray(vec!["a".to_string(), String::new(), "b\u{e9}c".to_string()]),
        ),
    ]
}

#[test]
fn decoding_an_encoding_gives_the_value_back() {
    for (t, v) in samples() {
        let bytes = encode_value(t, &v).unwrap();
        assert_eq!(decode_value(t, &bytes).unwrap(), v, "{:?}", t);
    }
}

#[test]
fn a_double_survives_as_the_same_number() {
    let bytes = encode_value(Type::Double, &Value::Double(21.5f64.to_bits())).unwrap();
    match decode_value(Type::Double, &bytes).unwrap() {
        Value::Double(bits) => assert_eq!(f64::from_bits(bits), 21.5),
        other => panic!("unexpected {:?}", other),
    }
}

#[test]
fn scalars_have_their_fixed_layout() {
    assert_eq!(encode_value(Type::Boolean, &Value::Boolean(true)).unwrap(), vec![1]);
    assert_eq!(encode_value(Type::Boolean, &Value::Boolean(false)).unwrap(), vec![0]);
    assert_eq!(
        encode_value(Type::Int, &Value::Int(0x0102030405060708)).unwrap(),
        vec![8, 7, 6, 5, 4, 3, 2, 1]
    );
    assert_eq!(encode_value(Type::Int, &Value::Int(-2)).unwrap(), vec![254, 255, 255, 255, 255, 255, 255, 255]);
    assert_eq!(
        encode_value(Type::Double, &Value::Double(21.5f64.to_bits())).unwrap(),
        21.5f64.to_le_bytes().to_vec()
    );
    assert_eq!(
        encode_value(Type::Float, &Value::Float(1.25f32.to_bits())).unwrap(),
        1.25f32.to_le_bytes().to_vec()
    );
}

#[test]
fn texts_and_bytes_stand_behind_their_length() {
    assert_eq!(
        encode_value(Type::String, &Value::String("hi".to_string())).unwrap(),
        vec![2, 0, 0, 0, 0, 0, 0, 0, b'h', b'i']
    );
    assert_eq!(
        encode_value(Type::String, &Value::String("\u{e9}".to_string())).unwrap(),
        vec![2, 0, 0, 0, 0, 0, 0, 0, 0xc3, 0xa9]
    );
    assert_eq!(encode_value(Type::Json, &Value::String(String::new())).unwrap(), vec![0; 8]);
    assert_eq!(
        encode_value(Type::Raw, &Value::Raw(vec![9, 8, 7])).unwrap(),
        vec![3, 0, 0, 0, 0, 0, 0, 0, 9, 8, 7]
    );
}

#[test]
fn arrays_stand_behind_their_count() {
    assert_eq!(
        encode_value(Type::BooleanArray, &Value::BooleanArray(vec![true, false])).unwrap(),
        vec![2, 0, 0, 0, 0, 0, 0, 0, 1, 0]
    );
    assert_eq!(
        encode_value(Type::IntArray, &Value::IntArray(vec![1, -1])).unwrap(),
        vec![2, 0, 0, 0, 0, 0, 0, 0, 1, 0, 0, 0, 0, 0, 0, 0, 255, 255, 255, 255, 255, 255, 255, 255]
    );
    assert_eq!(
        encode_value(Type::FloatArray, &Value::FloatArray(vec![1, 2])).unwrap(),
        vec![2, 0, 0, 0, 0, 0, 0, 0, 1, 0, 0, 0, 2, 0, 0, 0]
    );
    assert_eq!(
        encode_value(Type::DoubleArray, &Value::DoubleArray(vec![3])).unwrap(),
        vec![1, 0, 0, 0, 0, 0, 0, 0, 3, 0, 0, 0, 0, 0, 0, 0]
    );
    assert_eq!(
        encode_value(
            Type::StringArray,
            &Value::StringArray(vec!["a".to_string(), String::new(), "bc".to_string()])
        )
        .unwrap(),
        vec![
            3, 0, 0, 0, 0, 0, 0, 0, 1, 0, 0, 0, 0, 0, 0, 0, b'a', 0, 0, 0, 0, 0, 0, 0, 0, 2, 0, 0,
            0, 0, 0, 0, 0, b'b', b'c'
        ]
    );
    assert_eq!(encode_value(Type::StringArray, &Value::StringArray(vec![])).unwrap(), vec![0; 8]);
}

#[test]
fn a_value_fits_the_types_of_its_code_only() {
    for (t, v) in samples() {
        for other in ALL {
            let same = other.to_wire_code() == t.to_wire_code();
            assert_eq!(value_fits(other, &v), same);
            match encode_value(other, &v) {
                Ok(_) => assert!(same),
                Err(Error::InvalidMessageType(_)) => assert!(!same),
                Err(e) => panic!("unexpected {:?}", e),
            }
        }
    }
}

#[test]
fn truncated_input_is_a_codec_failure() {
    for (t, v) in samples() {
        let bytes = encode_value(t, &v).unwrap();
        for cut in 0..bytes.len() {
            match decode_value(t, &bytes[..cut]) {
                Err(Error::RmpError(_)) => {}
                other => panic!("{:?} cut at {}: {:?}", t, cut, other),
            }
        }
    }
}

#[test]
fn trailing_bytes_are_a_codec_failure() {
    for (t, v) in samples() {
        let mut bytes = encode_value(t, &v).unwrap();
        bytes.push(0);
        assert!(matches!(decode_value(t, &bytes), Err(Error::RmpError(_))), "{:?}", t);
    }
}

#[test]
fn malformed_input_is_a_codec_failure() {
    assert!(matches!(decode_value(Type::Boolean, &[2]), Err(Error::RmpError(_))));
    assert!(matches!(
        decode_value(Type::BooleanArray, &[1, 0, 0, 0, 0, 0, 0, 0, 7]),
        Err(Error::RmpError(_))
    ));
    assert!(matches!(
        decode_value(Type::String, &[1, 0, 0, 0, 0, 0, 0, 0, 0xff]),
        Err(Error::RmpError(_))
    ));
    assert!(matches!(
        decode_value(Type::StringArray, &[1, 0, 0, 0, 0, 0, 0, 0, 1, 0, 0, 0, 0, 0, 0, 0, 0xc3]),
        Err(Error::RmpError(_))
    ));
    // Lengths and counts that the input cannot hold.
    let huge = [255u8; 8];
    for t in [
        Type::String,
        Type::Raw,
        Type::BooleanArray,
        Type::DoubleArray,
        Type::IntArray,
        Type::FloatArray,
        Type::StringArray,
    ] {
        assert!(matches!(decode_value(t, &huge), Err(Error::RmpError(_))), "{:?}", t);
        let mut more = huge.to_vec();
        more.extend_from_slice(&[0; 32]);
        assert!(matches!(decode_value(t, &more), Err(Error::RmpError(_))), "{:?}", t);
    }
    let mut count = (1u64 << 61).to_le_bytes().to_vec();
    count.extend_from_slice(&[0; 16]);
    assert!(matches!(decode_value(Type::DoubleArray, &count), Err(Error::RmpError(_))));
    let mut count = (1u64 << 62).to_le_bytes().to_vec();
    count.extend_from_slice(&[0; 16]);
    assert!(matches!(decode_value(Type::FloatArray, &count), Err(Error::RmpError(_))));
}

#[test]
fn the_codec_failure_says_what_it_is() {
    match decode_value(Type::Int, &[1, 2, 3]) {
        Err(Error::RmpError(s)) => assert_eq!(s, "malformed value"),
        other => panic!("unexpected {:?}", other),
    }
}

#[test]
fn values_are_read_one_behind_the_other() {
    let mut bytes = vec![0xaa];
    write_value(&mut bytes, &Value::String("ab".to_string()));
    write_value(&mut bytes, &Value::Int(5));
    write_value(&mut bytes, &Value::BooleanArray(vec![true]));
    let (a, at) = read_value(Type::String, &bytes, 1).unwrap();
    assert_eq!(a, Value::String("ab".to_string()));
    assert_eq!(at, 11);
    let (b, at) = read_value(Type::Int, &bytes, at).unwrap();
    assert_eq!(b, Value::Int(5));
    assert_eq!(at, 19);
    let (c, at) = read_value(Type::BooleanArray, &bytes, at).unwrap();
    assert_eq!(c, Value::BooleanArray(vec![true]));
    assert_eq!(at, bytes.len());
    assert!(read_value(Type::Boolean, &bytes, at).is_none());
}

#[test]
fn invalid_utf8_is_not_a_text() {
    let mut bytes = 2u64.to_le_bytes().to_vec();
    bytes.extend_from_slice(&[0xed, 0xa0]);
    assert!(decode_value(Type::String, &bytes).is_err());
    assert_eq!(decode_value(Type::Raw, &bytes).unwrap(), Value::Raw(vec![0xed, 0xa0]));
}
