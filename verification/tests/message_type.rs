use nt_client::error::Error;
use nt_client::message_type::Type;

const ALL: [Type; 15] = [
    Type::Boolean,
    Type::Double,
    Type::Int,
    Type::Float,
    Type::String,
    Type::Json,
    Type::Raw,
    Type::Rpc,
    Type::MsgPack,
    Type::ProtoBuf,
    Type::BooleanArray,
    Type::DoubleArray,
    Type::IntArray,
    Type::FloatArray,
    Type::StringArray,
];

const NAMES: [&str; 15] = [
    "boolean",
    "double",
    "int",
    "float",
    "string",
    "json",
    "raw",
    "rpc",
    "msgpack",
    "protobuf",
    "boolean[]",
    "double[]",
    "int[]",
    "float[]",
    "string[]",
];

const CODES: [u8; 15] = [0, 1, 2, 3, 4, 4, 5, 5, 5, 5, 16, 17, 18, 19, 20];

#[test]
fn wire_codes_follow_the_table() {
    for i in 0..15 {
        assert_eq!(ALL[i].to_wire_code(), CODES[i]);
        let via_into: u8 = ALL[i].into();
        assert_eq!(via_into, CODES[i]);
    }
}

#[test]
fn names_follow_the_table() {
    for i in 0..15 {
        assert_eq!(ALL[i].to_text(), NAMES[i]);
        assert_eq!(ALL[i].to_string(), NAMES[i]);
        assert_eq!(ALL[i].as_str(), NAMES[i]);
    }
}

#[test]
fn text_round_trip_is_exact() {
    for t in ALL {
        assert_eq!(Type::from_text(&t.to_text()).unwrap(), t);
        assert_eq!(Type::try_from(t.to_text().as_str()).unwrap(), t);
        assert_eq!(Type::try_from(t.to_text()).unwrap(), t);
    }
}

#[test]
fn names_are_pairwise_distinct() {
    for i in 0..15 {
        for j in 0..15 {
            if i != j {
                assert_ne!(ALL[i].to_text(), ALL[j].to_text());
            }
        }
    }
}

#[test]
fn code_round_trip_is_lossy_for_shared_codes() {
    assert_eq!(Type::from_wire_code(Type::String.to_wire_code()).unwrap(), Type::String);
    assert_eq!(Type::from_wire_code(Type::Json.to_wire_code()).unwrap(), Type::String);
    assert_eq!(Type::from_wire_code(Type::Raw.to_wire_code()).unwrap(), Type::Raw);
    assert_eq!(Type::from_wire_code(Type::Rpc.to_wire_code()).unwrap(), Type::Raw);
    assert_eq!(Type::from_wire_code(Type::MsgPack.to_wire_code()).unwrap(), Type::Raw);
    assert_eq!(Type::from_wire_code(Type::ProtoBuf.to_wire_code()).unwrap(), Type::Raw);
}

#[test]
fn code_round_trip_is_exact_for_unshared_codes() {
    for t in [
        Type::Boolean,
        Type::Double,
        Type::Int,
        Type::Float,
        Type::String,
        Type::Raw,
        Type::BooleanArray,
        Type::DoubleArray,
        Type::IntArray,
        Type::FloatArray,
        Type::StringArray,
    ] {
        assert_eq!(Type::from_wire_code(t.to_wire_code()).unwrap(), t);
        assert_eq!(Type::try_from(t.to_wire_code() as u64).unwrap(), t);
    }
}

#[test]
fn every_other_code_is_refused() {
    for x in 0..=255u8 {
        let valid = x <= 5 || (16..=20).contains(&x);
        match Type::from_wire_code(x) {
            Ok(t) => {
                assert!(valid);
                assert_eq!(t.to_wire_code(), x);
            }
            Err(Error::InvalidMessageNumber(n)) => {
                assert!(!valid);
                assert_eq!(n, x as u64);
            }
            Err(_) => panic!("wrong error for code {}", x),
        }
    }
}

#[test]
fn large_numbers_are_refused_with_the_number() {
    for x in [21u64, 256, 260, 1 << 32, u64::MAX] {
        match Type::from_number(x) {
            Err(Error::InvalidMessageNumber(n)) => assert_eq!(n, x),
            _ => panic!("{} was not refused", x),
        }
        assert!(matches!(Type::try_from(x), Err(Error::InvalidMessageNumber(n)) if n == x));
    }
}

#[test]
fn other_strings_are_refused_with_the_string() {
    for s in ["", "Boolean", "INT", "int ", " int", "int[] ", "bool", "string[", "double[]x", "msgPack", "float[][]", "caf\u{e9}"] {
        match Type::from_text(s) {
            Err(Error::InvalidMessageString(kept)) => assert_eq!(kept, s),
            _ => panic!("{:?} was not refused", s),
        }
        assert!(matches!(Type::try_from(s), Err(Error::InvalidMessageString(_))));
        assert!(matches!(Type::try_from(s.to_string()), Err(Error::InvalidMessageString(_))));
    }
}
