use nt_client::error::Error;
use nt_client::message_type::Type;
use nt_client::messages::{decode_frame, encode_record, read_record, write_record, ControlKind, Record};
use nt_client::value::Value;

const KINDS: [(ControlKind, &str, bool); 8] = [
    (ControlKind::Publish, "publish", false),
    (ControlKind::Unpublish, "unpublish", false),
    (ControlKind::SetProperties, "setproperties", false),
    (ControlKind::Subscribe, "subscribe", false),
    (ControlKind::Unsubscribe, "unsubscribe", false),
    (ControlKind::Announce, "announce", true),
    (ControlKind::Unannounce, "unannounce", true),
    (ControlKind::Properties, "properties", true),
];

#[test]
fn kinds_of_control_messages_have_their_words() {
    for (kind, word, from_server) in KINDS {
        assert_eq!(kind.as_str(), word);
        assert_eq!(ControlKind::from_text(word).unwrap(), kind);
        assert_eq!(kind.from_server(), from_server);
    }
}

#[test]
fn an_unknown_kind_is_reported() {
    for word in ["", "Publish", "announce ", "publish2", "sub", "ack"] {
        match ControlKind::from_text(word) {
            Err(Error::InvalidMessageType(_)) => {}
            other => panic!("{:?}: {:?}", word, other),
        }
    }
}

#[test]
fn a_record_has_its_layout() {
    let bytes = encode_record(3, 0x0102, Type::Double, &Value::Double(21.5f64.to_bits())).unwrap();
    let mut expected = vec![3, 0, 0, 0, 0, 0, 0, 0, 2, 1, 0, 0, 0, 0, 0, 0, 1];
    expected.extend_from_slice(&21.5f64.to_le_bytes());
    assert_eq!(bytes, expected);
}

#[test]
fn a_record_that_does_not_fit_is_refused() {
    assert!(matches!(
        encode_record(3, 0, Type::Int, &Value::Double(0)),
        Err(Error::InvalidMessageType(_))
    ));
}

#[test]
fn a_frame_of_records_is_read_in_order() {
    let mut bytes = Vec::new();
    write_record(&mut bytes, 1, 10, Type::Int, &Value::Int(-5));
    write_record(&mut bytes, 2, 11, Type::Json, &Value::String("{}".to_string()));
    write_record(&mut bytes, 3, 12, Type::MsgPack, &Value::Raw(vec![1, 2]));
    write_record(&mut bytes, 4, 13, Type::StringArray, &Value::StringArray(vec![]));
    let records = decode_frame(&bytes).unwrap();
    assert_eq!(
        records,
        vec![
            Record { topic_id: 1, timestamp: 10, ty: Type::Int, value: Value::Int(-5) },
            Record { topic_id: 2, timestamp: 11, ty: Type::String, value: Value::String("{}".to_string()) },
            Record { topic_id: 3, timestamp: 12, ty: Type::Raw, value: Value::Raw(vec![1, 2]) },
            Record { topic_id: 4, timestamp: 13, ty: Type::StringArray, value: Value::StringArray(vec![]) },
        ]
    );
}

#[test]
fn an_empty_frame_holds_no_record() {
    assert_eq!(decode_frame(&[]).unwrap(), vec![]);
}

#[test]
fn a_record_of_an_unknown_code_is_reported_with_the_code() {
    let mut bytes = Vec::new();
    write_record(&mut bytes, 1, 10, Type::Int, &Value::Int(-5));
    let mut bad = vec![0u8; 16];
    bad.push(6);
    bad.extend_from_slice(&[0; 8]);
    bytes.extend_from_slice(&bad);
    match decode_frame(&bytes) {
        Err(Error::InvalidMessageNumber(n)) => assert_eq!(n, 6),
        other => panic!("unexpected {:?}", other),
    }
    match read_record(&bad, 0) {
        Err(Error::InvalidMessageNumber(n)) => assert_eq!(n, 6),
        other => panic!("unexpected {:?}", other),
    }
}

#[test]
fn a_truncated_frame_is_a_codec_failure() {
    let mut bytes = Vec::new();
    write_record(&mut bytes, 1, 10, Type::Int, &Value::Int(-5));
    write_record(&mut bytes, 2, 11, Type::String, &Value::String("abc".to_string()));
    for cut in 1..bytes.len() {
        if cut == 25 {
            assert_eq!(decode_frame(&bytes[..cut]).unwrap().len(), 1);
        } else {
            match decode_frame(&bytes[..cut]) {
                Err(Error::RmpError(s)) => assert_eq!(s, "malformed record"),
                other => panic!("cut at {}: {:?}", cut, other),
            }
        }
    }
}

#[test]
fn records_are_read_from_a_place() {
    let mut bytes = vec![9, 9];
    write_record(&mut bytes, 7, 1, Type::Boolean, &Value::Boolean(true));
    let (record, end) = read_record(&bytes, 2).unwrap();
    assert_eq!(record, Record { topic_id: 7, timestamp: 1, ty: Type::Boolean, value: Value::Boolean(true) });
    assert_eq!(end, 20);
}
