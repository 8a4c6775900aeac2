use resp_store::resp::{FrameError, RespData};

fn bytes_of(d: &RespData) -> Vec<u8> {
    d.as_bytes()
}

fn round_trip(d: RespData) {
    let mut wire = d.as_bytes();
    let frame_len = wire.len();
    wire.extend_from_slice(b"+next\r\n");
    let (back, used) = RespData::decode(&wire).unwrap();
    assert_eq!(used, frame_len);
    assert_eq!(bytes_of(&back), bytes_of(&d));
}

#[test]
fn test_parse_simple_string() {
    let mut data = b"+OK\r\n".as_ref();
    let resp = RespData::parse_simple_string(&mut data).unwrap();
    let RespData::SimpleString(s) = resp else {
        panic!("Expected SimpleString, got {resp:?}");
    };
    assert_eq!(s, "OK");
    assert!(data.is_empty());
}

#[test]
fn test_parse_simple_error() {
    let mut data = b"-Error message\r\n".as_ref();
    let resp = RespData::parse_simple_error(&mut data).unwrap();
    let RespData::SimpleError { kind, message } = resp else {
        panic!("Expected SimpleError, got {resp:?}");
    };
    assert_eq!(kind, "Error");
    assert_eq!(message, "message");
    assert!(data.is_empty());
}

#[test]
fn test_parse_integer() {
    let mut data = b":42\r\n".as_ref();
    let resp = RespData::parse_integer(&mut data).unwrap();
    let RespData::Integer(num) = resp else {
        panic!("Expected Integer, got {resp:?}");
    };
    assert_eq!(num, 42);
    assert!(data.is_empty());
}

#[test]
fn test_parse_bulk_string() {
    let mut data = b"$5\r\nHello\r\n".as_ref();
    let resp = RespData::parse_bulk_string(&mut data).unwrap();
    let RespData::BulkString(Some(s)) = resp else {
        panic!("Expected BulkString, got {resp:?}");
    };
    assert_eq!(s, "Hello".as_bytes());
    assert!(data.is_empty());
}

#[test]
fn test_parse_array() {
    let mut data = b"*3\r\n_\r\n_\r\n_\r\n".as_ref();
    let resp = RespData::parse_array(&mut data).unwrap();
    let RespData::Array(Some(elements)) = resp else {
        panic!("Expected Array, got {resp:?}");
    };
    assert_eq!(elements.len(), 3);
    assert!(elements.iter().all(|e| matches!(e, RespData::Null)));
}

#[test]
fn test_parse_null() {
    let mut data = b"_\r\n".as_ref();
    let resp = RespData::parse_null(&mut data).unwrap();
    assert!(matches!(resp, RespData::Null));
    assert!(data.is_empty());
}

#[test]
fn test_parse_boolean() {
    let mut data = b"#t\r\n".as_ref();
    let resp = RespData::parse_boolean(&mut data).unwrap();
    assert!(matches!(resp, RespData::Boolean(true)));
    assert!(data.is_empty());

    let mut data = b"#f\r\n".as_ref();
    let resp = RespData::parse_boolean(&mut data).unwrap();
    assert!(matches!(resp, RespData::Boolean(false)));
    assert!(data.is_empty());
}

#[test]
fn encodes_each_kind_exactly() {
    assert_eq!(RespData::simple_string("OK").as_bytes(), b"+OK\r\n");
    let err = RespData::SimpleError { kind: "ERR".to_string(), message: "bad thing".to_string() };
    assert_eq!(err.as_bytes(), b"-ERR bad thing\r\n");
    assert_eq!(RespData::Integer(-1234).as_bytes(), b":-1234\r\n");
    assert_eq!(RespData::Integer(0).as_bytes(), b":0\r\n");
    assert_eq!(RespData::Integer(i64::MIN).as_bytes(), b":-9223372036854775808\r\n");
    assert_eq!(RespData::bulk_string("hey").as_bytes(), b"$3\r\nhey\r\n");
    assert_eq!(RespData::null_bulk_string().as_bytes(), b"$-1\r\n");
    assert_eq!(RespData::Array(None).as_bytes(), b"*-1\r\n");
    assert_eq!(RespData::array(vec![]).as_bytes(), b"*0\r\n");
    assert_eq!(RespData::Null.as_bytes(), b"_\r\n");
    assert_eq!(RespData::Boolean(true).as_bytes(), b"#t\r\n");
    assert_eq!(RespData::Boolean(false).as_bytes(), b"#f\r\n");
    let nested = RespData::array(vec![RespData::Integer(1), RespData::array(vec![RespData::Null])]);
    assert_eq!(nested.as_bytes(), b"*2\r\n:1\r\n*1\r\n_\r\n");
}

#[test]
fn null_and_empty_are_framed_apart() {
    assert_ne!(RespData::null_bulk_string().as_bytes(), RespData::BulkString(Some(vec![])).as_bytes());
    assert_eq!(RespData::BulkString(Some(vec![])).as_bytes(), b"$0\r\n\r\n");
    assert_ne!(RespData::Array(None).as_bytes(), RespData::array(vec![]).as_bytes());
}

#[test]
fn every_kind_round_trips() {
    round_trip(RespData::simple_string(""));
    round_trip(RespData::simple_string("héllo wörld"));
    round_trip(RespData::SimpleError { kind: "ERR".to_string(), message: "".to_string() });
    round_trip(RespData::SimpleError { kind: "ERR".to_string(), message: "a b c".to_string() });
    round_trip(RespData::Integer(i64::MAX));
    round_trip(RespData::Integer(i64::MIN));
    round_trip(RespData::BulkString(Some(vec![0, 13, 10, 255, 36])));
    round_trip(RespData::BulkString(Some(vec![])));
    round_trip(RespData::null_bulk_string());
    round_trip(RespData::Array(None));
    round_trip(RespData::array(vec![]));
    round_trip(RespData::Null);
    round_trip(RespData::Boolean(true));
    round_trip(RespData::array(vec![
        RespData::bulk_string("x"),
        RespData::array(vec![RespData::Integer(7), RespData::Array(None)]),
        RespData::Boolean(false),
    ]));
}

#[test]
fn decode_leaves_the_rest() {
    let wire = b"$2\r\nab\r\n:5\r\n";
    let (first, used) = RespData::decode(wire).unwrap();
    assert_eq!(used, 8);
    assert_eq!(first.as_bytes(), b"$2\r\nab\r\n");
    let mut rest = wire.as_ref();
    let _ = RespData::from_bytes(&mut rest).unwrap();
    assert_eq!(rest, b":5\r\n");
}

#[test]
fn integers_with_signs() {
    let (v, _) = RespData::decode(b":+17\r\n").unwrap();
    assert!(matches!(v, RespData::Integer(17)));
    let (v, _) = RespData::decode(b":-9223372036854775808\r\n").unwrap();
    assert!(matches!(v, RespData::Integer(i64::MIN)));
    assert_eq!(RespData::decode(b":9223372036854775808\r\n").unwrap_err(), FrameError::Malformed);
}

#[test]
fn decode_errors() {
    assert_eq!(RespData::decode(b"").unwrap_err(), FrameError::Incomplete);
    assert_eq!(RespData::decode(b"+OK").unwrap_err(), FrameError::Incomplete);
    assert_eq!(RespData::decode(b"$5\r\nHel").unwrap_err(), FrameError::Incomplete);
    assert_eq!(RespData::decode(b"*2\r\n:1\r\n").unwrap_err(), FrameError::Incomplete);
    assert_eq!(RespData::decode(b"?x\r\n").unwrap_err(), FrameError::UnknownType);
    assert_eq!(RespData::decode(b",1.5\r\n").unwrap_err(), FrameError::Unsupported);
    assert_eq!(RespData::decode(b"%1\r\n").unwrap_err(), FrameError::Unsupported);
    assert_eq!(RespData::decode(b"$x\r\nab\r\n").unwrap_err(), FrameError::Malformed);
    assert_eq!(RespData::decode(b"$2\r\nabXY").unwrap_err(), FrameError::Malformed);
    assert_eq!(RespData::decode(b"#x\r\n").unwrap_err(), FrameError::Malformed);
    assert_eq!(RespData::decode(b"_x\r\n").unwrap_err(), FrameError::Malformed);
    assert_eq!(RespData::decode(b"+\xff\r\n").unwrap_err(), FrameError::Malformed);
    let mut data = b":1\r\n".as_ref();
    assert_eq!(RespData::parse_simple_string(&mut data).unwrap_err(), FrameError::UnexpectedType);
    assert_eq!(data, b":1\r\n");
}

#[test]
fn error_without_space_has_empty_message() {
    let (v, _) = RespData::decode(b"-WRONG\r\n").unwrap();
    let RespData::SimpleError { kind, message } = v else { panic!("not an error") };
    assert_eq!(kind, "WRONG");
    assert_eq!(message, "");
}

#[test]
fn numbers_from_values() {
    assert_eq!(RespData::Integer(-3).as_number(), Some(-3));
    assert_eq!(RespData::bulk_string("-100").as_number(), Some(-100));
    assert_eq!(RespData::simple_string("12").as_number(), Some(12));
    assert_eq!(RespData::bulk_string("1x").as_number(), None);
    assert_eq!(RespData::Null.as_number(), None);
}
