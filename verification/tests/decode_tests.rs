use bytes::{BufMut, BytesMut};
use resp_kv::{
    BulkString, RespArray, RespDouble, RespError, RespFrame, RespMap, RespNull, SimpleError,
    SimpleString,
};

#[test]
fn test_null_array_decode() {
    let mut buf = BytesMut::new();
    buf.extend_from_slice(b"*-1\r\n");

    let frame = RespArray::decode(&mut buf).unwrap();
    assert_eq!(frame, RespArray::null());
}

#[test]
fn test_array_decode() {
    let mut buf = BytesMut::new();
    buf.extend_from_slice(b"*2\r\n$3\r\nset\r\n$5\r\nhello\r\n");

    let frame = RespArray::decode(&mut buf).unwrap();
    assert_eq!(
        frame,
        RespArray::new(vec![BulkString::new("set").into(), BulkString::new("hello").into()])
    );

    buf.extend_from_slice(b"*2\r\n$3\r\nset\r\n");
    let ret = RespArray::decode(&mut buf);
    assert_eq!(ret.unwrap_err(), RespError::NotComplete);

    buf.extend_from_slice(b"$5\r\nhello\r\n");
    let frame = RespArray::decode(&mut buf).unwrap();
    assert_eq!(
        frame,
        RespArray::new(vec![BulkString::new("set").into(), BulkString::new("hello").into()])
    );
}

#[test]
fn test_map_decode() {
    let mut buf = BytesMut::new();
    buf.extend_from_slice(b"%2\r\n+hello\r\n$5\r\nworld\r\n+foo\r\n$3\r\nbar\r\n");

    let frame = RespMap::decode(&mut buf).unwrap();
    let mut map = RespMap::new();
    map.insert("hello".to_string(), BulkString::new("world").into());
    map.insert("foo".to_string(), BulkString::new("bar").into());
    assert_eq!(frame, map);
}

#[test]
fn test_null_decode() {
    let mut buf = BytesMut::new();

    buf.extend_from_slice(b"_\r\n");
    let frame = RespNull::decode(&mut buf).unwrap();
    assert_eq!(frame, RespNull);
}

#[test]
fn test_simple_error_decode() {
    let mut buf = BytesMut::new();
    buf.extend_from_slice(b"-Error message\r\n");

    let frame = SimpleError::decode(&mut buf).unwrap();
    assert_eq!(frame, SimpleError::new("Error message"));
}

#[test]
fn test_simple_string_decode() {
    let mut buf = BytesMut::new();
    buf.extend_from_slice(b"+OK\r\n");

    let frame = SimpleString::decode(&mut buf).unwrap();
    assert_eq!(frame, SimpleString::new("OK"));

    buf.extend_from_slice(b"+hello\r");

    let ret = SimpleString::decode(&mut buf);
    assert_eq!(ret.unwrap_err(), RespError::NotComplete);

    buf.put_u8(b'\n');
    let frame = SimpleString::decode(&mut buf).unwrap();
    assert_eq!(frame, SimpleString::new("hello"));
}

#[test]
fn test_frame_decode_scalars() {
    let mut buf = BytesMut::new();
    buf.extend_from_slice(b":+123\r\n:-9223372036854775808\r\n#t\r\n#f\r\n,+123.456\r\n$-1\r\n");

    assert_eq!(RespFrame::decode(&mut buf).unwrap(), RespFrame::Integer(123));
    assert_eq!(RespFrame::decode(&mut buf).unwrap(), RespFrame::Integer(i64::MIN));
    assert_eq!(RespFrame::decode(&mut buf).unwrap(), RespFrame::Boolean(true));
    assert_eq!(RespFrame::decode(&mut buf).unwrap(), RespFrame::Boolean(false));
    assert_eq!(
        RespFrame::decode(&mut buf).unwrap(),
        RespFrame::Double(RespDouble::new("+123.456"))
    );
    assert_eq!(
        RespFrame::decode(&mut buf).unwrap(),
        RespFrame::NullBulkString(resp_kv::RespNullBulkString)
    );
    assert_eq!(buf.len(), 0);
}

#[test]
fn test_frame_decode_malformed() {
    // an unknown prefix byte cannot start a frame
    let mut buf = BytesMut::new();
    buf.extend_from_slice(b"?hello\r\n");
    assert_eq!(RespFrame::decode(&mut buf).unwrap_err(), RespError::InvalidFrame);

    // a non-numeric length is malformed
    let mut buf = BytesMut::new();
    buf.extend_from_slice(b"$x\r\nhello\r\n");
    assert_eq!(RespFrame::decode(&mut buf).unwrap_err(), RespError::InvalidFrame);

    // a bulk payload must end in CRLF
    let mut buf = BytesMut::new();
    buf.extend_from_slice(b"$5\r\nhelloXY");
    assert_eq!(RespFrame::decode(&mut buf).unwrap_err(), RespError::InvalidFrame);
}

#[test]
fn test_incremental_decode_byte_by_byte() {
    // feeding a valid frame one byte at a time stays incomplete until the
    // last byte, then yields the frame, leaving trailing bytes untouched
    let wire = b"*2\r\n$3\r\nset\r\n$5\r\nhello\r\n";
    let mut buf = BytesMut::new();
    for i in 0..wire.len() - 1 {
        buf.put_u8(wire[i]);
        assert_eq!(RespFrame::decode(&mut buf).unwrap_err(), RespError::NotComplete);
    }
    buf.put_u8(wire[wire.len() - 1]);
    buf.extend_from_slice(b"+trailing\r\n");
    let frame = RespFrame::decode(&mut buf).unwrap();
    assert_eq!(
        frame,
        RespFrame::Array(RespArray::new(vec![
            BulkString::new("set").into(),
            BulkString::new("hello").into(),
        ]))
    );
    assert_eq!(&buf[..], b"+trailing\r\n");
}

#[test]
fn test_round_trip_all_variants() {
    // decode(encode(f)) == f for every variant that has a first-class
    // wire form; the legacy null-array marker reads back as the empty
    // array instead
    let mut map = RespMap::new();
    map.insert("hello".to_string(), BulkString::new("world").into());
    map.insert("hello1".to_string(), BulkString::new("world1").into());
    let frames: Vec<RespFrame> = vec![
        SimpleString::new("hello").into(),
        SimpleError::new("oops").into(),
        RespFrame::Integer(-42),
        BulkString::new("payload").into(),
        resp_kv::RespNullBulkString.into(),
        RespNull.into(),
        RespFrame::Boolean(true),
        RespDouble::new("+1.5").into(),
        map.into(),
        resp_kv::RespSet::new(vec![BulkString::new("a").into(), RespFrame::Integer(3)]).into(),
        RespArray::new(vec![RespFrame::Integer(7), SimpleString::new("x").into()]).into(),
    ];
    for f in frames {
        let copy = f.clone();
        let mut buf = BytesMut::new();
        buf.extend_from_slice(&f.encode());
        let back = RespFrame::decode(&mut buf).unwrap();
        assert_eq!(back, copy);
        assert_eq!(buf.len(), 0);
    }
}

#[test]
fn test_expect_length() {
    let wire = b"*2\r\n$3\r\nset\r\n$5\r\nhello\r\n";
    assert_eq!(RespFrame::expect_length(wire), Ok(wire.len()));
    assert_eq!(RespArray::expect_length(wire), Ok(wire.len()));
    assert_eq!(RespFrame::expect_length(&wire[..7]), Err(RespError::NotComplete));
    assert_eq!(SimpleString::expect_length(b"+OK\r\nrest"), Ok(5));
    assert_eq!(SimpleError::expect_length(b"-e\r\n"), Ok(4));
    assert_eq!(RespNull::expect_length(b"_\r\n"), Ok(3));
    assert_eq!(RespMap::expect_length(b"%0\r\nxyz"), Ok(4));
}

#[test]
fn test_non_canonical_forms_decode() {
    // an explicit zero-length array parses as the empty array, which
    // re-encodes to the legacy null-array marker
    let mut buf = BytesMut::new();
    buf.extend_from_slice(b"*0\r\n");
    let frame = RespArray::decode(&mut buf).unwrap();
    assert_eq!(frame, RespArray::null());

    // an unsigned integer is accepted on the way in
    let mut buf = BytesMut::new();
    buf.extend_from_slice(b":7\r\n");
    assert_eq!(RespFrame::decode(&mut buf).unwrap(), RespFrame::Integer(7));

    // map pairs arriving out of order come back sorted
    let mut buf = BytesMut::new();
    buf.extend_from_slice(b"%2\r\n+b\r\n:+1\r\n+a\r\n:+2\r\n");
    let m = RespMap::decode(&mut buf).unwrap();
    let mut expected = RespMap::new();
    expected.insert("a".to_string(), RespFrame::Integer(2));
    expected.insert("b".to_string(), RespFrame::Integer(1));
    assert_eq!(m, expected);
}
