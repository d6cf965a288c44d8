use resp_kv::{
    BulkString, RespArray, RespDouble, RespFrame, RespMap, RespNull, RespNullArray,
    RespNullBulkString, RespSet, SimpleError, SimpleString,
};

/// The textual form the reference writer gives a double: fixed notation,
/// sign explicit, switching to scientific when the magnitude is above
/// 1e8 or below 1e-8.
fn double_text(v: f64) -> String {
    if v.abs() > 1e+8 || v.abs() < 1e-8 {
        format!("{:+e}", v)
    } else if v < 0.0 {
        format!("{}", v)
    } else {
        format!("+{}", v)
    }
}

#[test]
fn encode_test_simple_string_encode() {
    let s: RespFrame = SimpleString::new("hello").into();
    assert_eq!(s.encode(), b"+hello\r\n");
}

#[test]
fn encode_test_simple_error_encode() {
    let s: RespFrame = SimpleError::new("Error message").into();
    assert_eq!(s.encode(), b"-Error message\r\n");
}

#[test]
fn test_integer_encode() {
    let s: RespFrame = 123.into();
    assert_eq!(s.encode(), b":+123\r\n");

    let s: RespFrame = (-123).into();
    assert_eq!(s.encode(), b":-123\r\n");
}

#[test]
fn test_bulk_string_encode() {
    let s: RespFrame = BulkString::new("hello").into();
    assert_eq!(s.encode(), b"$5\r\nhello\r\n");
}

#[test]
fn test_null_bulk_string_encode() {
    let s: RespFrame = RespNullBulkString.into();
    assert_eq!(s.encode(), b"$-1\r\n");
}

#[test]
fn encode_test_array_encode() {
    let s: RespFrame = RespArray::new(vec![
        BulkString::new("set").into(),
        BulkString::new("hello").into(),
        BulkString::new("world").into(),
    ])
    .into();

    assert_eq!(&s.encode(), b"*3\r\n$3\r\nset\r\n$5\r\nhello\r\n$5\r\nworld\r\n");
}

#[test]
fn encode_test_null_array_encode() {
    let s: RespFrame = RespNullArray.into();
    assert_eq!(s.encode(), b"*-1\r\n");
}

#[test]
fn encode_test_null_encode() {
    let s: RespFrame = RespNull.into();
    assert_eq!(s.encode(), b"_\r\n");
}

#[test]
fn test_boolean_encode() {
    let s: RespFrame = true.into();
    assert_eq!(s.encode(), b"#t\r\n");

    let s: RespFrame = false.into();
    assert_eq!(s.encode(), b"#f\r\n");
}

#[test]
fn test_double_encode() {
    let s: RespFrame = RespDouble::new(&double_text(123.456)).into();
    assert_eq!(s.encode(), b",+123.456\r\n");

    let s: RespFrame = RespDouble::new(&double_text(-123.456)).into();
    assert_eq!(s.encode(), b",-123.456\r\n");

    let s: RespFrame = RespDouble::new(&double_text(1.23456e+8)).into();
    assert_eq!(s.encode(), b",+1.23456e8\r\n");

    let s: RespFrame = RespDouble::new(&double_text(-1.23456e-9)).into();
    assert_eq!(s.encode(), b",-1.23456e-9\r\n");
}

#[test]
fn encode_test_map_encode() {
    let mut map = RespMap::new();
    map.insert("key".to_string(), BulkString::new("value").into());
    map.insert("test".to_string(), RespDouble::new(&double_text(123.456)).into());

    let frame: RespFrame = map.into();
    assert_eq!(&frame.encode(), b"%2\r\n+key\r\n$5\r\nvalue\r\n+test\r\n,+123.456\r\n");

    // the map stores entries in key order, so the wire order does not
    // follow the insertion order
    let mut map1 = RespMap::new();
    map1.insert("key".to_string(), BulkString::new("value").into());
    map1.insert("a".to_string(), RespDouble::new(&double_text(123.456)).into());

    let frame1: RespFrame = map1.into();
    assert_eq!(&frame1.encode(), b"%2\r\n+a\r\n,+123.456\r\n+key\r\n$5\r\nvalue\r\n");
}

#[test]
fn test_set_encode() {
    let s: RespFrame = RespSet::new(vec![
        BulkString::new("hello").into(),
        RespArray::new(vec![1234.into(), true.into()]).into(),
    ])
    .into();

    assert_eq!(&s.encode(), b"~2\r\n$5\r\nhello\r\n*2\r\n:+1234\r\n#t\r\n")
}

#[test]
fn array_test_array_encode() {
    let s: RespFrame = RespArray::new(vec![
        BulkString::new("set").into(),
        BulkString::new("hello").into(),
        BulkString::new("world").into(),
    ])
    .into();

    assert_eq!(&s.encode(), b"*3\r\n$3\r\nset\r\n$5\r\nhello\r\n$5\r\nworld\r\n");
}

#[test]
fn array_test_null_array_encode() {
    let s: RespFrame = RespArray::null().into();
    assert_eq!(s.encode(), b"*-1\r\n");
}

#[test]
fn map_test_map_encode() {
    let mut map = RespMap::new();
    map.insert("key".to_string(), BulkString::new("value").into());
    map.insert("test".to_string(), RespDouble::new(&double_text(123.456)).into());

    let frame: RespFrame = map.into();
    assert_eq!(&frame.encode(), b"%2\r\n+key\r\n$5\r\nvalue\r\n+test\r\n,+123.456\r\n");

    let mut map1 = RespMap::new();
    map1.insert("key".to_string(), BulkString::new("value").into());
    map1.insert("a".to_string(), RespDouble::new(&double_text(123.456)).into());

    let frame1: RespFrame = map1.into();
    assert_eq!(&frame1.encode(), b"%2\r\n+a\r\n,+123.456\r\n+key\r\n$5\r\nvalue\r\n");
}

#[test]
fn null_test_null_encode() {
    let s: RespFrame = RespNull.into();
    assert_eq!(s.encode(), b"_\r\n");
}

#[test]
fn simple_error_test_simple_error_encode() {
    let s: RespFrame = SimpleError::new("Error message").into();
    assert_eq!(s.encode(), b"-Error message\r\n");
}

#[test]
fn simple_string_test_simple_string_encode() {
    let s: RespFrame = SimpleString::new("hello").into();
    assert_eq!(s.encode(), b"+hello\r\n");
}

#[test]
fn test_integer_encode_extremes() {
    let s: RespFrame = RespFrame::Integer(i64::MIN);
    assert_eq!(s.encode(), b":-9223372036854775808\r\n");

    let s: RespFrame = RespFrame::Integer(i64::MAX);
    assert_eq!(s.encode(), b":+9223372036854775807\r\n");

    let s: RespFrame = RespFrame::Integer(0);
    assert_eq!(s.encode(), b":+0\r\n");
}

#[test]
fn test_empty_containers_encode() {
    // an empty array shares the null-array wire form
    let s: RespFrame = RespArray::new(vec![]).into();
    assert_eq!(s.encode(), b"*-1\r\n");

    let s: RespFrame = RespMap::new().into();
    assert_eq!(s.encode(), b"%0\r\n");

    let s: RespFrame = RespSet::new(vec![]).into();
    assert_eq!(s.encode(), b"~0\r\n");

    let s: RespFrame = BulkString::from_bytes(Vec::new()).into();
    assert_eq!(s.encode(), b"$0\r\n\r\n");
}
