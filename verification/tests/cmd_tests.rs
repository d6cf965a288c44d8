use bytes::BytesMut;
use resp_kv::backend::Backend;
use resp_kv::cmd::conn::{Echo, Ping};
use resp_kv::cmd::hmap::{HGet, HGetAll, HMGet, HSet};
use resp_kv::cmd::map::{Get, SetCmd};
use resp_kv::cmd::smap::{SAdd, SisMember};
use resp_kv::cmd::{extract_args, validate_command, Command, CommandError};
use resp_kv::{BulkString, RespArray, RespFrame, RespNull, SimpleString};

fn ok_frame() -> RespFrame {
    RespFrame::SimpleString(SimpleString::new("OK"))
}

#[test]
fn test_echo_try_from() {
    let mut buf = BytesMut::new();
    buf.extend_from_slice(b"*2\r\n$4\r\necho\r\n$5\r\nhello\r\n");

    let frame = RespArray::decode(&mut buf).unwrap();
    let result = Echo::try_from(frame).unwrap();

    assert_eq!(result.message, "hello");
}

#[test]
fn test_echo_command() {
    let mut backend = Backend::new();
    let cmd = Echo { message: "hello".to_string() };

    let result = cmd.execute(&mut backend);
    assert_eq!(result, BulkString::new("hello").into());
}

#[test]
fn test_hget_resp_array() {
    let mut buf = BytesMut::new();
    buf.extend_from_slice(b"*3\r\n$4\r\nhget\r\n$3\r\nmap\r\n$5\r\nhello\r\n");

    let frame = RespArray::decode(&mut buf).unwrap();
    let result = HGet::try_from(frame).unwrap();
    assert_eq!(result.key, "map");
    assert_eq!(result.field, "hello");
}

#[test]
fn test_hgetall_from_resp_array() {
    let mut buf = BytesMut::new();
    buf.extend_from_slice(b"*2\r\n$7\r\nhgetall\r\n$3\r\nmap\r\n");

    let frame = RespArray::decode(&mut buf).unwrap();

    let result = HGetAll::try_from(frame).unwrap();
    assert_eq!(result.key, "map");
}

#[test]
fn test_hset_from_resp_array() {
    let mut buf = BytesMut::new();
    buf.extend_from_slice(b"*4\r\n$4\r\nhset\r\n$3\r\nmap\r\n$5\r\nhello\r\n$5\r\nworld\r\n");

    let frame = RespArray::decode(&mut buf).unwrap();

    let result = HSet::try_from(frame).unwrap();
    assert_eq!(result.key, "map");
    assert_eq!(result.field, "hello");
    assert_eq!(result.value, RespFrame::BulkString(BulkString::new("world")));
}

#[test]
fn test_hset_hget_hgetall_commands() {
    let mut backend = Backend::new();

    let cmd = HSet {
        key: "map".to_string(),
        field: "hello".to_string(),
        value: RespFrame::BulkString(BulkString::new("world")),
    };

    let result = cmd.execute(&mut backend);
    assert_eq!(result, ok_frame());

    let cmd = HSet {
        key: "map".to_string(),
        field: "hello1".to_string(),
        value: RespFrame::BulkString(BulkString::new("world1")),
    };
    cmd.execute(&mut backend);

    let cmd = HGet { key: "map".to_string(), field: "hello".to_string() };
    let result = cmd.execute(&mut backend);
    assert_eq!(result, RespFrame::BulkString(BulkString::new("world")));

    let cmd = HGetAll { key: "map".to_string(), sort: true };

    let result = cmd.execute(&mut backend);
    let expected = RespArray::new(vec![
        BulkString::new("hello").into(),
        BulkString::new("world").into(),
        BulkString::new("hello1").into(),
        BulkString::new("world1").into(),
    ]);
    assert_eq!(result, expected.into());
}

#[test]
fn test_get_from_resp_array() {
    let mut buf = BytesMut::new();
    buf.extend_from_slice(b"*2\r\n$3\r\nget\r\n$5\r\nhello\r\n");

    let frame = RespArray::decode(&mut buf).unwrap();
    let result = Get::try_from(frame).unwrap();

    assert_eq!(result.key, "hello");
}

#[test]
fn test_set_from_resp_array() {
    let mut buf = BytesMut::new();
    buf.extend_from_slice(b"*3\r\n$3\r\nset\r\n$5\r\nhello\r\n$5\r\nworld\r\n");

    let frame = RespArray::decode(&mut buf).unwrap();
    let result = SetCmd::try_from(frame).unwrap();

    assert_eq!(result.key, "hello");
    assert_eq!(result.value, RespFrame::BulkString(BulkString::new("world")));
}

#[test]
fn test_set_get_command() {
    let mut backend = Backend::new();
    let cmd = SetCmd {
        key: "hello".to_string(),
        value: RespFrame::BulkString(BulkString::new("world")),
    };
    let result = cmd.execute(&mut backend);
    assert_eq!(result, ok_frame());

    let cmd = Get { key: "hello".to_string() };
    let result = cmd.execute(&mut backend);
    assert_eq!(result, RespFrame::BulkString(BulkString::new("world")));
}

#[test]
fn test_validate_command_with_two_args() {
    let value = RespArray(vec![
        RespFrame::BulkString(BulkString::new("set")),
        RespFrame::BulkString(BulkString::new("key")),
        RespFrame::BulkString(BulkString::new("value")),
    ]);
    assert!(validate_command(&value, &["set"], 2).is_ok());

    let value = RespArray(vec![
        RespFrame::BulkString(BulkString::new("set")),
        RespFrame::BulkString(BulkString::new("key")),
    ]);
    assert!(validate_command(&value, &["set"], 2).is_err());

    let value = RespArray(vec![
        RespFrame::BulkString(BulkString::new("set")),
        RespFrame::BulkString(BulkString::new("key")),
        RespFrame::BulkString(BulkString::new("value")),
        RespFrame::BulkString(BulkString::new("extra")),
    ]);
    assert!(validate_command(&value, &["set"], 2).is_err());
}

#[test]
fn test_validate_command_with_one_arg() {
    let value = RespArray(vec![
        RespFrame::BulkString(BulkString::new("ping")),
        RespFrame::BulkString(BulkString::new("extra")),
    ]);
    assert!(validate_command(&value, &["ping"], 1).is_ok());

    let value = RespArray(vec![RespFrame::BulkString(BulkString::new("ping"))]);
    assert!(validate_command(&value, &["ping", "pong"], 1).is_err());
}

#[test]
fn test_extract_args() {
    let value = RespArray(vec![
        RespFrame::BulkString(BulkString::new("set")),
        RespFrame::BulkString(BulkString::new("key")),
        RespFrame::BulkString(BulkString::new("value")),
    ]);

    assert_eq!(
        extract_args(value, 1).unwrap(),
        vec![
            RespFrame::BulkString(BulkString::new("key")),
            RespFrame::BulkString(BulkString::new("value"))
        ]
    );
}

#[test]
fn test_sadd_one_value_command() {
    let mut backend = Backend::new();
    let cmd = SAdd { key: "k1".to_string(), values: vec!["v1".to_string()] };
    let result = cmd.execute(&mut backend);
    assert_eq!(result, RespFrame::Integer(1));

    let cmd = SAdd { key: "k1".to_string(), values: vec!["v1".to_string()] };
    let result = cmd.execute(&mut backend);
    assert_eq!(result, RespFrame::Integer(0));

    let cmd = SAdd { key: "k1".to_string(), values: vec!["v2".to_string()] };
    let result = cmd.execute(&mut backend);
    assert_eq!(result, RespFrame::Integer(1));
}

#[test]
fn test_sadd_more_value_command() {
    let mut backend = Backend::new();
    let cmd = SAdd { key: "k1".to_string(), values: vec!["v1".to_string(), "v2".to_string()] };
    let result = cmd.execute(&mut backend);
    assert_eq!(result, RespFrame::Integer(2));
}

#[test]
fn test_sismember_command() {
    let mut backend = Backend::new();
    let cmd = SisMember { key: "k1".to_string(), value: "v1".to_string() };
    let result = cmd.execute(&mut backend);
    assert_eq!(result, RespFrame::Integer(0));

    let cmd = SAdd { key: "k1".to_string(), values: vec!["v1".to_string()] };
    cmd.execute(&mut backend);

    let cmd = SisMember { key: "k1".to_string(), value: "v1".to_string() };
    let result = cmd.execute(&mut backend);
    assert_eq!(result, RespFrame::Integer(1));
}

#[test]
fn test_sadd_try_from() {
    let mut buf = BytesMut::new();
    buf.extend_from_slice(b"*4\r\n$4\r\nSADD\r\n$2\r\nk1\r\n$2\r\nv1\r\n$2\r\nv2\r\n");
    let frame = RespArray::decode(&mut buf).unwrap();
    let cmd = SAdd::try_from(frame).unwrap();
    assert_eq!(cmd.key, "k1");
    assert_eq!(cmd.values, vec!["v1".to_string(), "v2".to_string()]);
}

#[test]
fn test_hmget_try_from() {
    let mut buf = BytesMut::new();
    buf.extend_from_slice(b"*4\r\n$5\r\nhmget\r\n$3\r\nmap\r\n$1\r\na\r\n$1\r\nb\r\n");
    let frame = RespArray::decode(&mut buf).unwrap();
    let cmd = HMGet::try_from(frame).unwrap();
    assert_eq!(cmd.key, "map");
    assert_eq!(cmd.fields, vec!["a".to_string(), "b".to_string()]);
}

#[test]
fn test_hmget_absent_key() {
    // every requested field of a missing key replies with the explicit
    // null, and the reply length matches the requested field count
    let mut backend = Backend::new();
    let cmd = HMGet {
        key: "missing".to_string(),
        fields: vec!["a".to_string(), "b".to_string()],
    };
    let result = cmd.execute(&mut backend);
    let expected =
        RespArray::new(vec![RespFrame::Null(RespNull), RespFrame::Null(RespNull)]);
    assert_eq!(result, expected.into());
}

#[test]
fn test_hmget_present_and_absent_fields() {
    let mut backend = Backend::new();
    HSet {
        key: "map".to_string(),
        field: "a".to_string(),
        value: RespFrame::BulkString(BulkString::new("x")),
    }
    .execute(&mut backend);

    let cmd = HMGet {
        key: "map".to_string(),
        fields: vec!["a".to_string(), "b".to_string(), "a".to_string()],
    };
    let result = cmd.execute(&mut backend);
    let expected = RespArray::new(vec![
        BulkString::new("x").into(),
        RespFrame::Null(RespNull),
        BulkString::new("x").into(),
    ]);
    assert_eq!(result, expected.into());
}

#[test]
fn test_ping_scenarios() {
    let mut backend = Backend::new();

    // bare ping replies with the fixed pong as a simple string
    let mut buf = BytesMut::new();
    buf.extend_from_slice(b"*1\r\n$4\r\nping\r\n");
    let frame = RespArray::decode(&mut buf).unwrap();
    let cmd = Ping::try_from(frame).unwrap();
    assert_eq!(cmd.execute(&mut backend), SimpleString::new("PONG").into());

    // ping with an argument echoes it as a bulk string
    let mut buf = BytesMut::new();
    buf.extend_from_slice(b"*2\r\n$4\r\nping\r\n$5\r\nhello\r\n");
    let frame = RespArray::decode(&mut buf).unwrap();
    let cmd = Ping::try_from(frame).unwrap();
    assert_eq!(cmd.execute(&mut backend), BulkString::new("hello").into());

    // the exact pong text comes back as a simple string instead
    let mut buf = BytesMut::new();
    buf.extend_from_slice(b"*2\r\n$4\r\nping\r\n$4\r\nPONG\r\n");
    let frame = RespArray::decode(&mut buf).unwrap();
    let cmd = Ping::try_from(frame).unwrap();
    assert_eq!(cmd.execute(&mut backend), SimpleString::new("PONG").into());
}

#[test]
fn test_unknown_command_ok() {
    // an unknown command decodes and dispatches without error, replying OK
    let mut backend = Backend::new();
    let mut buf = BytesMut::new();
    buf.extend_from_slice(b"*2\r\n$3\r\nFOO\r\n$3\r\nbar\r\n");
    let frame = RespArray::decode(&mut buf).unwrap();
    let cmd = Command::try_from(frame).unwrap();
    assert!(matches!(cmd, Command::Unrecognized(_)));
    let result = cmd.execute(&mut backend);
    assert_eq!(result, ok_frame());
}

#[test]
fn test_command_dispatch() {
    let mut backend = Backend::new();

    let mut buf = BytesMut::new();
    buf.extend_from_slice(b"*3\r\n$3\r\nSET\r\n$1\r\nk\r\n$1\r\nv\r\n");
    let frame = RespFrame::decode(&mut buf).unwrap();
    let cmd = Command::try_from_frame(frame).unwrap();
    assert_eq!(cmd.execute(&mut backend), ok_frame());

    let mut buf = BytesMut::new();
    buf.extend_from_slice(b"*2\r\n$3\r\nget\r\n$1\r\nk\r\n");
    let frame = RespFrame::decode(&mut buf).unwrap();
    let cmd = Command::try_from_frame(frame).unwrap();
    assert_eq!(cmd.execute(&mut backend), BulkString::new("v").into());

    // a non-array frame is not a command
    let err = Command::try_from_frame(SimpleString::new("hi").into()).unwrap_err();
    assert!(matches!(err, CommandError::InvalidCommand(_)));
}

#[test]
fn test_command_error_kinds() {
    // wrong arity
    let value = RespArray(vec![RespFrame::BulkString(BulkString::new("get"))]);
    let err = Get::try_from(value).unwrap_err();
    assert!(matches!(err, CommandError::InvalidArgument(_)));

    // mismatched name
    let value = RespArray(vec![
        RespFrame::BulkString(BulkString::new("set")),
        RespFrame::BulkString(BulkString::new("k")),
    ]);
    let err = Get::try_from(value).unwrap_err();
    assert!(matches!(err, CommandError::InvalidCommand(_)));

    // a key that is not valid UTF-8
    let value = RespArray(vec![
        RespFrame::BulkString(BulkString::new("get")),
        RespFrame::BulkString(BulkString::from_bytes(vec![0xff, 0xfe])),
    ]);
    let err = Get::try_from(value).unwrap_err();
    assert!(matches!(err, CommandError::Utf8Error(_)));

    // a key that is not a bulk string
    let value = RespArray(vec![
        RespFrame::BulkString(BulkString::new("get")),
        RespFrame::Integer(3),
    ]);
    let err = Get::try_from(value).unwrap_err();
    assert!(matches!(err, CommandError::InvalidArgument(_)));
}

#[test]
fn test_sadd_total_count_matches_growth() {
    // across overlapping batches the newly-inserted counts sum to the
    // number of distinct members, with no double count and no lost update
    let mut backend = Backend::new();
    let batches: Vec<Vec<&str>> = vec![
        vec!["a", "b"],
        vec!["b", "c"],
        vec!["c", "d", "a"],
        vec!["d"],
    ];
    let mut total: i64 = 0;
    for batch in batches {
        let cmd = SAdd {
            key: "k".to_string(),
            values: batch.iter().map(|s| s.to_string()).collect(),
        };
        match cmd.execute(&mut backend) {
            RespFrame::Integer(n) => total += n,
            other => panic!("unexpected reply {:?}", other),
        }
    }
    // four distinct members were ever added
    assert_eq!(total, 4);
    for m in ["a", "b", "c", "d"] {
        let cmd = SisMember { key: "k".to_string(), value: m.to_string() };
        assert_eq!(cmd.execute(&mut backend), RespFrame::Integer(1));
    }
}

#[test]
fn test_hgetall_unsorted_has_all_pairs() {
    let mut backend = Backend::new();
    HSet {
        key: "h".to_string(),
        field: "f1".to_string(),
        value: RespFrame::Integer(1),
    }
    .execute(&mut backend);
    HSet {
        key: "h".to_string(),
        field: "f2".to_string(),
        value: RespFrame::Integer(2),
    }
    .execute(&mut backend);

    let result = HGetAll { key: "h".to_string(), sort: false }.execute(&mut backend);
    match result {
        RespFrame::Array(a) => {
            let v = a.into_vec();
            assert_eq!(v.len(), 4);
            let sorted = HGetAll { key: "h".to_string(), sort: true }.execute(&mut backend);
            let expected = RespArray::new(vec![
                BulkString::new("f1").into(),
                RespFrame::Integer(1),
                BulkString::new("f2").into(),
                RespFrame::Integer(2),
            ]);
            assert_eq!(sorted, expected.into());
        },
        other => panic!("unexpected reply {:?}", other),
    }
}

#[test]
fn test_hgetall_absent_key_is_empty_array() {
    let mut backend = Backend::new();
    let result = HGetAll { key: "nope".to_string(), sort: false }.execute(&mut backend);
    assert_eq!(result, RespArray::new(vec![]).into());
}
