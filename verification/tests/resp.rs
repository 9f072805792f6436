use rskvs::error::ErrorKind;
use rskvs::resp::{serialize, unserialize, Resp};

#[test]
fn resp_item_serialize() {
    let mut data = Vec::new();
    serialize(vec![Resp::SimpleString(String::from("OK"))], &mut data).unwrap();
    assert_eq!(data, b"+OK\r\n");
    data.clear();

    serialize(
        vec![Resp::Error(String::from(
            "WRONGTYPE Operation against a key holding the wrong kind of value",
        ))],
        &mut data,
    )
    .unwrap();
    assert_eq!(
        data,
        b"-WRONGTYPE Operation against a key holding the wrong kind of value\r\n"
    );
    data.clear();

    serialize(vec![Resp::Integer(1000)], &mut data).unwrap();
    assert_eq!(data, b":1000\r\n");
    data.clear();

    serialize(
        vec![Resp::BulkString(String::from("hello world\r"))],
        &mut data,
    )
    .unwrap();
    assert_eq!(data, b"$12\r\nhello world\r\r\n");
    data.clear();

    serialize(vec![Resp::Null], &mut data).unwrap();
    assert_eq!(data, b"$-1\r\n");
    data.clear();

    serialize(
        vec![Resp::Array(vec![
            Resp::Integer(1),
            Resp::Integer(2),
            Resp::Integer(3),
            Resp::Null,
            Resp::BulkString(String::from("hello")),
        ])],
        &mut data,
    )
    .unwrap();
    assert_eq!(data, b"*5\r\n:1\r\n:2\r\n:3\r\n$-1\r\n$5\r\nhello\r\n");
    data.clear();
}

#[test]
fn resp_item_unserialize() {
    let data: Vec<u8> = b"*5\r\n:1\r\n:2\r\n:3\r\n$-1\r\n$5\r\nhello\r\n*6\r\n:1\r\n:2\r\n:3\r\n$-1\r\n$5\r\nhello\r\n$-1\r\n"
        .iter()
        .map(|x| *x)
        .collect();
    let v = unserialize(&data).unwrap();
    assert_eq!(2, v.len());
    assert_eq!(
        v[0],
        Resp::Array(vec![
            Resp::Integer(1),
            Resp::Integer(2),
            Resp::Integer(3),
            Resp::Null,
            Resp::BulkString(String::from("hello")),
        ])
    );
    assert_eq!(
        v[1],
        Resp::Array(vec![
            Resp::Integer(1),
            Resp::Integer(2),
            Resp::Integer(3),
            Resp::Null,
            Resp::BulkString(String::from("hello")),
            Resp::Null,
        ])
    );
}

#[test]
fn resp_roundtrip_unicode() {
    let mut data = Vec::new();
    serialize(
        vec![Resp::BulkString(String::from("héllo ☃"))],
        &mut data,
    )
    .unwrap();
    let v = unserialize(&data).unwrap();
    assert_eq!(v, vec![Resp::BulkString(String::from("héllo ☃"))]);
}

#[test]
fn resp_unserialize_rejects_bad_utf8() {
    // a bulk string whose payload is not valid UTF-8
    let data: Vec<u8> = b"$2\r\n\xff\xfe\r\n".iter().map(|x| *x).collect();
    let err = unserialize(&data).unwrap_err();
    assert!(matches!(err.kind(), ErrorKind::Protocol(_)));
}

#[test]
fn resp_unserialize_rejects_unknown_mark() {
    let data: Vec<u8> = b"!oops\r\n".iter().map(|x| *x).collect();
    let err = unserialize(&data).unwrap_err();
    assert!(matches!(err.kind(), ErrorKind::UnexpectedRespMark(33)));
}

#[test]
fn resp_unserialize_rejects_truncation() {
    let data: Vec<u8> = b"*2\r\n:1\r\n".iter().map(|x| *x).collect();
    assert!(unserialize(&data).is_err());
}

#[test]
fn resp_negative_integer() {
    let mut data = Vec::new();
    serialize(vec![Resp::Integer(-42)], &mut data).unwrap();
    assert_eq!(data, b":-42\r\n");
    let v = unserialize(&data).unwrap();
    assert_eq!(v, vec![Resp::Integer(-42)]);
}
