//! Round trips and exact wire forms of the reply codec, and the request
//! tokenizer.
use respkv::decode::decode;
use respkv::resp::{encode, parse, RespValue};

fn b(s: &str) -> Vec<u8> {
    s.as_bytes().to_vec()
}

#[test]
fn encodes_simple_string() {
    assert_eq!(encode(&RespValue::SimpleString(b("PONG"))), b("+PONG\r\n"));
}

#[test]
fn encodes_error_with_tag() {
    assert_eq!(encode(&RespValue::Error(b("syntax error"))), b("-ERR syntax error\r\n"));
}

#[test]
fn encodes_integers() {
    assert_eq!(encode(&RespValue::Integer(3)), b(":3\r\n"));
    assert_eq!(encode(&RespValue::Integer(0)), b(":0\r\n"));
    assert_eq!(encode(&RespValue::Integer(-42)), b(":-42\r\n"));
    assert_eq!(encode(&RespValue::Integer(i64::MIN)), b(":-9223372036854775808\r\n"));
}

#[test]
fn encodes_bulk_and_null() {
    assert_eq!(encode(&RespValue::BulkString(Some(b("bar")))), b("$3\r\nbar\r\n"));
    assert_eq!(encode(&RespValue::BulkString(None)), b("$-1\r\n"));
    assert_eq!(encode(&RespValue::Null), b("$-1\r\n"));
    assert_eq!(encode(&RespValue::NullArray), b("*-1\r\n"));
}

#[test]
fn encodes_nested_array() {
    let v = RespValue::Array(vec![
        RespValue::BulkString(Some(b("q"))),
        RespValue::Array(vec![RespValue::Integer(7)]),
    ]);
    assert_eq!(encode(&v), b("*2\r\n$1\r\nq\r\n*1\r\n:7\r\n"));
}

#[test]
fn round_trips_each_reply_kind() {
    let values = vec![
        RespValue::SimpleString(b("OK")),
        RespValue::Error(b("unknown command")),
        RespValue::Integer(123456789),
        RespValue::Integer(-1),
        RespValue::BulkString(Some(b("hello\r\nworld"))),
        RespValue::BulkString(None),
        RespValue::NullArray,
        RespValue::Array(vec![]),
        RespValue::Array(vec![
            RespValue::BulkString(Some(b("a"))),
            RespValue::Integer(2),
            RespValue::Array(vec![RespValue::SimpleString(b("deep"))]),
        ]),
    ];
    for v in values {
        let bytes = encode(&v);
        let back = decode(&bytes).expect("decoding an encoded value");
        assert_eq!(back, v);
    }
}

#[test]
fn null_decodes_as_absent_bulk() {
    // The distinguished Null shares its wire form with the absent bulk
    // string, so it comes back as BulkString(None).
    let bytes = encode(&RespValue::Null);
    assert_eq!(decode(&bytes), Some(RespValue::BulkString(None)));
}

#[test]
fn decode_rejects_incomplete_frames() {
    assert_eq!(decode(&b("+OK")), None);
    assert_eq!(decode(&b("$5\r\nab\r\n")), None);
    assert_eq!(decode(&b("*2\r\n:1\r\n")), None);
    assert_eq!(decode(&b(":12x\r\n")), None);
    assert_eq!(decode(&b("")), None);
}

#[test]
fn decode_rejects_trailing_bytes() {
    assert_eq!(decode(&b(":1\r\n:2\r\n")), None);
}

#[test]
fn parse_splits_resp_array_frames() {
    let toks = parse(&b("*3\r\n$3\r\nSET\r\n$3\r\nfoo\r\n$3\r\nbar\r\n"));
    assert_eq!(toks, vec![b("SET"), b("foo"), b("bar")]);
}

#[test]
fn parse_unwraps_inline_simple_forms() {
    let toks = parse(&b("+PING\r\n:42\r\nraw\r\n"));
    assert_eq!(toks, vec![b("PING"), b("42"), b("raw")]);
}

#[test]
fn parse_keeps_bare_markers_and_skips_headers() {
    let toks = parse(&b("*\r\n-\r\n+\r\n*2\r\n$1\r\nx\r\n\r\n"));
    assert_eq!(toks, vec![b("*"), b("-"), b("+"), b("x")]);
}
