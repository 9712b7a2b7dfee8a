use knowsql::protocol::resp2::{parse_data, Data, Parsed};

#[test]
fn test_parse_data() {
    assert_eq!(
        parse_data(b"+OK\r\n"),
        Parsed::Value { value: Data::String(b"OK".to_vec()), used: 5 }
    );
    assert_eq!(
        parse_data(b"-ERR\r\n"),
        Parsed::Value { value: Data::Error(b"ERR".to_vec()), used: 6 }
    );
    assert_eq!(
        parse_data(b":1000\r\n"),
        Parsed::Value { value: Data::Integer(1000), used: 7 }
    );
    assert_eq!(
        parse_data(b"$6\r\nfoobar\r\n"),
        Parsed::Value {
            value: Data::BulkString { length: 6, data: b"foobar".to_vec() },
            used: 12
        }
    );
    assert_eq!(
        parse_data(b"*3\r\n+Foo\r\n-Bar\r\n:1000\r\n"),
        Parsed::Value {
            value: Data::Array(vec![
                Data::String(b"Foo".to_vec()),
                Data::Error(b"Bar".to_vec()),
                Data::Integer(1000),
            ]),
            used: 23
        }
    );
    let input: &[u8] = b"*2\r\n$3\r\nGET\r\n$5\r\nhello\r\n\r\n*2\r\n$4\r\nECHO\r\n$20\r\n";
    let remaining: &[u8] = b"\r\n*2\r\n$4\r\nECHO\r\n$20\r\n";
    assert_eq!(
        parse_data(input),
        Parsed::Value {
            value: Data::Array(vec![
                Data::BulkString { length: 3, data: b"GET".to_vec() },
                Data::BulkString { length: 5, data: b"hello".to_vec() },
            ]),
            used: input.len() - remaining.len()
        }
    );
}

#[test]
fn incomplete_on_every_prefix_of_a_framed_command() {
    let full: &[u8] = b"*1\r\n$4\r\nPING\r\n";
    for cut in 0..full.len() {
        assert_eq!(parse_data(&full[..cut]), Parsed::Incomplete, "prefix length {}", cut);
    }
    assert!(matches!(parse_data(full), Parsed::Value { used: 14, .. }));
}

#[test]
fn incomplete_prefixes_of_scalar_frames() {
    assert_eq!(parse_data(b""), Parsed::Incomplete);
    assert_eq!(parse_data(b"+OK"), Parsed::Incomplete);
    assert_eq!(parse_data(b"+OK\r"), Parsed::Incomplete);
    assert_eq!(parse_data(b":12"), Parsed::Incomplete);
    assert_eq!(parse_data(b"$6\r\nfoo"), Parsed::Incomplete);
    assert_eq!(parse_data(b"$6\r\nfoobar\r"), Parsed::Incomplete);
    assert_eq!(parse_data(b"*2\r\n+a\r\n"), Parsed::Incomplete);
}

#[test]
fn malformed_frames_are_rejected() {
    assert_eq!(parse_data(b"?"), Parsed::Malformed);
    assert_eq!(parse_data(b"+OK\rX\r\n"), Parsed::Malformed);
    assert_eq!(parse_data(b":12a\r\n"), Parsed::Malformed);
    assert_eq!(parse_data(b":-\r\n"), Parsed::Malformed);
    assert_eq!(parse_data(b"$6a\r\nfoobar\r\n"), Parsed::Malformed);
    assert_eq!(parse_data(b"$3\r\nfoobar\r\n"), Parsed::Malformed);
    assert_eq!(parse_data(b"$-1\r\n"), Parsed::Malformed);
    // a declared length too large for any machine buffer
    assert_eq!(parse_data(b":99999999999999999999\r\n"), Parsed::Malformed);
}

#[test]
fn integers_parse_signed() {
    assert_eq!(
        parse_data(b":-42\r\n"),
        Parsed::Value { value: Data::Integer(-42), used: 6 }
    );
    assert_eq!(
        parse_data(b":9223372036854775807\r\n"),
        Parsed::Value { value: Data::Integer(i64::MAX), used: 22 }
    );
    assert_eq!(
        parse_data(b":-9223372036854775808\r\n"),
        Parsed::Value { value: Data::Integer(i64::MIN), used: 23 }
    );
    assert_eq!(parse_data(b":9223372036854775808\r\n"), Parsed::Malformed);
}

#[test]
fn encode_inverts_parse() {
    let values = vec![
        Data::String(b"hello".to_vec()),
        Data::Error(b"oops".to_vec()),
        Data::Integer(-1000),
        Data::Integer(0),
        Data::BulkString { length: 4, data: vec![0u8, 13, 10, 255] },
        Data::Array(vec![
            Data::BulkString { length: 3, data: b"GET".to_vec() },
            Data::Integer(7),
            Data::Array(vec![Data::String(b"x".to_vec())]),
        ]),
    ];
    for v in values {
        let bytes = v.encode();
        match parse_data(&bytes) {
            Parsed::Value { value, used } => {
                assert_eq!(value, v);
                assert_eq!(used, bytes.len());
            }
            other => panic!("round trip failed: {:?}", other),
        }
    }
}

#[test]
fn encode_recomputes_bulk_length_from_payload() {
    let v = Data::BulkString { length: 999, data: b"ab".to_vec() };
    assert_eq!(v.encode(), b"$2\r\nab\r\n".to_vec());
}

#[test]
fn as_str_renders_text_frames() {
    assert_eq!(Data::Integer(1000).as_str(), Some(":1000\r\n".to_string()));
    assert_eq!(Data::String(b"OK".to_vec()).as_str(), Some("+OK\r\n".to_string()));
    assert_eq!(
        Data::BulkString { length: 6, data: b"foobar".to_vec() }.as_str(),
        Some("$6\r\nfoobar\r\n".to_string())
    );
    // invalid UTF-8 payloads have no text rendering
    assert_eq!(Data::String(vec![0xff, 0xfe]).as_str(), None);
}
