use resp::{ParseError, RespType};

fn samples() -> Vec<RespType> {
    vec![
        RespType::SimpleString("OK".to_string()),
        RespType::SimpleString(String::new()),
        RespType::SimpleString("a\rb\nc\r".to_string()),
        RespType::SimpleString("h\u{e9}llo \u{1f600}".to_string()),
        RespType::Error("ERR unknown command 'foobar'".to_string()),
        RespType::Error("\n\r".to_string()),
        RespType::Integer(0),
        RespType::Integer(-1),
        RespType::Integer(1000),
        RespType::Integer(i64::MAX),
        RespType::Integer(i64::MIN),
        RespType::BulkString(None),
        RespType::BulkString(Some(vec![])),
        RespType::BulkString(Some(b"foobar".to_vec())),
        RespType::BulkString(Some(b"\r\n\r\n".to_vec())),
        RespType::BulkString(Some((0..=255u8).collect())),
        RespType::Array(vec![]),
        RespType::Array(vec![RespType::Array(vec![]), RespType::Array(vec![])]),
        RespType::Array(vec![
            RespType::SimpleString("foo".to_string()),
            RespType::Integer(-1000),
            RespType::BulkString(Some(b"foobar".to_vec())),
            RespType::BulkString(None),
            RespType::Array(vec![
                RespType::Error("e".to_string()),
                RespType::Array(vec![RespType::BulkString(Some(b"*1\r\n".to_vec()))]),
            ]),
        ]),
        RespType::Array((0..25).map(RespType::Integer).collect()),
    ]
}

#[test]
fn round_trip_of_each_sample() {
    for value in samples() {
        let bytes = value.as_bytes();
        let (rest, back) = RespType::from_bytes(&bytes).unwrap();
        assert!(rest.is_empty(), "something was left of {:?}", value);
        assert_eq!(back, value);
    }
}

#[test]
fn pipelining_of_each_pair_of_samples() {
    let tail: &[u8] = b"+tail\r\n\xff*";
    for first in samples() {
        for second in samples() {
            let mut bytes = first.as_bytes();
            bytes.extend_from_slice(&second.as_bytes());
            bytes.extend_from_slice(tail);
            let (rest, value) = RespType::from_bytes(&bytes).unwrap();
            assert_eq!(value, first);
            let mut expected = second.as_bytes();
            expected.extend_from_slice(tail);
            assert_eq!(rest, &expected[..]);
            let (rest, value) = RespType::from_bytes(rest).unwrap();
            assert_eq!(value, second);
            assert_eq!(rest, tail);
        }
    }
}

#[test]
fn truncation_of_each_sample() {
    for value in samples() {
        let mut bytes = value.as_bytes();
        bytes.pop();
        assert_eq!(
            RespType::from_bytes(&bytes),
            Err(ParseError::UnexpectedEof),
            "the encoding of {:?} without its last byte",
            value
        );
    }
}

#[test]
fn decoded_values_encode_to_what_decodes_to_them() {
    let inputs: Vec<&[u8]> = vec![
        b"*-1\r\n",
        b"*-7\r\nrest",
        b":-0\r\n",
        b":0042\r\n",
        b"$3\r\nabcXY",
        b"*2\r\n*-1\r\n$-1\r\n",
        b"+a\rb\r\n",
    ];
    for input in inputs {
        let (_, value) = RespType::from_bytes(input).unwrap();
        let bytes = value.as_bytes();
        let (rest, back) = RespType::from_bytes(&bytes).unwrap();
        assert!(rest.is_empty());
        assert_eq!(back, value);
    }
}

#[test]
fn null_array_is_read_as_the_empty_array_and_written_as_such() {
    let (rest, value) = RespType::from_bytes(b"*-1\r\n").unwrap();
    assert!(rest.is_empty());
    assert_eq!(value, RespType::Array(vec![]));
    assert_eq!(value.as_bytes(), b"*0\r\n");
}

#[test]
fn a_text_with_a_line_end_inside_is_not_read_back() {
    let value = RespType::SimpleString("a\r\nb".to_string());
    let bytes = value.as_bytes();
    assert_eq!(bytes, b"+a\r\nb\r\n");
    let (rest, back) = RespType::from_bytes(&bytes).unwrap();
    assert_eq!(back, RespType::SimpleString("a".to_string()));
    assert_eq!(rest, b"b\r\n");
}

#[test]
fn decoding_never_gives_the_error_kept_for_what_cannot_happen() {
    let inputs: Vec<&[u8]> = vec![
        b"",
        b"-",
        b"-x\r\n",
        b"*1\r\n*1\r\n*1\r\n",
        b"*2\r\n*0\r\n",
        b"$5\r\n",
        b"?",
    ];
    for input in inputs {
        assert_ne!(RespType::from_bytes(input), Err(ParseError::UnforeseenError));
    }
}
