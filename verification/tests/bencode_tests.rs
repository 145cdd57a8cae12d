use torrent_core::parse::{decode, decode_exact, decode_torrent, BencodeParser, DecodeError};
use torrent_core::value::BencodeValue;

#[test]
fn test_parse_string() {
    let data = b"4:spam".to_vec();
    let mut parser = BencodeParser::new(data);

    match parser.parse_value() {
        Ok(BencodeValue::ByteString(bytes)) => {
            assert_eq!(bytes, b"spam");
        }
        _ => panic!("Expected string value"),
    }
}

#[test]
fn test_parse_integer() {
    let test_cases = vec![
        ("i42e", Ok(42)),
        ("i-42e", Ok(-42)),
        ("i0e", Ok(0)),
        ("i123456789e", Ok(123456789)),
        ("ie", Err("Invalid integer format")),
        ("i12", Err("No 'e' found in integer")),
        ("iabc", Err("Invalid integer format")),
    ];

    for (input, expected) in test_cases {
        let mut parser = BencodeParser::new(input.as_bytes().to_vec());
        match (parser.parse_value(), expected) {
            (Ok(BencodeValue::Integer(n)), Ok(expected_n)) => {
                assert_eq!(n, expected_n);
            }
            (Ok(_), Ok(_)) => panic!("Expected integer value"),
            (Err(_), Ok(_)) => panic!("Expected success, got error"),
            (Ok(_), Err(_)) => panic!("Expected error, got success"),
            (Err(_), Err(_)) => {} // Both failed as expected
        }
    }
}

#[test]
fn test_parse_list() {
    // Test case 1: Empty list
    let mut parser = BencodeParser::new(b"le".to_vec());
    match parser.parse_value() {
        Ok(BencodeValue::List(v)) => assert_eq!(v.len(), 0),
        _ => panic!("Expected empty list"),
    }

    // Test case 2: List with string and integer
    let mut parser = BencodeParser::new(b"l4:spami42ee".to_vec());
    match parser.parse_value() {
        Ok(BencodeValue::List(v)) => {
            assert_eq!(v.len(), 2);
            match &v[0] {
                BencodeValue::ByteString(s) => assert_eq!(s, b"spam"),
                _ => panic!("Expected string"),
            }
            match v[1] {
                BencodeValue::Integer(n) => assert_eq!(n, 42),
                _ => panic!("Expected integer"),
            }
        }
        _ => panic!("Expected list"),
    }
}

#[test]
fn decode_counts_consumed_bytes() {
    let data = b"4:spam".to_vec();
    match decode(&data) {
        Ok((BencodeValue::ByteString(s), n)) => {
            assert_eq!(s, b"spam");
            assert_eq!(n, 6);
        }
        other => panic!("unexpected result: {:?}", other),
    }
}

#[test]
fn integer_format_errors() {
    for bad in ["i00e", "i-0e", "ie", "i01e", "i--1e", "i4x2e"] {
        match decode_exact(&bad.as_bytes().to_vec()) {
            Err(DecodeError::InvalidInteger { .. }) => {}
            other => panic!("{} should fail as an integer format error, got {:?}", bad, other),
        }
    }
}

#[test]
fn integer_bounds() {
    let data = b"i9223372036854775807e".to_vec();
    assert_eq!(decode_exact(&data), Ok(BencodeValue::Integer(i64::MAX)));
    let data = b"i-9223372036854775808e".to_vec();
    assert_eq!(decode_exact(&data), Ok(BencodeValue::Integer(i64::MIN)));
    let data = b"i9223372036854775808e".to_vec();
    assert!(matches!(
        decode_exact(&data),
        Err(DecodeError::InvalidInteger { .. })
    ));
}

#[test]
fn dictionary_decoding() {
    let data = b"d3:cow3:moo4:spam4:eggse".to_vec();
    match decode_exact(&data) {
        Ok(BencodeValue::Dictionary(es)) => {
            assert_eq!(es.len(), 2);
            assert_eq!(es[0].0, b"cow");
            assert_eq!(es[0].1, BencodeValue::ByteString(b"moo".to_vec()));
            assert_eq!(es[1].0, b"spam");
            assert_eq!(es[1].1, BencodeValue::ByteString(b"eggs".to_vec()));
        }
        other => panic!("expected dictionary, got {:?}", other),
    }
}

#[test]
fn non_canonical_dictionary_rejected() {
    let data = b"d4:spam3:egg3:cow3:moue".to_vec();
    match decode_exact(&data) {
        Err(DecodeError::NonCanonicalDictionary { offset }) => assert_eq!(offset, 12),
        other => panic!("expected NonCanonicalDictionary, got {:?}", other),
    }
}

#[test]
fn duplicate_key_rejected() {
    let data = b"d1:a1:b1:a1:ce".to_vec();
    assert!(matches!(
        decode_exact(&data),
        Err(DecodeError::DuplicateKey { .. })
    ));
}

#[test]
fn error_offsets_and_variants() {
    assert!(matches!(
        decode_exact(&b"".to_vec()),
        Err(DecodeError::UnexpectedEnd { .. })
    ));
    assert_eq!(
        decode_exact(&b"x".to_vec()),
        Err(DecodeError::InvalidTag { offset: 0 })
    );
    assert_eq!(
        decode_exact(&b"04:spam".to_vec()),
        Err(DecodeError::InvalidLength { offset: 0 })
    );
    assert!(matches!(
        decode_exact(&b"4:spa".to_vec()),
        Err(DecodeError::UnexpectedEnd { .. })
    ));
    assert!(matches!(
        decode_exact(&b"i12".to_vec()),
        Err(DecodeError::MissingTerminator { .. })
    ));
    assert!(matches!(
        decode_exact(&b"li1e".to_vec()),
        Err(DecodeError::MissingTerminator { .. })
    ));
    assert_eq!(
        decode_exact(&b"i1ei2e".to_vec()),
        Err(DecodeError::TrailingData { offset: 3 })
    );
}

#[test]
fn deep_nesting_fails_cleanly() {
    let mut data = vec![b'l'; 10000];
    data.extend(vec![b'e'; 10000]);
    match decode_exact(&data) {
        Err(DecodeError::RecursionLimitExceeded { .. }) => {}
        other => panic!("expected RecursionLimitExceeded, got {:?}", other),
    }
}

#[test]
fn nesting_within_limit_succeeds() {
    let mut data = vec![b'l'; 199];
    data.extend(vec![b'e'; 199]);
    assert!(decode_exact(&data).is_ok());
}

#[test]
fn decode_torrent_records_info_span() {
    let data =
        b"d8:announce8:http://t4:infod6:lengthi100e4:name1:f12:piece lengthi16384e6:pieces20:AAAAAAAAAAAAAAAAAAAAee"
            .to_vec();
    match decode_torrent(&data) {
        Ok((BencodeValue::Dictionary(es), Some((a, b)))) => {
            assert_eq!(es.len(), 2);
            assert_eq!(data[a], b'd');
            assert_eq!(data[b - 1], b'e');
            // the span is exactly the raw encoding of the info value
            let expected: &[u8] =
                b"d6:lengthi100e4:name1:f12:piece lengthi16384e6:pieces20:AAAAAAAAAAAAAAAAAAAAe";
            assert_eq!(&data[a..b], expected);
        }
        other => panic!("unexpected result: {:?}", other),
    }
}

#[test]
fn decode_torrent_without_info_key() {
    let data = b"d3:cow3:mooe".to_vec();
    match decode_torrent(&data) {
        Ok((BencodeValue::Dictionary(_), None)) => {}
        other => panic!("unexpected result: {:?}", other),
    }
}

#[test]
fn partial_decode_leaves_trailing_bytes() {
    // the partial form supports embedding a value in a larger stream
    let data = b"i1eXYZ".to_vec();
    assert_eq!(decode(&data), Ok((BencodeValue::Integer(1), 3)));
    assert_eq!(
        decode_exact(&data),
        Err(DecodeError::TrailingData { offset: 3 })
    );
}
