use torrent_core::emit::encode;
use torrent_core::parse::decode_exact;
use torrent_core::value::BencodeValue;

fn bs(b: &[u8]) -> BencodeValue {
    BencodeValue::ByteString(b.to_vec())
}

#[test]
fn encode_primitives() {
    assert_eq!(encode(&BencodeValue::Integer(42)), b"i42e");
    assert_eq!(encode(&BencodeValue::Integer(-42)), b"i-42e");
    assert_eq!(encode(&BencodeValue::Integer(0)), b"i0e");
    assert_eq!(encode(&BencodeValue::Integer(i64::MIN)), b"i-9223372036854775808e");
    assert_eq!(encode(&bs(b"spam")), b"4:spam");
    assert_eq!(encode(&bs(b"")), b"0:");
    assert_eq!(
        encode(&BencodeValue::List(vec![bs(b"spam"), BencodeValue::Integer(42)])),
        b"l4:spami42ee"
    );
    assert_eq!(encode(&BencodeValue::List(vec![])), b"le");
    assert_eq!(encode(&BencodeValue::Dictionary(vec![])), b"de");
}

#[test]
fn encoder_sorts_dictionary_keys() {
    // keys handed over in the wrong order come out strictly increasing
    let v = BencodeValue::Dictionary(vec![
        (b"spam".to_vec(), bs(b"eggs")),
        (b"cow".to_vec(), bs(b"moo")),
    ]);
    assert_eq!(encode(&v), b"d3:cow3:moo4:spam4:eggse");
}

#[test]
fn encoder_sorts_nested_dictionaries() {
    let inner = BencodeValue::Dictionary(vec![
        (b"b".to_vec(), BencodeValue::Integer(2)),
        (b"a".to_vec(), BencodeValue::Integer(1)),
    ]);
    let v = BencodeValue::List(vec![inner]);
    assert_eq!(encode(&v), b"ld1:ai1e1:bi2eee");
}

#[test]
fn round_trip_canonical_values() {
    let v = BencodeValue::Dictionary(vec![
        (b"cow".to_vec(), bs(b"moo")),
        (
            b"nested".to_vec(),
            BencodeValue::List(vec![
                BencodeValue::Integer(-7),
                bs(b""),
                BencodeValue::Dictionary(vec![(b"k".to_vec(), BencodeValue::Integer(0))]),
            ]),
        ),
    ]);
    let bytes = encode(&v);
    assert_eq!(decode_exact(&bytes), Ok(v));
}

#[test]
fn reencoding_decoded_bytes_is_identity() {
    let data = b"d3:cow3:moo4:spaml4:eggsi-1eee".to_vec();
    let v = decode_exact(&data).expect("canonical input decodes");
    assert_eq!(encode(&v), data);
}
