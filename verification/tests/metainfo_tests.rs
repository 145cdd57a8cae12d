use torrent_core::emit::encode;
use torrent_core::hash::info_hash;
use torrent_core::metainfo::{to_metainfo, FieldName, MapPolicy, ValidationError};
use torrent_core::parse::{decode_exact, decode_torrent};
use torrent_core::value::BencodeValue;

fn bs(b: &[u8]) -> BencodeValue {
    BencodeValue::ByteString(b.to_vec())
}

fn entry(k: &[u8], v: BencodeValue) -> (Vec<u8>, BencodeValue) {
    (k.to_vec(), v)
}

fn single_file_info(pieces_len: usize) -> BencodeValue {
    BencodeValue::Dictionary(vec![
        entry(b"length", BencodeValue::Integer(100)),
        entry(b"name", bs(b"file.bin")),
        entry(b"piece length", BencodeValue::Integer(16384)),
        entry(b"pieces", bs(&vec![0x41u8; pieces_len])),
    ])
}

fn valid_meta() -> BencodeValue {
    BencodeValue::Dictionary(vec![
        entry(b"announce", bs(b"http://tracker.example/announce")),
        entry(b"info", single_file_info(40)),
    ])
}

#[test]
fn maps_valid_single_file_torrent() {
    let m = to_metainfo(&valid_meta(), MapPolicy::Strict).expect("valid torrent maps");
    assert_eq!(m.announce, "http://tracker.example/announce");
    assert_eq!(m.info.piece_length, 16384);
    assert_eq!(m.info.pieces.len(), 40);
    assert_eq!(m.info.name, "file.bin");
    assert_eq!(m.info.length, Some(100));
    assert!(m.info.files.is_none());
    assert!(m.announce_list.is_none());
}

#[test]
fn maps_multi_file_torrent() {
    let file0 = BencodeValue::Dictionary(vec![
        entry(b"length", BencodeValue::Integer(5)),
        entry(b"path", BencodeValue::List(vec![bs(b"dir"), bs(b"a.txt")])),
    ]);
    let file1 = BencodeValue::Dictionary(vec![
        entry(b"length", BencodeValue::Integer(7)),
        entry(b"md5sum", bs(b"0123456789abcdef0123456789abcdef")),
        entry(b"path", BencodeValue::List(vec![bs(b"b.txt")])),
    ]);
    let info = BencodeValue::Dictionary(vec![
        entry(b"files", BencodeValue::List(vec![file0, file1])),
        entry(b"name", bs(b"dir")),
        entry(b"piece length", BencodeValue::Integer(32768)),
        entry(b"pieces", bs(&vec![0u8; 20])),
    ]);
    let meta = BencodeValue::Dictionary(vec![
        entry(b"announce", bs(b"http://t")),
        entry(b"info", info),
    ]);
    let m = to_metainfo(&meta, MapPolicy::Strict).expect("valid multi-file torrent maps");
    let files = m.info.files.expect("files present");
    assert_eq!(files.len(), 2);
    assert_eq!(files[0].length, 5);
    assert_eq!(files[0].path, vec!["dir".to_string(), "a.txt".to_string()]);
    assert!(files[0].md5sum.is_none());
    assert_eq!(files[1].length, 7);
    assert_eq!(
        files[1].md5sum.as_deref(),
        Some("0123456789abcdef0123456789abcdef")
    );
    assert!(m.info.length.is_none());
}

#[test]
fn both_layouts_is_ambiguous() {
    let info = BencodeValue::Dictionary(vec![
        entry(b"files", BencodeValue::List(vec![])),
        entry(b"length", BencodeValue::Integer(100)),
        entry(b"name", bs(b"x")),
        entry(b"piece length", BencodeValue::Integer(16384)),
        entry(b"pieces", bs(&vec![0u8; 20])),
    ]);
    let meta = BencodeValue::Dictionary(vec![
        entry(b"announce", bs(b"http://t")),
        entry(b"info", info),
    ]);
    assert_eq!(
        to_metainfo(&meta, MapPolicy::Strict),
        Err(ValidationError::AmbiguousLayout)
    );
}

#[test]
fn neither_layout_is_ambiguous() {
    let info = BencodeValue::Dictionary(vec![
        entry(b"name", bs(b"x")),
        entry(b"piece length", BencodeValue::Integer(16384)),
        entry(b"pieces", bs(&vec![0u8; 20])),
    ]);
    let meta = BencodeValue::Dictionary(vec![
        entry(b"announce", bs(b"http://t")),
        entry(b"info", info),
    ]);
    assert_eq!(
        to_metainfo(&meta, MapPolicy::Strict),
        Err(ValidationError::AmbiguousLayout)
    );
}

#[test]
fn misaligned_pieces_rejected() {
    let meta = BencodeValue::Dictionary(vec![
        entry(b"announce", bs(b"http://t")),
        entry(b"info", single_file_info(21)),
    ]);
    assert_eq!(
        to_metainfo(&meta, MapPolicy::Strict),
        Err(ValidationError::MalformedPieces)
    );
}

#[test]
fn missing_required_fields() {
    let meta = BencodeValue::Dictionary(vec![entry(b"info", single_file_info(20))]);
    assert_eq!(
        to_metainfo(&meta, MapPolicy::Strict),
        Err(ValidationError::MissingField(FieldName::Announce))
    );
    let meta = BencodeValue::Dictionary(vec![entry(b"announce", bs(b"http://t"))]);
    assert_eq!(
        to_metainfo(&meta, MapPolicy::Strict),
        Err(ValidationError::MissingField(FieldName::Info))
    );
}

#[test]
fn wrong_typed_required_field() {
    let meta = BencodeValue::Dictionary(vec![
        entry(b"announce", BencodeValue::Integer(1)),
        entry(b"info", single_file_info(20)),
    ]);
    assert_eq!(
        to_metainfo(&meta, MapPolicy::Strict),
        Err(ValidationError::TypeMismatch(FieldName::Announce))
    );
    let info = BencodeValue::Dictionary(vec![
        entry(b"length", BencodeValue::Integer(100)),
        entry(b"name", bs(b"x")),
        entry(b"piece length", BencodeValue::Integer(0)),
        entry(b"pieces", bs(&vec![0u8; 20])),
    ]);
    let meta = BencodeValue::Dictionary(vec![
        entry(b"announce", bs(b"http://t")),
        entry(b"info", info),
    ]);
    assert_eq!(
        to_metainfo(&meta, MapPolicy::Strict),
        Err(ValidationError::TypeMismatch(FieldName::PieceLength))
    );
}

#[test]
fn announce_must_be_text() {
    let meta = BencodeValue::Dictionary(vec![
        entry(b"announce", bs(&[0xffu8, 0xfe])),
        entry(b"info", single_file_info(20)),
    ]);
    assert_eq!(
        to_metainfo(&meta, MapPolicy::Strict),
        Err(ValidationError::TypeMismatch(FieldName::Announce))
    );
}

#[test]
fn malformed_file_entry_is_indexed() {
    let good = BencodeValue::Dictionary(vec![
        entry(b"length", BencodeValue::Integer(5)),
        entry(b"path", BencodeValue::List(vec![bs(b"a")])),
    ]);
    let bad = BencodeValue::Dictionary(vec![
        entry(b"length", BencodeValue::Integer(-1)),
        entry(b"path", BencodeValue::List(vec![bs(b"b")])),
    ]);
    let info = BencodeValue::Dictionary(vec![
        entry(b"files", BencodeValue::List(vec![good, bad])),
        entry(b"name", bs(b"d")),
        entry(b"piece length", BencodeValue::Integer(16384)),
        entry(b"pieces", bs(&vec![0u8; 20])),
    ]);
    let meta = BencodeValue::Dictionary(vec![
        entry(b"announce", bs(b"http://t")),
        entry(b"info", info),
    ]);
    assert_eq!(
        to_metainfo(&meta, MapPolicy::Strict),
        Err(ValidationError::MalformedFileEntry(1))
    );
}

#[test]
fn empty_path_segment_is_malformed() {
    let bad = BencodeValue::Dictionary(vec![
        entry(b"length", BencodeValue::Integer(5)),
        entry(b"path", BencodeValue::List(vec![bs(b"")])),
    ]);
    let info = BencodeValue::Dictionary(vec![
        entry(b"files", BencodeValue::List(vec![bad])),
        entry(b"name", bs(b"d")),
        entry(b"piece length", BencodeValue::Integer(16384)),
        entry(b"pieces", bs(&vec![0u8; 20])),
    ]);
    let meta = BencodeValue::Dictionary(vec![
        entry(b"announce", bs(b"http://t")),
        entry(b"info", info),
    ]);
    assert_eq!(
        to_metainfo(&meta, MapPolicy::Strict),
        Err(ValidationError::MalformedFileEntry(0))
    );
}

#[test]
fn policy_decides_bad_optional_fields() {
    let meta = BencodeValue::Dictionary(vec![
        entry(b"announce", bs(b"http://t")),
        entry(b"comment", BencodeValue::Integer(7)),
        entry(b"info", single_file_info(20)),
    ]);
    assert_eq!(
        to_metainfo(&meta, MapPolicy::Strict),
        Err(ValidationError::TypeMismatch(FieldName::Comment))
    );
    let m = to_metainfo(&meta, MapPolicy::Lenient).expect("lenient mapping succeeds");
    assert!(m.comment.is_none());
}

#[test]
fn optional_fields_are_carried_through() {
    let meta = BencodeValue::Dictionary(vec![
        entry(
            b"announce-list",
            BencodeValue::List(vec![BencodeValue::List(vec![bs(b"http://a"), bs(b"http://b")])]),
        ),
        entry(b"announce", bs(b"http://t")),
        entry(b"comment", bs(b"hello")),
        entry(b"created by", bs(b"someone")),
        entry(b"creation date", BencodeValue::Integer(1700000000)),
        entry(b"info", single_file_info(20)),
    ]);
    let m = to_metainfo(&meta, MapPolicy::Strict).expect("valid torrent maps");
    assert_eq!(
        m.announce_list,
        Some(vec![vec!["http://a".to_string(), "http://b".to_string()]])
    );
    assert_eq!(m.creation_date, Some(1700000000));
    assert_eq!(m.comment.as_deref(), Some("hello"));
    assert_eq!(m.created_by.as_deref(), Some("someone"));
}

#[test]
fn info_hash_known_digest() {
    // SHA-1("abc") is the classic test vector
    let data = b"abc".to_vec();
    let h = info_hash(&data, 0, 3);
    let expected: Vec<u8> = vec![
        0xa9, 0x99, 0x3e, 0x36, 0x47, 0x06, 0x81, 0x6a, 0xba, 0x3e, 0x25, 0x71, 0x78, 0x50,
        0xc2, 0x6c, 0x9c, 0xd0, 0xd8, 0x9d,
    ];
    assert_eq!(h, expected);
}

#[test]
fn info_hash_is_stable_across_decodes() {
    let data =
        b"d8:announce8:http://t4:infod6:lengthi100e4:name1:f12:piece lengthi16384e6:pieces20:AAAAAAAAAAAAAAAAAAAAee"
            .to_vec();
    let (v1, span1) = decode_torrent(&data).expect("decodes");
    let (v2, span2) = decode_torrent(&data).expect("decodes again");
    assert_eq!(v1, v2);
    assert_eq!(span1, span2);
    let (a, b) = span1.expect("info span recorded");
    let h1 = info_hash(&data, a, b);
    let h2 = info_hash(&data, a, b);
    assert_eq!(h1.len(), 20);
    assert_eq!(h1, h2);

    // Re-serializing through the encoder and re-decoding still validates
    // to the same metainfo.
    let reencoded = encode(&v1);
    assert_eq!(reencoded, data);
    let v3 = decode_exact(&reencoded).expect("re-decodes");
    assert_eq!(v1, v3);
    let m1 = to_metainfo(&v1, MapPolicy::Strict).expect("maps");
    let m3 = to_metainfo(&v3, MapPolicy::Strict).expect("maps again");
    assert_eq!(m1.announce, m3.announce);
    assert_eq!(m1.info.piece_length, m3.info.piece_length);
    assert_eq!(m1.info.pieces, m3.info.pieces);
    assert_eq!(m1.info.name, m3.info.name);
    assert_eq!(m1.info.length, m3.info.length);
}

#[test]
fn lenient_policy_drops_malformed_announce_list() {
    let meta = BencodeValue::Dictionary(vec![
        entry(b"announce-list", BencodeValue::Integer(3)),
        entry(b"announce", bs(b"http://t")),
        entry(b"info", single_file_info(20)),
    ]);
    assert_eq!(
        to_metainfo(&meta, MapPolicy::Strict),
        Err(ValidationError::TypeMismatch(FieldName::AnnounceList))
    );
    let m = to_metainfo(&meta, MapPolicy::Lenient).expect("lenient mapping succeeds");
    assert!(m.announce_list.is_none());
}

#[test]
fn non_dictionary_value_fails_mapping() {
    assert_eq!(
        to_metainfo(&BencodeValue::Integer(1), MapPolicy::Strict),
        Err(ValidationError::MissingField(FieldName::Announce))
    );
}
