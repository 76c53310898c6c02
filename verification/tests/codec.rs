use depot::codec::decode_payload;
use depot::codec::encode_record;
use depot::error::Error;
use depot::reader::Decoded;
use depot::reader::parse_item;

#[test]
fn encode_escapes_sentinels() {
    // 0x0A (separator), 0x2D (fail marker), 0x5C (escape) expand; the
    // record always ends in a single separator byte
    let encoded = encode_record(&[0x00, 0x0A, 0x2D, 0x5C, 0xFF]);
    assert_eq!(
        encoded,
        vec![0x00, 0x5C, 0x24, 0x5C, 0x2E, 0x5C, 0x5C, 0xFF, 0x0A]
    );

    // a plain record passes through untouched
    assert_eq!(encode_record(b"abc"), vec![b'a', b'b', b'c', 0x0A]);

    // the empty record is a bare separator
    assert_eq!(encode_record(&[]), vec![0x0A]);
}

#[test]
fn decode_inverts_encode() {
    let payloads: Vec<Vec<u8>> = vec![
        vec![],
        vec![0x0A],
        vec![0x2D],
        vec![0x5C],
        vec![0x5C, 0x5C, 0x5C],
        b"the quick brown fox jumped over the lazy dog, -\n #0".to_vec(),
        (0u16..256).map(|b| b as u8).collect(),
    ];
    for payload in payloads {
        let encoded = encode_record(&payload);
        // strip the trailing separator to get the record's raw bytes
        let raw = &encoded[..encoded.len() - 1];
        assert_eq!(decode_payload(raw).unwrap(), payload);
    }
}

#[test]
fn decode_rejects_invalid_escape() {
    // escape followed by a byte that is not a remap
    assert_eq!(decode_payload(&[0x5C, 0x41]), Err(Error::CorruptData));
    // dangling escape at the end of the record
    assert_eq!(decode_payload(&[0x41, 0x5C]), Err(Error::CorruptData));
}

#[test]
fn parse_item_splits_kinds() {
    // a record ending in the fail marker is truncated and stays raw
    let raw = vec![b'p', b'a', b'r', 0x2D, 0x2D];
    match parse_item(17, raw.clone()).unwrap() {
        Decoded::TruncatedItem(t) => assert_eq!(t.data, raw),
        Decoded::Item(_) => panic!("expected a truncated item"),
    }

    // a clean record decodes and carries the id through
    let encoded = encode_record(b"hi-\n");
    let raw = encoded[..encoded.len() - 1].to_vec();
    match parse_item(42, raw).unwrap() {
        Decoded::Item(item) => {
            assert_eq!(item.id, 42);
            assert_eq!(item.data, b"hi-\n".to_vec());
        }
        Decoded::TruncatedItem(_) => panic!("expected a complete item"),
    }

    // an invalid escape is corrupt data
    assert!(parse_item(0, vec![0x5C, 0x41]).is_err());
}
