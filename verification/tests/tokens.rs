use depot::component::Component;
use depot::token::offset_decode;
use depot::token::offset_encode;

#[test]
fn test_offset_encode_decode() {
    let test = |component: Component, section_offset: u32, expected: u64| {
        let encoded = offset_encode(&component, section_offset);
        let decoded = offset_decode(encoded).unwrap();

        assert_eq!(encoded, expected);
        assert_eq!((component, section_offset), decoded);
    };

    test(Component::new(), 0, 0);
    test(Component::new(), 1, 1);
    test(Component::from(0, 0, 0, 1).unwrap(), 0, 1 << 32);
    test(Component::from(0, 0, 0, 2).unwrap(), 1, (1 << 33) + 1);
    test(Component::from(1, 999, 999, 999).unwrap(), 1, 8589934587705032705);
}

#[test]
fn queue_test_offset_encode_decode() {
    let test = |component: Component, section_offset: u32, expected: u64| {
        let encoded = offset_encode(&component, section_offset);
        let decoded = offset_decode(encoded).unwrap();

        assert_eq!(encoded, expected);
        assert_eq!((component, section_offset), decoded);
    };

    test(Component::new(), 0, 0);
    test(Component::new(), 1, 1);
    test(Component::from(0, 0, 0, 1).unwrap(), 0, 1 << 32);
    test(Component::from(0, 0, 0, 2).unwrap(), 1, (1 << 33) + 1);
    test(Component::from(1, 999, 999, 999).unwrap(), 1, 8589934587705032705);
}

#[test]
fn token_decode_rejects_bad_component() {
    // high half above the largest component encoding
    let bad: u64 = 2_000_000_000u64 << 32;
    assert!(offset_decode(bad).is_err());

    // the largest valid token round-trips
    let c = Component::from(1, 999, 999, 999).unwrap();
    let t = offset_encode(&c, u32::MAX);
    assert_eq!(offset_decode(t).unwrap(), (c, u32::MAX));
}
