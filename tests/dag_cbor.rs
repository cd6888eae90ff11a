use ipld::{deserialize, serialize, Cid, DecodeError, Ipld, Multihash};

#[test]
fn serde_roundtrip() {
    let ipld_null = Ipld::Null;
    let ipld_bool = Ipld::Bool(true);
    let ipld_number = Ipld::Number(0x17);
    let ipld_number_big = Ipld::Number(0x10000);
    let ipld_string = Ipld::String("Hello".into());
    let ipld_bytes = Ipld::Bytes(vec![0, 8, 4, 0]);
    let ipld_array = Ipld::Array(vec![Ipld::String("Hello".into())]);
    let ipld_object = Ipld::to_object(vec![("Hello".into(), Ipld::String("World".into()))]);
    let cid = Cid::new(1, 0x71, Multihash::sha3_256(&serialize(&ipld_null)));
    let _ipld_link = Ipld::Link(cid);
    assert_eq!(ipld_null, deserialize(&serialize(&ipld_null)[..]).unwrap());
    assert_eq!(ipld_bool, deserialize(&serialize(&ipld_bool)[..]).unwrap());
    assert_eq!(ipld_number, deserialize(&serialize(&ipld_number)[..]).unwrap());
    assert_eq!(ipld_number_big, deserialize(&serialize(&ipld_number_big)[..]).unwrap());
    assert_eq!(ipld_string, deserialize(&serialize(&ipld_string)[..]).unwrap());
    assert_eq!(ipld_bytes, deserialize(&serialize(&ipld_bytes)[..]).unwrap());
    assert_eq!(ipld_array, deserialize(&serialize(&ipld_array)[..]).unwrap());
    assert_eq!(ipld_object, deserialize(&serialize(&ipld_object)[..]).unwrap());
}

#[test]
fn literal_vectors() {
    assert_eq!(serialize(&Ipld::Null), vec![0xf6]);
    assert_eq!(serialize(&Ipld::Bool(true)), vec![0xf5]);
    assert_eq!(serialize(&Ipld::Bool(false)), vec![0xf4]);
    assert_eq!(serialize(&Ipld::Number(23)), vec![23]);
    assert_eq!(serialize(&Ipld::Number(0x10000)), vec![0x1a, 0x00, 0x01, 0x00, 0x00]);
    assert_eq!(serialize(&Ipld::String("Hello".into())), vec![0x65, b'H', b'e', b'l', b'l', b'o']);
    assert_eq!(serialize(&Ipld::Bytes(vec![0, 8, 4, 0])), vec![68, 0, 8, 4, 0]);
    assert_eq!(
        serialize(&Ipld::Array(vec![Ipld::String("Hello".into())])),
        vec![129, 101, 72, 101, 108, 108, 111]
    );
    assert_eq!(
        serialize(&Ipld::to_object(vec![("Hello".into(), Ipld::String("World".into()))])),
        vec![161, 101, 72, 101, 108, 108, 111, 101, 87, 111, 114, 108, 100]
    );
}

#[test]
fn integer_heads_use_the_shortest_form() {
    assert_eq!(serialize(&Ipld::Number(24)), vec![0x18, 24]);
    assert_eq!(serialize(&Ipld::Number(255)), vec![0x18, 0xff]);
    assert_eq!(serialize(&Ipld::Number(256)), vec![0x19, 0x01, 0x00]);
    assert_eq!(serialize(&Ipld::Number(65535)), vec![0x19, 0xff, 0xff]);
    assert_eq!(serialize(&Ipld::Number(4294967295)), vec![0x1a, 0xff, 0xff, 0xff, 0xff]);
    assert_eq!(
        serialize(&Ipld::Number(4294967296)),
        vec![0x1b, 0, 0, 0, 1, 0, 0, 0, 0]
    );
    assert_eq!(
        serialize(&Ipld::Number(u64::MAX)),
        vec![0x1b, 0xff, 0xff, 0xff, 0xff, 0xff, 0xff, 0xff, 0xff]
    );
    for n in [0u64, 23, 24, 255, 256, 65535, 65536, 4294967295, 4294967296, u64::MAX] {
        assert_eq!(deserialize(&serialize(&Ipld::Number(n))).unwrap(), Ipld::Number(n));
    }
}

#[test]
fn object_order_is_canonical() {
    let a = Ipld::to_object(vec![
        ("b".into(), Ipld::Number(2)),
        ("a".into(), Ipld::Number(1)),
        ("Hello".into(), Ipld::Null),
    ]);
    let b = Ipld::to_object(vec![
        ("Hello".into(), Ipld::Null),
        ("a".into(), Ipld::Number(1)),
        ("b".into(), Ipld::Number(2)),
    ]);
    assert_eq!(serialize(&a), serialize(&b));
    assert_eq!(a, b);
    match &a {
        Ipld::Object(entries) => {
            let keys: Vec<&str> = entries.iter().map(|(k, _)| k.as_str()).collect();
            assert_eq!(keys, vec!["Hello", "a", "b"]);
        }
        _ => panic!("not an object"),
    }
}

#[test]
fn object_later_pair_wins() {
    let o = Ipld::to_object(vec![
        ("k".into(), Ipld::Number(1)),
        ("k".into(), Ipld::Number(2)),
    ]);
    assert_eq!(o, Ipld::Object(vec![("k".to_string(), Ipld::Number(2))]));
}

#[test]
fn object_keys_order_by_code_point() {
    let o = Ipld::to_object(vec![
        ("é".into(), Ipld::Null),
        ("z".into(), Ipld::Null),
        ("".into(), Ipld::Null),
        ("za".into(), Ipld::Null),
    ]);
    match &o {
        Ipld::Object(entries) => {
            let keys: Vec<&str> = entries.iter().map(|(k, _)| k.as_str()).collect();
            assert_eq!(keys, vec!["", "z", "za", "é"]);
        }
        _ => panic!("not an object"),
    }
    assert_eq!(deserialize(&serialize(&o)).unwrap(), o);
}

#[test]
fn decoded_objects_are_sorted_and_deduplicated() {
    // {"b": 1, "a": 2, "b": 3} as written by a careless encoder
    let bytes = vec![0xa3, 0x61, b'b', 0x01, 0x61, b'a', 0x02, 0x61, b'b', 0x03];
    let o = deserialize(&bytes).unwrap();
    assert_eq!(
        o,
        Ipld::Object(vec![("a".to_string(), Ipld::Number(2)), ("b".to_string(), Ipld::Number(3))])
    );
}

#[test]
fn nested_round_trip() {
    let v = Ipld::Array(vec![
        Ipld::Null,
        Ipld::Array(vec![Ipld::Number(1000), Ipld::Bytes(vec![])]),
        Ipld::to_object(vec![
            ("x".into(), Ipld::Array(vec![])),
            ("y".into(), Ipld::String("ünïcode".into())),
        ]),
    ]);
    let bytes = serialize(&v);
    assert_eq!(deserialize(&bytes).unwrap(), v);
}

#[test]
fn link_round_trip() {
    let cid = Cid::new(1, 0x71, Multihash::sha3_256(&serialize(&Ipld::Null)));
    let link = Ipld::Link(cid.clone());
    let bytes = serialize(&link);
    assert_eq!(&bytes[..5], &[0xd8, 42, 0x58, 37, 0x00]);
    assert_eq!(&bytes[5..], &cid.to_bytes()[..]);
    assert_eq!(deserialize(&bytes).unwrap(), link);
}

#[test]
fn link_without_reserved_prefix_is_refused() {
    let cid = Cid::new(1, 0x71, Multihash::sha3_256(&[1]));
    let mut bytes = serialize(&Ipld::Link(cid));
    bytes[4] = 0x01;
    assert_eq!(deserialize(&bytes), Err(DecodeError::LinkFraming));
}

#[test]
fn link_with_empty_payload_is_refused() {
    assert_eq!(deserialize(&[0xd8, 42, 0x58, 0x00]), Err(DecodeError::LinkFraming));
}

#[test]
fn link_with_wrong_inner_type_is_refused() {
    assert_eq!(deserialize(&[0xd8, 42, 0x45, 0, 1, 2, 3, 4]), Err(DecodeError::LinkFraming));
}

#[test]
fn unknown_tag_is_refused() {
    assert_eq!(deserialize(&[0xd8, 41, 0x58, 0x01, 0x00]), Err(DecodeError::UnknownCborTag));
    assert_eq!(deserialize(&[0x20]), Err(DecodeError::UnknownCborTag));
    assert_eq!(deserialize(&[0xfb, 0, 0, 0, 0, 0, 0, 0, 0]), Err(DecodeError::UnknownCborTag));
}

#[test]
fn object_key_must_be_text() {
    assert_eq!(deserialize(&[0xa1, 0x01, 0x02]), Err(DecodeError::UnexpectedCborCode));
}

#[test]
fn invalid_utf8_is_refused() {
    assert_eq!(deserialize(&[0x62, 0xff, 0xfe]), Err(DecodeError::InvalidUtf8));
}

#[test]
fn truncated_streams_are_refused() {
    assert_eq!(deserialize(&[]), Err(DecodeError::TruncatedInput));
    assert_eq!(deserialize(&[0x19, 0x01]), Err(DecodeError::TruncatedInput));
    assert_eq!(deserialize(&[0x43, 1, 2]), Err(DecodeError::TruncatedInput));
    assert_eq!(deserialize(&[0x82, 0x01]), Err(DecodeError::TruncatedInput));
    // a huge declared count with nothing behind it
    assert_eq!(
        deserialize(&[0x9b, 0xff, 0xff, 0xff, 0xff, 0xff, 0xff, 0xff, 0xff]),
        Err(DecodeError::TruncatedInput)
    );
}

#[test]
fn array_element_error_aborts_the_array() {
    assert_eq!(deserialize(&[0x82, 0x01, 0x20]), Err(DecodeError::UnknownCborTag));
}

#[test]
fn clone_keeps_the_value() {
    let v = Ipld::to_object(vec![("k".into(), Ipld::Array(vec![Ipld::Bytes(vec![1, 2])]))]);
    assert_eq!(v.clone(), v);
}

#[test]
fn stored_object_order_does_not_change_the_bytes() {
    let unsorted = Ipld::Object(vec![
        ("b".to_string(), Ipld::Number(2)),
        ("a".to_string(), Ipld::Number(9)),
        ("a".to_string(), Ipld::Number(1)),
    ]);
    let sorted = Ipld::Object(vec![("a".to_string(), Ipld::Number(1)), ("b".to_string(), Ipld::Number(2))]);
    assert_eq!(serialize(&unsorted), serialize(&sorted));
    assert_eq!(serialize(&unsorted), vec![0xa2, 0x61, b'a', 0x01, 0x61, b'b', 0x02]);
    assert_eq!(deserialize(&serialize(&unsorted)).unwrap(), sorted);
}

#[test]
fn cid_inside_a_link_is_malformed_when_cut_off() {
    // a link frame whose payload holds only a cut-off CID
    assert_eq!(deserialize(&[0xd8, 42, 0x58, 0x02, 0x00, 0x80]), Err(DecodeError::MalformedCid));
}
