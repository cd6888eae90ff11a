use ipld::{from_varint, to_varint, varint_read_u64, DecodeError};

#[test]
fn varint_roundtrip() {
    assert_eq!(from_varint(&vec![160, 141, 6]).unwrap(), 100000);
    assert_eq!(from_varint(&to_varint(50)).unwrap(), 50);
}

#[test]
fn varint_known_encodings() {
    assert_eq!(to_varint(0), vec![0]);
    assert_eq!(to_varint(127), vec![0x7f]);
    assert_eq!(to_varint(128), vec![0x80, 0x01]);
    assert_eq!(to_varint(300), vec![0xac, 0x02]);
    assert_eq!(to_varint(100000), vec![160, 141, 6]);
}

#[test]
fn varint_round_trip_extremes() {
    for n in [0u64, 1, 127, 128, 16383, 16384, u32::MAX as u64, u64::MAX - 1, u64::MAX] {
        let bytes = to_varint(n);
        assert!(bytes.len() <= 10);
        assert!(bytes.len() == 1 || *bytes.last().unwrap() != 0);
        assert_eq!(from_varint(&bytes), Ok(n));
    }
    assert_eq!(to_varint(u64::MAX).len(), 10);
}

#[test]
fn varint_read_reports_position() {
    let bytes = vec![0xff, 0xac, 0x02, 0x07];
    assert_eq!(varint_read_u64(&bytes, 1), Ok((300, 3)));
    assert_eq!(varint_read_u64(&bytes, 3), Ok((7, 4)));
}

#[test]
fn varint_truncated() {
    assert_eq!(from_varint(&[]), Err(DecodeError::TruncatedInput));
    assert_eq!(from_varint(&[0x80, 0x80]), Err(DecodeError::TruncatedInput));
}

#[test]
fn varint_overflow() {
    // no terminating byte within the ten that a 64-bit value can need
    assert_eq!(from_varint(&[0x80; 12]), Err(DecodeError::Overflow));
    // ten bytes whose value exceeds 64 bits
    let mut too_big = vec![0xff; 9];
    too_big.push(0x02);
    assert_eq!(from_varint(&too_big), Err(DecodeError::Overflow));
}
