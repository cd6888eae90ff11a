use ipld::{Cid, DecodeError, HashAlgorithm, Multihash};
use std::collections::BTreeSet;

#[test]
fn multihash_bytes_roundtrip() {
    let data = vec![1];
    let result = Multihash::sha3_256(&data);
    assert_eq!(result, Multihash::from_bytes(&result.to_bytes()[..]).unwrap());
}

#[test]
fn multihash_sha3_shapes() {
    let a = Multihash::sha3_256(&[1, 2, 3]);
    assert_eq!(a.code(), 0x16);
    assert_eq!(a.size(), 32);
    assert_eq!(a.digest().len(), 32);
    let b = Multihash::sha3_512(&[1, 2, 3]);
    assert_eq!(b.code(), 0x14);
    assert_eq!(b.size(), 64);
    assert_eq!(b.digest().len(), 64);
    let bytes = b.to_bytes();
    assert_eq!(&bytes[..2], &[0x14, 0x40]);
    assert_eq!(Multihash::from_bytes(&bytes).unwrap(), b);
}

#[test]
fn multihash_sha3_256_known_digest() {
    // SHA3-256 of the empty string
    let m = Multihash::sha3_256(&[]);
    assert_eq!(
        m.digest(),
        &[
            0xa7, 0xff, 0xc6, 0xf8, 0xbf, 0x1e, 0xd7, 0x66, 0x51, 0xc1, 0x47, 0x56, 0xa0, 0x61,
            0xd6, 0x62, 0xf5, 0x80, 0xff, 0x4d, 0xe4, 0x3b, 0x49, 0xfa, 0x82, 0xd8, 0x0a, 0x4b,
            0x80, 0xf8, 0x43, 0x4a
        ]
    );
}

#[test]
fn multihash_short_digest_is_truncated() {
    let bytes = vec![0x16, 0x20, 1, 2, 3];
    assert_eq!(Multihash::from_bytes(&bytes), Err(DecodeError::TruncatedInput));
}

#[test]
fn multihash_empty_input() {
    assert_eq!(Multihash::from_bytes(&[]), Err(DecodeError::TruncatedInput));
}

#[test]
fn cid_bytes_roundrip() {
    let data = vec![1];
    let digest = Multihash::sha3_256(&data);
    let cid = Cid { version: 0x01, codec: 0x71, hash: digest };
    assert_eq!(cid, Cid::from_bytes(&cid.to_bytes()[..]).unwrap());
}

#[test]
fn cid_layout() {
    let cid = Cid::new(1, 0x71, Multihash::sha3_256(&[1]));
    let bytes = cid.to_bytes();
    assert_eq!(&bytes[..4], &[0x01, 0x71, 0x16, 0x20]);
    assert_eq!(bytes.len(), 36);
}

#[test]
fn cid_empty_input() {
    assert_eq!(Cid::from_bytes(&[]), Err(DecodeError::TruncatedInput));
}

#[test]
fn cid_bad_version_is_malformed() {
    let bytes = vec![0xff; 12];
    assert_eq!(Cid::from_bytes(&bytes), Err(DecodeError::MalformedCid));
}

#[test]
fn digest_with_selects_the_algorithm() {
    let data = vec![7, 7, 7];
    assert_eq!(Multihash::digest_with(HashAlgorithm::Sha3_256, &data), Multihash::sha3_256(&data));
    assert_eq!(Multihash::digest_with(HashAlgorithm::Sha3_512, &data), Multihash::sha3_512(&data));
    assert_ne!(Multihash::sha3_256(&data), Multihash::sha3_256(&[7, 7]));
}

#[test]
fn cids_work_as_set_keys() {
    let a = Cid::new(1, 0x71, Multihash::sha3_256(&[1]));
    let b = Cid::new(1, 0x71, Multihash::sha3_256(&[2]));
    let mut set = BTreeSet::new();
    set.insert(a.clone());
    set.insert(b.clone());
    set.insert(a.clone());
    assert_eq!(set.len(), 2);
    assert_ne!(a, b);
    assert_eq!(a.duplicate(), a);
}

#[test]
fn cut_off_cid_is_malformed() {
    // inside the version varint
    assert_eq!(Cid::from_bytes(&[0x80]), Err(DecodeError::MalformedCid));
    // the multihash header is missing
    assert_eq!(Cid::from_bytes(&[0x01, 0x71]), Err(DecodeError::MalformedCid));
    // the digest is cut short
    let cid = Cid::new(1, 0x71, Multihash::sha3_256(&[1]));
    let bytes = cid.to_bytes();
    assert_eq!(Cid::from_bytes(&bytes[..bytes.len() - 1]), Err(DecodeError::MalformedCid));
    // a cut-off multihash on its own stays truncated
    assert_eq!(Multihash::from_bytes(&[0x16, 0x20, 1]), Err(DecodeError::TruncatedInput));
}
