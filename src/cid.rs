//! Content identifiers: a version, a content codec and the multihash of the
//! content.

use crate::error::DecodeError;
use crate::multihash::{lemma_multihash_round_trip, multihash_bytes, read_multihash, Multihash, MultihashView};
use crate::unsigned_varint::{lemma_varint_round_trip, read_varint, to_varint, varint_encoding, varint_read_u64};
use vstd::prelude::*;

verus! {

/// Codec code of DAG-CBOR content.
pub const DAG_CBOR_CODEC: u64 = 0x71;

/// The logical content of a CID.
pub struct CidView {
    pub version: u64,
    pub codec: u64,
    pub hash: MultihashView,
}

impl CidView {
    /// Its multihash is well formed.
    pub open spec fn wf(self) -> bool {
        self.hash.wf()
    }
}

/// The address of a block: which CID encoding, which content format, and
/// the multihash of the block's bytes.
#[derive(Debug, PartialEq, Eq, PartialOrd, Ord, Hash, Clone)]
pub struct Cid {
    pub version: u64,
    pub codec: u64,
    pub hash: Multihash,
}

impl View for Cid {
    type V = CidView;

    open spec fn view(&self) -> CidView {
        CidView { version: self.version, codec: self.codec, hash: self.hash@ }
    }
}

/// `varint(version) || varint(codec) || multihash`.
pub open spec fn cid_bytes(c: CidView) -> Seq<u8> {
    varint_encoding(c.version) + varint_encoding(c.codec) + multihash_bytes(c.hash)
}

/// Reading a CID at `pos` of `s`: the value and the position after it. An
/// empty stream is truncated; a stream that holds a CID's first byte but no
/// complete CID (a bad or cut-off varint, a cut-off multihash) is a
/// malformed CID.
pub open spec fn read_cid(s: Seq<u8>, pos: int) -> Result<(CidView, int), DecodeError> {
    if pos >= s.len() {
        Err(DecodeError::TruncatedInput)
    } else {
        match read_varint(s, pos) {
            Err(_) => Err(DecodeError::MalformedCid),
            Ok((version, after_version)) => match read_varint(s, after_version) {
                Err(_) => Err(DecodeError::MalformedCid),
                Ok((codec, after_codec)) => match read_multihash(s, after_codec) {
                    Err(_) => Err(DecodeError::MalformedCid),
                    Ok((hash, after_hash)) => Ok((CidView { version, codec, hash }, after_hash)),
                },
            },
        }
    }
}

impl Cid {
    /// A CID from its three parts.
    pub fn new(version: u64, codec: u64, hash: Multihash) -> (r: Cid)
        ensures
            r@ == (CidView { version, codec, hash: hash@ }),
    {
        Cid { version, codec, hash }
    }

    /// A copy with the same logical content.
    pub fn duplicate(&self) -> (r: Cid)
        ensures
            r@ == self@,
    {
        Cid { version: self.version, codec: self.codec, hash: self.hash.duplicate() }
    }

    /// `varint(version) || varint(codec) || multihash`.
    pub fn to_bytes(&self) -> (r: Vec<u8>)
        ensures
            r@ == cid_bytes(self@),
    {
        let mut bytes = to_varint(self.version);
        let mut codec = to_varint(self.codec);
        let mut hash = self.hash.to_bytes();
        bytes.append(&mut codec);
        bytes.append(&mut hash);
        bytes
    }

    /// Reads a CID at `pos` of `bytes`; returns it and the position just
    /// after it.
    pub fn read_from(bytes: &[u8], pos: usize) -> (r: Result<(Cid, usize), DecodeError>)
        requires
            pos <= bytes@.len(),
        ensures
            match r {
                Ok((c, p)) => read_cid(bytes@, pos as int) == Ok::<(CidView, int), DecodeError>((c@, p as int)),
                Err(e) => read_cid(bytes@, pos as int) == Err::<(CidView, int), DecodeError>(e),
            },
            r is Ok ==> r->Ok_0.0@.wf(),
    {
        if pos == bytes.len() {
            return Err(DecodeError::TruncatedInput);
        }
        let (version, after_version) = match varint_read_u64(bytes, pos) {
            Ok(x) => x,
            Err(_) => return Err(DecodeError::MalformedCid),
        };
        let (codec, after_codec) = match varint_read_u64(bytes, after_version) {
            Ok(x) => x,
            Err(_) => return Err(DecodeError::MalformedCid),
        };
        match Multihash::read_from(bytes, after_codec) {
            Ok((hash, after_hash)) => Ok((Cid { version, codec, hash }, after_hash)),
            Err(_) => Err(DecodeError::MalformedCid),
        }
    }

    /// Reads a CID from the start of `bytes`; bytes after it are left
    /// unread.
    pub fn from_bytes(bytes: &[u8]) -> (r: Result<Cid, DecodeError>)
        ensures
            match read_cid(bytes@, 0) {
                Ok((c, _)) => r is Ok && r->Ok_0@ == c,
                Err(e) => r == Err::<Cid, DecodeError>(e),
            },
    {
        match Cid::read_from(bytes, 0) {
            Ok((c, _)) => Ok(c),
            Err(e) => Err(e),
        }
    }
}

/// A CID with a well-formed multihash is read back from its encoding,
/// wherever it stands in a stream.
#[verifier::spinoff_prover]
#[verifier::rlimit(50)]
pub proof fn lemma_cid_round_trip(c: CidView, pre: Seq<u8>, post: Seq<u8>)
    requires
        c.wf(),
    ensures
        read_cid(pre + cid_bytes(c) + post, pre.len() as int)
            == Ok::<(CidView, int), DecodeError>((c, (pre.len() + cid_bytes(c).len()) as int)),
{
    let v = varint_encoding(c.version);
    let k = varint_encoding(c.codec);
    let h = multihash_bytes(c.hash);
    let s = pre + cid_bytes(c) + post;
    lemma_varint_round_trip(c.version, pre, k + h + post);
    assert(pre + v + (k + h + post) =~= s);
    lemma_varint_round_trip(c.codec, pre + v, h + post);
    assert(pre + v + k + (h + post) =~= s);
    lemma_multihash_round_trip(c.hash, pre + v + k, post);
    assert(pre + v + k + h + post =~= s);
}

} // verus!
