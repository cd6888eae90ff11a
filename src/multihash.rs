//! Self-describing digests: an algorithm code, a digest length and the
//! digest bytes.

use crate::error::DecodeError;
use crate::unsigned_varint::{
    lemma_varint_round_trip, read_varint, to_varint, varint_encoding, varint_read_u64,
};
use sha3::Digest;
use vstd::prelude::*;
use vstd::slice::{slice_subrange, slice_to_vec};

verus! {

/// Multihash code of SHA3-512.
pub const SHA3_512_CODE: u64 = 0x14;

/// Multihash code of SHA3-256.
pub const SHA3_256_CODE: u64 = 0x16;

/// What the SHA3-256 digest of a byte string is.
pub uninterp spec fn sha3_256_of(data: Seq<u8>) -> Seq<u8>;

/// What the SHA3-512 digest of a byte string is.
pub uninterp spec fn sha3_512_of(data: Seq<u8>) -> Seq<u8>;

/// Relies on sha3's `Sha3_256` through `digest::Digest::digest`: the digest
/// depends on the input alone and is 32 bytes long (its output size is U32).
#[verifier::external_body]
fn sha3_256_digest(data: &[u8]) -> (r: Vec<u8>)
    ensures
        r@ == sha3_256_of(data@),
        r@.len() == 32,
{
    sha3::Sha3_256::digest(data).to_vec()
}

/// Relies on sha3's `Sha3_512` through `digest::Digest::digest`: the digest
/// depends on the input alone and is 64 bytes long (its output size is U64).
#[verifier::external_body]
fn sha3_512_digest(data: &[u8]) -> (r: Vec<u8>)
    ensures
        r@ == sha3_512_of(data@),
        r@.len() == 64,
{
    sha3::Sha3_512::digest(data).to_vec()
}

/// A hash function that multihashes can be made with.
#[derive(Debug, Clone, Copy, PartialEq, Eq, Structural)]
pub enum HashAlgorithm {
    Sha3_256,
    Sha3_512,
}

/// The multihash that `alg` gives for `data`.
pub open spec fn digest_spec(alg: HashAlgorithm, data: Seq<u8>) -> MultihashView {
    match alg {
        HashAlgorithm::Sha3_256 => MultihashView { code: SHA3_256_CODE, size: 32, digest: sha3_256_of(data) },
        HashAlgorithm::Sha3_512 => MultihashView { code: SHA3_512_CODE, size: 64, digest: sha3_512_of(data) },
    }
}

/// The logical content of a multihash.
pub struct MultihashView {
    pub code: u64,
    pub size: u64,
    pub digest: Seq<u8>,
}

impl MultihashView {
    /// The digest has exactly the declared size.
    pub open spec fn wf(self) -> bool {
        self.digest.len() == self.size
    }
}

/// A digest tagged with the code of the algorithm that produced it.
/// Invariant: the digest is `size` bytes long.
#[derive(Debug, PartialEq, Eq, PartialOrd, Ord, Hash, Clone)]
pub struct Multihash {
    code: u64,
    size: u64,
    digest: Vec<u8>,
}

impl View for Multihash {
    type V = MultihashView;

    closed spec fn view(&self) -> MultihashView {
        MultihashView { code: self.code, size: self.size, digest: self.digest@ }
    }
}

/// `varint(code) || varint(size) || digest`.
pub open spec fn multihash_bytes(m: MultihashView) -> Seq<u8> {
    varint_encoding(m.code) + varint_encoding(m.size) + m.digest
}

/// Reading a multihash at `pos` of `s`: the value and the position after it.
pub open spec fn read_multihash(s: Seq<u8>, pos: int) -> Result<(MultihashView, int), DecodeError> {
    match read_varint(s, pos) {
        Err(e) => Err(e),
        Ok((code, after_code)) => match read_varint(s, after_code) {
            Err(e) => Err(e),
            Ok((size, after_size)) => if size > s.len() - after_size {
                Err(DecodeError::TruncatedInput)
            } else {
                Ok((MultihashView { code, size, digest: s.subrange(after_size, after_size + size) }, after_size + size))
            },
        },
    }
}

impl Multihash {
    /// The algorithm code.
    pub fn code(&self) -> (r: u64)
        ensures
            r == self@.code,
    {
        self.code
    }

    /// The declared digest length.
    pub fn size(&self) -> (r: u64)
        ensures
            r == self@.size,
    {
        self.size
    }

    /// The digest bytes.
    pub fn digest(&self) -> (r: &[u8])
        ensures
            r@ == self@.digest,
    {
        self.digest.as_slice()
    }

    /// A copy with the same logical content.
    pub fn duplicate(&self) -> (r: Multihash)
        ensures
            r@ == self@,
    {
        Multihash { code: self.code, size: self.size, digest: self.digest.clone() }
    }

    /// `varint(code) || varint(size) || digest`.
    pub fn to_bytes(&self) -> (r: Vec<u8>)
        ensures
            r@ == multihash_bytes(self@),
    {
        let mut code = to_varint(self.code);
        let mut size = to_varint(self.size);
        let mut digest = self.digest.clone();
        code.append(&mut size);
        code.append(&mut digest);
        code
    }

    /// Reads a multihash at `pos` of `bytes`; returns it and the position
    /// just after it.
    pub fn read_from(bytes: &[u8], pos: usize) -> (r: Result<(Multihash, usize), DecodeError>)
        requires
            pos <= bytes@.len(),
        ensures
            match r {
                Ok((m, p)) => read_multihash(bytes@, pos as int) == Ok::<(MultihashView, int), DecodeError>((m@, p as int)),
                Err(e) => read_multihash(bytes@, pos as int) == Err::<(MultihashView, int), DecodeError>(e),
            },
            r is Ok ==> r->Ok_0.0@.wf(),
    {
        let (code, after_code) = match varint_read_u64(bytes, pos) {
            Ok(x) => x,
            Err(e) => return Err(e),
        };
        let (size, after_size) = match varint_read_u64(bytes, after_code) {
            Ok(x) => x,
            Err(e) => return Err(e),
        };
        if size > (bytes.len() - after_size) as u64 {
            return Err(DecodeError::TruncatedInput);
        }
        let end = after_size + size as usize;
        let digest = slice_to_vec(slice_subrange(bytes, after_size, end));
        Ok((Multihash { code, size, digest }, end))
    }

    /// Reads a multihash from the start of `bytes`; bytes after it are left
    /// unread.
    pub fn from_bytes(bytes: &[u8]) -> (r: Result<Multihash, DecodeError>)
        ensures
            match read_multihash(bytes@, 0) {
                Ok((m, _)) => r is Ok && r->Ok_0@ == m,
                Err(e) => r == Err::<Multihash, DecodeError>(e),
            },
    {
        match Multihash::read_from(bytes, 0) {
            Ok((m, _)) => Ok(m),
            Err(e) => Err(e),
        }
    }

    /// The multihash of `bytes` under `alg`: the algorithm fixes the code
    /// and the digest size.
    pub fn digest_with(alg: HashAlgorithm, bytes: &[u8]) -> (r: Multihash)
        ensures
            r@ == digest_spec(alg, bytes@),
            r@.wf(),
    {
        match alg {
            HashAlgorithm::Sha3_256 => Multihash::sha3_256(bytes),
            HashAlgorithm::Sha3_512 => Multihash::sha3_512(bytes),
        }
    }

    /// The SHA3-256 multihash of `bytes`.
    pub fn sha3_256(bytes: &[u8]) -> (r: Multihash)
        ensures
            r@ == (MultihashView { code: SHA3_256_CODE, size: 32, digest: sha3_256_of(bytes@) }),
            r@.wf(),
    {
        let digest = sha3_256_digest(bytes);
        Multihash { code: SHA3_256_CODE, size: 32, digest }
    }

    /// The SHA3-512 multihash of `bytes`.
    pub fn sha3_512(bytes: &[u8]) -> (r: Multihash)
        ensures
            r@ == (MultihashView { code: SHA3_512_CODE, size: 64, digest: sha3_512_of(bytes@) }),
            r@.wf(),
    {
        let digest = sha3_512_digest(bytes);
        Multihash { code: SHA3_512_CODE, size: 64, digest }
    }
}

/// A well-formed multihash is read back from its encoding, wherever it
/// stands in a stream.
#[verifier::spinoff_prover]
#[verifier::rlimit(50)]
pub proof fn lemma_multihash_round_trip(m: MultihashView, pre: Seq<u8>, post: Seq<u8>)
    requires
        m.wf(),
    ensures
        read_multihash(pre + multihash_bytes(m) + post, pre.len() as int)
            == Ok::<(MultihashView, int), DecodeError>((m, (pre.len() + multihash_bytes(m).len()) as int)),
{
    let c = varint_encoding(m.code);
    let z = varint_encoding(m.size);
    let s = pre + multihash_bytes(m) + post;
    lemma_varint_round_trip(m.code, pre, z + m.digest + post);
    assert(pre + c + (z + m.digest + post) =~= s);
    lemma_varint_round_trip(m.size, pre + c, m.digest + post);
    assert(pre + c + z + (m.digest + post) =~= s);
    let after_size = pre.len() + c.len() + z.len();
    assert(s.subrange(after_size as int, after_size + m.size) =~= m.digest);
}

} // verus!
