//! Unsigned LEB128 varints: seven bits of magnitude per byte, the high bit
//! set on every byte but the last, least significant group first.

use crate::error::{at_int, DecodeError};
use vstd::prelude::*;

verus! {

/// The longest varint that can hold a 64-bit value.
pub const MAX_VARINT_LEN: usize = 10;

/// The minimal varint encoding of `n`.
pub open spec fn varint_encoding(n: u64) -> Seq<u8>
    decreases n,
{
    if n < 128 {
        seq![n as u8]
    } else {
        seq![((n % 128) + 128) as u8] + varint_encoding(n / 128)
    }
}

/// The magnitude carried by a run of varint bytes, least significant first.
pub open spec fn varint_digits(s: Seq<u8>) -> nat
    decreases s.len(),
{
    if s.len() == 0 {
        0
    } else {
        (s[0] % 128) as nat + 128 * varint_digits(s.drop_first())
    }
}

/// `e` is the index of the byte that ends the varint starting at `pos`.
pub open spec fn varint_end(s: Seq<u8>, pos: int, e: int) -> bool {
    &&& pos <= e < s.len()
    &&& e < pos + MAX_VARINT_LEN
    &&& s[e] < 128
    &&& forall|j: int| pos <= j < e ==> s[j] >= 128
}

/// Reading a varint at `pos` of `s`: the value and the position after it.
pub open spec fn read_varint(s: Seq<u8>, pos: int) -> Result<(u64, int), DecodeError> {
    if exists|e: int| varint_end(s, pos, e) {
        let e = choose|e: int| varint_end(s, pos, e);
        let v = varint_digits(s.subrange(pos, e + 1));
        if v <= u64::MAX {
            Ok((v as u64, e + 1))
        } else {
            Err(DecodeError::Overflow)
        }
    } else if s.len() - pos < MAX_VARINT_LEN {
        Err(DecodeError::TruncatedInput)
    } else {
        Err(DecodeError::Overflow)
    }
}

/// Encodes `y` as a minimal varint.
pub fn to_varint(y: u64) -> (r: Vec<u8>)
    ensures
        r@ == varint_encoding(y),
{
    let mut y = y;
    let ghost n = y;
    let mut result: Vec<u8> = Vec::new();
    loop
        invariant_except_break
            result@ + varint_encoding(y) == varint_encoding(n),
        ensures
            result@ == varint_encoding(n),
        decreases y,
    {
        let b: u8 = (y % 128) as u8;
        if y < 128 {
            result.push(b);
            proof {
                assert(result@ =~= varint_encoding(n));
            }
            break;
        } else {
            let ghost old_result = result@;
            result.push(b + 128);
            y = y / 128;
            proof {
                assert(old_result + varint_encoding((y * 128 + b) as u64) == varint_encoding(n));
                assert(result@ + varint_encoding(y) =~= old_result + (seq![(b + 128) as u8] + varint_encoding(y)));
            }
        }
    }
    result
}


proof fn lemma_varint_end_unique(s: Seq<u8>, pos: int, e1: int, e2: int)
    requires
        varint_end(s, pos, e1),
        varint_end(s, pos, e2),
    ensures
        e1 == e2,
{
}

/// Extending a run of varint bytes to the left never lowers its magnitude.
proof fn lemma_digits_grow_left(s: Seq<u8>, lo: int, j: int, hi: int)
    requires
        0 <= lo <= j <= hi <= s.len(),
    ensures
        varint_digits(s.subrange(lo, hi)) >= varint_digits(s.subrange(j, hi)),
    decreases j - lo,
{
    if lo < j {
        lemma_digits_grow_left(s, lo + 1, j, hi);
        assert(s.subrange(lo, hi).drop_first() =~= s.subrange(lo + 1, hi));
    }
}

/// Reads the varint that starts at `pos` of `bytes`; returns its value and
/// the position just after it.
pub fn varint_read_u64(bytes: &[u8], pos: usize) -> (r: Result<(u64, usize), DecodeError>)
    requires
        pos <= bytes@.len(),
    ensures
        at_int(r) == read_varint(bytes@, pos as int),
{
    let ghost s = bytes@;
    let len = bytes.len();
    let mut i: usize = pos;
    while i < len && i - pos < MAX_VARINT_LEN && bytes[i] >= 128
        invariant
            pos <= i <= len,
            len == s.len(),
            s == bytes@,
            i - pos <= MAX_VARINT_LEN,
            forall|j: int| pos <= j < i ==> s[j] >= 128,
        decreases len - i,
    {
        i = i + 1;
    }
    if i == len || i - pos == MAX_VARINT_LEN {
        proof {
            assert(!exists|e: int| varint_end(s, pos as int, e));
        }
        if len - pos < MAX_VARINT_LEN {
            return Err(DecodeError::TruncatedInput);
        } else {
            return Err(DecodeError::Overflow);
        }
    }
    let e = i;
    proof {
        assert(varint_end(s, pos as int, e as int));
        let c = choose|e: int| varint_end(s, pos as int, e);
        lemma_varint_end_unique(s, pos as int, c, e as int);
    }
    let mut acc: u64 = 0;
    let mut j: usize = e + 1;
    while j > pos
        invariant
            pos <= j <= e + 1,
            e < len,
            varint_end(s, pos as int, e as int),
            len == s.len(),
            s == bytes@,
            acc as nat == varint_digits(s.subrange(j as int, e + 1)),
        decreases j,
    {
        let ghost old_j = j;
        j = j - 1;
        let d: u64 = (bytes[j] % 128) as u64;
        assert(s.subrange(j as int, e + 1).drop_first() =~= s.subrange(old_j as int, e + 1));
        if acc > (u64::MAX - d) / 128 {
            proof {
                assert(d + 128 * acc > u64::MAX) by (nonlinear_arith)
                    requires
                        acc > (u64::MAX - d) / 128,
                        d < 128,
                ;
                assert(varint_digits(s.subrange(j as int, e + 1)) == d + 128 * acc);
                lemma_digits_grow_left(s, pos as int, j as int, e + 1);

            }
            return Err(DecodeError::Overflow);
        }
        acc = acc * 128 + d;
    }
    Ok((acc, e + 1))
}

/// Reads the varint at the start of `bytes`.
pub fn from_varint(bytes: &[u8]) -> (r: Result<u64, DecodeError>)
    ensures
        match read_varint(bytes@, 0) {
            Ok((v, _)) => r == Ok::<u64, DecodeError>(v),
            Err(e) => r == Err::<u64, DecodeError>(e),
        },
{
    match varint_read_u64(bytes, 0) {
        Ok((v, _)) => Ok(v),
        Err(e) => Err(e),
    }
}


/// `128` raised to the power `k`.
pub open spec fn group_bound(k: nat) -> nat
    decreases k,
{
    if k == 0 {
        1
    } else {
        128 * group_bound((k - 1) as nat)
    }
}

proof fn lemma_encoding_shape(n: u64)
    ensures
        varint_encoding(n).len() >= 1,
        forall|j: int| 0 <= j < varint_encoding(n).len() - 1 ==> varint_encoding(n)[j] >= 128,
        varint_encoding(n).last() < 128,
        varint_digits(varint_encoding(n)) == n,
        varint_encoding(n).len() > 1 ==> varint_encoding(n).last() != 0,
        n > 0 ==> varint_encoding(n).last() != 0,
    decreases n,
{
    let enc = varint_encoding(n);
    if n < 128 {
        assert(enc.drop_first() =~= Seq::<u8>::empty());
        assert(varint_digits(enc) == (enc[0] % 128) as nat + 128 * varint_digits(enc.drop_first()));
    } else {
        let m = (n / 128) as u64;
        lemma_encoding_shape(m);
        assert(enc.drop_first() =~= varint_encoding(m));
        assert(enc[0] % 128 == n % 128);
        assert(varint_digits(enc) == (enc[0] % 128) as nat + 128 * varint_digits(enc.drop_first()));
        assert(enc.last() == varint_encoding(m).last());
    }
}

proof fn lemma_encoding_len(n: u64, k: nat)
    requires
        k >= 1,
        (n as nat) < group_bound(k),
    ensures
        varint_encoding(n).len() <= k,
    decreases k,
{
    if n >= 128 {
        let m = (n / 128) as u64;
        assert((m as nat) < group_bound((k - 1) as nat));
        if k == 1 {
            assert(group_bound(1) == 128 * group_bound(0));
        } else {
            lemma_encoding_len(m, (k - 1) as nat);
        }
    }
}

/// Every 64-bit value is read back from its varint encoding, wherever it
/// stands in a stream; the encoding takes at most ten bytes and never ends
/// in a redundant zero group.
pub proof fn lemma_varint_round_trip(n: u64, pre: Seq<u8>, post: Seq<u8>)
    ensures
        read_varint(pre + varint_encoding(n) + post, pre.len() as int) == Ok::<(u64, int), DecodeError>(
            (n, (pre.len() + varint_encoding(n).len()) as int),
        ),
        1 <= varint_encoding(n).len() <= MAX_VARINT_LEN,
        varint_encoding(n).len() == 1 || varint_encoding(n).last() != 0,
{
    let enc = varint_encoding(n);
    let s = pre + enc + post;
    let pos = pre.len() as int;
    let e = pos + enc.len() - 1;
    lemma_encoding_shape(n);
    reveal_with_fuel(group_bound, 11);
    lemma_encoding_len(n, 10);
    assert forall|j: int| pos <= j < e implies s[j] >= 128 by {
        assert(s[j] == enc[j - pos]);
    }
    assert(s[e] == enc.last());
    assert(varint_end(s, pos, e));
    let c = choose|c: int| varint_end(s, pos, c);
    lemma_varint_end_unique(s, pos, c, e);
    assert(s.subrange(pos, e + 1) =~= enc);
}

} // verus!
