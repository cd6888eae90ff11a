//! DAG-CBOR: the canonical CBOR encoding of IPLD values, with CBOR tag 42
//! for links.

use crate::cid::{cid_bytes, read_cid, Cid, CidView};
use crate::error::{at_int, DecodeError};
use crate::ipld::{
    array_view, entries_view, insert_sorted, insert_sorted_bytes, key_lt, keyed_bytes_view, lemma_array_view, lemma_entries_view,
    lemma_sorted_entries_canonical, lookup, sorted_entries, strictly_sorted, Ipld, IpldView,
};
use crate::multihash::{read_multihash, MultihashView};
use vstd::prelude::*;
use vstd::slice::{slice_subrange, slice_to_vec};
use vstd::utf8::{decode_utf8, encode_utf8, valid_utf8};

verus! {

/// The CBOR tag that marks a link.
pub const LINK_TAG: u8 = 42;

/// Big-endian bytes of a 16-bit value.
pub open spec fn be_u16(n: u16) -> Seq<u8> {
    seq![(n >> 8u16) as u8, n as u8]
}

/// Big-endian bytes of a 32-bit value.
pub open spec fn be_u32(n: u32) -> Seq<u8> {
    seq![(n >> 24u32) as u8, (n >> 16u32) as u8, (n >> 8u32) as u8, n as u8]
}

/// Big-endian bytes of a 64-bit value.
pub open spec fn be_u64(n: u64) -> Seq<u8> {
    seq![
        (n >> 56u64) as u8,
        (n >> 48u64) as u8,
        (n >> 40u64) as u8,
        (n >> 32u64) as u8,
        (n >> 24u64) as u8,
        (n >> 16u64) as u8,
        (n >> 8u64) as u8,
        n as u8,
    ]
}

/// The head of a CBOR item of major type `major` (0 to 7) whose argument is
/// `n`, in the shortest form that holds `n`.
#[verifier::opaque]
pub open spec fn head(major: u8, n: u64) -> Seq<u8> {
    let m = (major * 32) as u8;
    if n <= 23 {
        seq![(m + n) as u8]
    } else if n <= 0xff {
        seq![(m + 24) as u8, n as u8]
    } else if n <= 0xffff {
        seq![(m + 25) as u8] + be_u16(n as u16)
    } else if n <= 0xffff_ffff {
        seq![(m + 26) as u8] + be_u32(n as u32)
    } else {
        seq![(m + 27) as u8] + be_u64(n)
    }
}

/// A text string item: its UTF-8 length, then its UTF-8 bytes.
pub open spec fn text_item(t: Seq<char>) -> Seq<u8> {
    head(3, encode_utf8(t).len() as u64) + encode_utf8(t)
}

/// The DAG-CBOR encoding of `v`. The entries of an object are written in
/// key order, one per key, a later entry winning over an earlier one with the
/// same key.
pub open spec fn encode(v: IpldView) -> Seq<u8>
    decreases v,
{
    match v {
        IpldView::Null => seq![0xf6u8],
        IpldView::Bool(b) => if b {
            seq![0xf5u8]
        } else {
            seq![0xf4u8]
        },
        IpldView::Number(n) => head(0, n),
        IpldView::String(t) => text_item(t),
        IpldView::Bytes(b) => head(2, b.len() as u64) + b,
        IpldView::Array(a) => head(4, a.len() as u64) + encode_items(a),
        IpldView::Object(o) => head(5, sorted_entries(entries_bytes(o)).len() as u64)
            + concat_entries(sorted_entries(entries_bytes(o))),
        IpldView::Link(c) => head(6, LINK_TAG as u64) + head(2, (cid_bytes(c).len() + 1) as u64)
            + seq![0u8] + cid_bytes(c),
    }
}

/// The encodings of the items of `a`, one after another.
pub open spec fn encode_items(a: Seq<IpldView>) -> Seq<u8>
    decreases a,
{
    if a.len() == 0 {
        Seq::empty()
    } else {
        encode(a[0]) + encode_items(a.subrange(1, a.len() as int))
    }
}

/// Each entry of `o` as its key's text item followed by its value's
/// encoding, one after another.
pub open spec fn encode_entries(o: Seq<(Seq<char>, IpldView)>) -> Seq<u8>
    decreases o,
{
    if o.len() == 0 {
        Seq::empty()
    } else {
        text_item(o[0].0) + encode(o[0].1) + encode_entries(o.subrange(1, o.len() as int))
    }
}

/// Each entry of `o` with its value encoded.
pub open spec fn entries_bytes(o: Seq<(Seq<char>, IpldView)>) -> Seq<(Seq<char>, Seq<u8>)>
    decreases o,
{
    if o.len() == 0 {
        Seq::empty()
    } else {
        seq![(o[0].0, encode(o[0].1))] + entries_bytes(o.subrange(1, o.len() as int))
    }
}

/// Each entry of `e` as its key's text item followed by its encoded value,
/// one after another.
pub open spec fn concat_entries(e: Seq<(Seq<char>, Seq<u8>)>) -> Seq<u8>
    decreases e.len(),
{
    if e.len() == 0 {
        Seq::empty()
    } else {
        text_item(e[0].0) + e[0].1 + concat_entries(e.subrange(1, e.len() as int))
    }
}

proof fn lemma_entries_bytes(o: Seq<(Seq<char>, IpldView)>)
    ensures
        entries_bytes(o).len() == o.len(),
        forall|i: int| 0 <= i < o.len() ==> #[trigger] entries_bytes(o)[i] == (o[i].0, encode(o[i].1)),
    decreases o.len(),
{
    if o.len() > 0 {
        let t = o.subrange(1, o.len() as int);
        lemma_entries_bytes(t);
        assert forall|i: int| 0 <= i < o.len() implies #[trigger] entries_bytes(o)[i] == (o[i].0, encode(o[i].1)) by {
            if i > 0 {
                assert(entries_bytes(o)[i] == entries_bytes(t)[i - 1]);
                assert(t[i - 1] == o[i]);
            }
        }
    }
}

proof fn lemma_concat_entries_push(e: Seq<(Seq<char>, Seq<u8>)>, x: (Seq<char>, Seq<u8>))
    ensures
        concat_entries(e.push(x)) == concat_entries(e) + text_item(x.0) + x.1,
    decreases e.len(),
{
    if e.len() == 0 {
        assert(e.push(x).subrange(1, 1) =~= Seq::<(Seq<char>, Seq<u8>)>::empty());
        assert(concat_entries(Seq::<(Seq<char>, Seq<u8>)>::empty()) == Seq::<u8>::empty());
        assert(e =~= Seq::<(Seq<char>, Seq<u8>)>::empty());
        assert(concat_entries(e.push(x)) =~= text_item(x.0) + x.1);
    } else {
        let t = e.subrange(1, e.len() as int);
        lemma_concat_entries_push(t, x);
        assert(e.push(x).subrange(1, e.len() + 1int) =~= t.push(x));
        assert(concat_entries(e.push(x)) =~= concat_entries(e) + text_item(x.0) + x.1);
    }
}

proof fn lemma_concat_entries_bytes(o: Seq<(Seq<char>, IpldView)>)
    ensures
        concat_entries(entries_bytes(o)) == encode_entries(o),
    decreases o.len(),
{
    if o.len() > 0 {
        let t = o.subrange(1, o.len() as int);
        lemma_concat_entries_bytes(t);
        let eb = entries_bytes(o);
        assert(eb.subrange(1, eb.len() as int) =~= entries_bytes(t));
        assert(concat_entries(eb) =~= encode_entries(o));
    }
}

/// A strictly sorted object is written entry by entry, in its own order.
proof fn lemma_sorted_object_encoding(o: Seq<(Seq<char>, IpldView)>)
    requires
        strictly_sorted(o),
    ensures
        encode(IpldView::Object(o)) == head(5, o.len() as u64) + encode_entries(o),
{
    let eb = entries_bytes(o);
    lemma_entries_bytes(o);
    assert(strictly_sorted(eb)) by {
        assert forall|i: int, j: int| 0 <= i < j < eb.len() implies key_lt(#[trigger] eb[i].0, #[trigger] eb[j].0) by {
            assert(eb[i].0 == o[i].0);
            assert(eb[j].0 == o[j].0);
        }
    }
    crate::ipld::lemma_sorted_entries_of_sorted(eb);
    lemma_concat_entries_bytes(o);
}

/// Encoding values keeps what each key maps to.
proof fn lemma_lookup_entries_bytes(a: Seq<(Seq<char>, IpldView)>, k: Seq<char>)
    ensures
        lookup(entries_bytes(a), k) == match lookup(a, k) {
            Some(v) => Some(encode(v)),
            None => None::<Seq<u8>>,
        },
    decreases a.len(),
{
    if a.len() > 0 {
        let n = a.len() - 1;
        let init = a.subrange(0, n);
        lemma_lookup_entries_bytes(init, k);
        lemma_entries_bytes(a);
        lemma_entries_bytes(init);
        assert(entries_bytes(a).subrange(0, n) =~= entries_bytes(init));
    }
}

proof fn lemma_encode_items_push(a: Seq<IpldView>, x: IpldView)
    ensures
        encode_items(a.push(x)) == encode_items(a) + encode(x),
    decreases a.len(),
{
    if a.len() == 0 {
        assert(a.push(x).subrange(1, 1) =~= Seq::<IpldView>::empty());
        assert(encode_items(Seq::<IpldView>::empty()) == Seq::<u8>::empty());
        assert(a =~= Seq::<IpldView>::empty());
        assert(encode_items(a.push(x)) =~= encode(x));
    } else {
        let t = a.subrange(1, a.len() as int);
        lemma_encode_items_push(t, x);
        assert(a.push(x).subrange(1, a.len() + 1int) =~= t.push(x));
        assert(encode_items(a.push(x)) =~= encode_items(a) + encode(x));
    }
}

proof fn lemma_encode_entries_push(o: Seq<(Seq<char>, IpldView)>, x: (Seq<char>, IpldView))
    ensures
        encode_entries(o.push(x)) == encode_entries(o) + text_item(x.0) + encode(x.1),
    decreases o.len(),
{
    if o.len() == 0 {
        assert(o.push(x).subrange(1, 1) =~= Seq::<(Seq<char>, IpldView)>::empty());
        assert(encode_entries(Seq::<(Seq<char>, IpldView)>::empty()) == Seq::<u8>::empty());
        assert(o =~= Seq::<(Seq<char>, IpldView)>::empty());
        assert(encode_entries(o.push(x)) =~= text_item(x.0) + encode(x.1));
    } else {
        let t = o.subrange(1, o.len() as int);
        lemma_encode_entries_push(t, x);
        assert(o.push(x).subrange(1, o.len() + 1int) =~= t.push(x));
        assert(encode_entries(o.push(x)) =~= encode_entries(o) + text_item(x.0) + encode(x.1));
    }
}

fn ser_null() -> (r: Vec<u8>)
    ensures
        r@ == encode(IpldView::Null),
{
    vec![0xf6]
}

fn ser_bool(b: &bool) -> (r: Vec<u8>)
    ensures
        r@ == encode(IpldView::Bool(*b)),
{
    if *b {
        vec![0xf5]
    } else {
        vec![0xf4]
    }
}

fn ser_u8(major: u8, n: u8) -> (r: Vec<u8>)
    requires
        major <= 7,
    ensures
        r@ == head(major, n as u64),
{
    proof {
        reveal(head);
    }
    let m: u8 = major * 32;
    if n <= 0x17 {
        vec![m + n]
    } else {
        vec![m + 24, n]
    }
}

fn ser_u16(major: u8, n: u16) -> (r: Vec<u8>)
    requires
        major <= 7,
    ensures
        r@ == head(major, n as u64),
{
    proof {
        reveal(head);
    }
    if n <= 255 {
        ser_u8(major, n as u8)
    } else {
        let m: u8 = major * 32;
        let buf = vec![m + 25, (n >> 8u16) as u8, n as u8];
        proof {
            assert(buf@ =~= head(major, n as u64));
        }
        buf
    }
}

fn ser_u32(major: u8, n: u32) -> (r: Vec<u8>)
    requires
        major <= 7,
    ensures
        r@ == head(major, n as u64),
{
    proof {
        reveal(head);
    }
    if n <= 65535 {
        ser_u16(major, n as u16)
    } else {
        let m: u8 = major * 32;
        let buf = vec![m + 26, (n >> 24u32) as u8, (n >> 16u32) as u8, (n >> 8u32) as u8, n as u8];
        proof {
            assert(buf@ =~= head(major, n as u64));
        }
        buf
    }
}

fn ser_u64(major: u8, n: u64) -> (r: Vec<u8>)
    requires
        major <= 7,
    ensures
        r@ == head(major, n),
{
    proof {
        reveal(head);
    }
    if n <= 4294967295 {
        ser_u32(major, n as u32)
    } else {
        let m: u8 = major * 32;
        let buf = vec![
            m + 27,
            (n >> 56u64) as u8,
            (n >> 48u64) as u8,
            (n >> 40u64) as u8,
            (n >> 32u64) as u8,
            (n >> 24u64) as u8,
            (n >> 16u64) as u8,
            (n >> 8u64) as u8,
            n as u8,
        ];
        proof {
            assert(buf@ =~= head(major, n));
        }
        buf
    }
}

fn ser_string(s: &String) -> (r: Vec<u8>)
    ensures
        r@ == text_item(s@),
{
    let bytes = s.as_str().as_bytes();
    let mut result = ser_u64(3, bytes.len() as u64);
    let mut tail = slice_to_vec(bytes);
    result.append(&mut tail);
    result
}

fn ser_bytes(b: &Vec<u8>) -> (r: Vec<u8>)
    ensures
        r@ == encode(IpldView::Bytes(b@)),
{
    let mut result = ser_u64(2, b.len() as u64);
    let mut tail = b.clone();
    result.append(&mut tail);
    result
}

fn ser_link(l: &Cid) -> (r: Vec<u8>)
    ensures
        r@ == encode(IpldView::Link(l@)),
{
    let mut buf = l.to_bytes();
    let mut payload: Vec<u8> = vec![0];
    payload.append(&mut buf);
    let mut result = ser_u64(6, LINK_TAG as u64);
    let mut len = ser_u64(2, payload.len() as u64);
    result.append(&mut len);
    result.append(&mut payload);
    proof {
        assert(result@ =~= encode(IpldView::Link(l@)));
    }
    result
}

#[verifier::loop_isolation(false)]
fn ser_array(a: &Vec<Ipld>) -> (r: Vec<u8>)
    ensures
        r@ == encode(IpldView::Array(array_view(a@))),
    decreases a,
{
    proof {
        lemma_array_view(a@);
    }
    let ghost views = array_view(a@);
    let mut result = ser_u64(4, a.len() as u64);
    let mut i: usize = 0;
    while i < a.len()
        invariant
            i <= a@.len(),
            result@ == head(4, a@.len() as u64) + encode_items(views.subrange(0, i as int)),
        decreases a@.len() - i,
    {
        proof {
            assert(decreases_to!(*a => a[i as int]));
            lemma_encode_items_push(views.subrange(0, i as int), views[i as int]);
            assert(views.subrange(0, i as int).push(views[i as int]) =~= views.subrange(0, i + 1));
        }
        let mut item = serialize(&a[i]);
        result.append(&mut item);
        i = i + 1;
    }
    proof {
        assert(views.subrange(0, i as int) =~= views);
    }
    result
}

#[verifier::loop_isolation(false)]
fn ser_object(m: &Vec<(String, Ipld)>) -> (r: Vec<u8>)
    ensures
        r@ == encode(IpldView::Object(entries_view(m@))),
    decreases m,
{
    proof {
        lemma_entries_view(m@);
        lemma_entries_bytes(entries_view(m@));
    }
    let ghost views = entries_view(m@);
    let ghost eb = entries_bytes(views);
    let mut sorted: Vec<(String, Vec<u8>)> = Vec::new();
    let mut i: usize = 0;
    proof {
        reveal(sorted_entries);
        assert(keyed_bytes_view(sorted@) =~= Seq::<(Seq<char>, Seq<u8>)>::empty());
        assert(eb.subrange(0, 0) =~= Seq::<(Seq<char>, Seq<u8>)>::empty());
    }
    while i < m.len()
        invariant
            i <= m@.len(),
            keyed_bytes_view(sorted@) == sorted_entries(eb.subrange(0, i as int)),
        decreases m@.len() - i,
    {
        proof {
            assert(decreases_to!(*m => m[i as int]));
            assert(decreases_to!(m[i as int] => m[i as int].1));
            reveal(sorted_entries);
            let pre = eb.subrange(0, i + 1);
            assert(pre.subrange(0, pre.len() - 1) =~= eb.subrange(0, i as int));
            assert(pre[pre.len() - 1] == eb[i as int]);
        }
        let b = serialize(&m[i].1);
        let k = m[i].0.clone();
        insert_sorted_bytes(&mut sorted, k, b);
        i = i + 1;
    }
    proof {
        assert(eb.subrange(0, i as int) =~= eb);
    }
    let ghost sv = keyed_bytes_view(sorted@);
    let mut result = ser_u64(5, sorted.len() as u64);
    let mut j: usize = 0;
    proof {
        assert(sv.subrange(0, 0) =~= Seq::<(Seq<char>, Seq<u8>)>::empty());
        assert(result@ =~= head(5, sv.len() as u64) + concat_entries(sv.subrange(0, 0)));
    }
    while j < sorted.len()
        invariant
            j <= sorted@.len(),
            sv == keyed_bytes_view(sorted@),
            result@ == head(5, sv.len() as u64) + concat_entries(sv.subrange(0, j as int)),
        decreases sorted@.len() - j,
    {
        proof {
            lemma_concat_entries_push(sv.subrange(0, j as int), sv[j as int]);
            assert(sv.subrange(0, j as int).push(sv[j as int]) =~= sv.subrange(0, j + 1));
        }
        let mut key = ser_string(&sorted[j].0);
        let mut val = sorted[j].1.clone();
        result.append(&mut key);
        result.append(&mut val);
        j = j + 1;
    }
    proof {
        assert(sv.subrange(0, j as int) =~= sv);
    }
    result
}

/// The DAG-CBOR encoding of `ipld`.
pub fn serialize(ipld: &Ipld) -> (r: Vec<u8>)
    ensures
        r@ == encode(ipld@),
    decreases ipld,
{
    match ipld {
        Ipld::Null => ser_null(),
        Ipld::Bool(b) => ser_bool(b),
        Ipld::Number(n) => ser_u64(0, *n),
        Ipld::String(s) => ser_string(s),
        Ipld::Bytes(b) => ser_bytes(b),
        Ipld::Array(a) => ser_array(a),
        Ipld::Object(o) => ser_object(o),
        Ipld::Link(c) => ser_link(c),
    }
}


/// A big-endian 16-bit value stored at `p` of `s`.
pub open spec fn be16_at(s: Seq<u8>, p: int) -> u16 {
    ((s[p] as u16) << 8u16) | (s[p + 1] as u16)
}

/// A big-endian 32-bit value stored at `p` of `s`.
pub open spec fn be32_at(s: Seq<u8>, p: int) -> u32 {
    ((s[p] as u32) << 24u32) | ((s[p + 1] as u32) << 16u32) | ((s[p + 2] as u32) << 8u32) | (s[p
        + 3] as u32)
}

/// A big-endian 64-bit value stored at `p` of `s`.
pub open spec fn be64_at(s: Seq<u8>, p: int) -> u64 {
    ((s[p] as u64) << 56u64) | ((s[p + 1] as u64) << 48u64) | ((s[p + 2] as u64) << 40u64) | ((s[p
        + 3] as u64) << 32u64) | ((s[p + 4] as u64) << 24u64) | ((s[p + 5] as u64) << 16u64) | ((s[p
        + 6] as u64) << 8u64) | (s[p + 7] as u64)
}

/// Reading the argument of a head whose low five bits are `info`, the
/// argument's bytes (if any) starting at `p`.
pub open spec fn read_argument(s: Seq<u8>, p: int, info: u8) -> Result<(u64, int), DecodeError> {
    if info <= 23 {
        Ok((info as u64, p))
    } else if info == 24 {
        if s.len() - p < 1 {
            Err(DecodeError::TruncatedInput)
        } else {
            Ok((s[p] as u64, p + 1))
        }
    } else if info == 25 {
        if s.len() - p < 2 {
            Err(DecodeError::TruncatedInput)
        } else {
            Ok((be16_at(s, p) as u64, p + 2))
        }
    } else if info == 26 {
        if s.len() - p < 4 {
            Err(DecodeError::TruncatedInput)
        } else {
            Ok((be32_at(s, p) as u64, p + 4))
        }
    } else if info == 27 {
        if s.len() - p < 8 {
            Err(DecodeError::TruncatedInput)
        } else {
            Ok((be64_at(s, p), p + 8))
        }
    } else {
        Err(DecodeError::UnexpectedCborCode)
    }
}

/// Reading `n` raw bytes at `p`.
pub open spec fn read_raw(s: Seq<u8>, p: int, n: u64) -> Result<(Seq<u8>, int), DecodeError> {
    if n > s.len() - p {
        Err(DecodeError::TruncatedInput)
    } else {
        Ok((s.subrange(p, p + n), p + n))
    }
}

/// Reading the length argument (low bits `info`) and then the UTF-8 text of
/// a text string.
pub open spec fn read_text(s: Seq<u8>, p: int, info: u8) -> Result<(Seq<char>, int), DecodeError> {
    match read_argument(s, p, info) {
        Err(e) => Err(e),
        Ok((n, q)) => match read_raw(s, q, n) {
            Err(e) => Err(e),
            Ok((b, r)) => if valid_utf8(b) {
                Ok((decode_utf8(b), r))
            } else {
                Err(DecodeError::InvalidUtf8)
            },
        },
    }
}

/// Reading the framed CID of a link, `p` standing just after the tag: a
/// byte string with a one-byte length, whose payload is the reserved zero
/// byte and then the CID (payload bytes the CID does not use are ignored).
pub open spec fn read_link_frame(s: Seq<u8>, p: int) -> Result<(CidView, int), DecodeError> {
    if p >= s.len() {
        Err(DecodeError::TruncatedInput)
    } else if s[p] != 0x58 {
        Err(DecodeError::LinkFraming)
    } else if p + 1 >= s.len() {
        Err(DecodeError::TruncatedInput)
    } else {
        let n = s[p + 1] as int;
        let q = p + 2;
        if n == 0 {
            Err(DecodeError::LinkFraming)
        } else if n > s.len() - q {
            Err(DecodeError::TruncatedInput)
        } else if s[q] != 0 {
            Err(DecodeError::LinkFraming)
        } else {
            match read_cid(s.subrange(q + 1, q + n), 0) {
                Err(e) => Err(e),
                Ok((c, _)) => Ok((c, q + n)),
            }
        }
    }
}

/// Reading one item at `pos` of `s`: the value and the position after it.
/// `depth` bounds the nesting; every level of nesting takes at least one
/// byte, so a bound of the input's length never cuts a decode short.
pub open spec fn parse_item(s: Seq<u8>, pos: int, depth: nat) -> Result<(IpldView, int), DecodeError>
    decreases depth, 0nat,
{
    if pos >= s.len() || depth == 0 {
        Err(DecodeError::TruncatedInput)
    } else {
        let b = s[pos];
        let p = pos + 1;
        if b <= 0x1b {
            match read_argument(s, p, b) {
                Err(e) => Err(e),
                Ok((n, q)) => Ok((IpldView::Number(n), q)),
            }
        } else if 0x40 <= b <= 0x5b {
            match read_argument(s, p, (b - 0x40) as u8) {
                Err(e) => Err(e),
                Ok((n, q)) => match read_raw(s, q, n) {
                    Err(e) => Err(e),
                    Ok((bytes, r)) => Ok((IpldView::Bytes(bytes), r)),
                },
            }
        } else if 0x60 <= b <= 0x7b {
            match read_text(s, p, (b - 0x60) as u8) {
                Err(e) => Err(e),
                Ok((t, q)) => Ok((IpldView::String(t), q)),
            }
        } else if 0x80 <= b <= 0x9b {
            match read_argument(s, p, (b - 0x80) as u8) {
                Err(e) => Err(e),
                Ok((n, q)) => match parse_items(s, q, n as nat, (depth - 1) as nat) {
                    Err(e) => Err(e),
                    Ok((items, r)) => Ok((IpldView::Array(items), r)),
                },
            }
        } else if 0xa0 <= b <= 0xbb {
            match read_argument(s, p, (b - 0xa0) as u8) {
                Err(e) => Err(e),
                Ok((n, q)) => match parse_entries(s, q, n as nat, (depth - 1) as nat) {
                    Err(e) => Err(e),
                    Ok((pairs, r)) => Ok((IpldView::Object(sorted_entries(pairs)), r)),
                },
            }
        } else if b == 0xd8 {
            if p >= s.len() {
                Err(DecodeError::TruncatedInput)
            } else if s[p] != LINK_TAG {
                Err(DecodeError::UnknownCborTag)
            } else {
                match read_link_frame(s, p + 1) {
                    Err(e) => Err(e),
                    Ok((c, q)) => Ok((IpldView::Link(c), q)),
                }
            }
        } else if b == 0xf4 {
            Ok((IpldView::Bool(false), p))
        } else if b == 0xf5 {
            Ok((IpldView::Bool(true), p))
        } else if b == 0xf6 || b == 0xf7 {
            Ok((IpldView::Null, p))
        } else {
            Err(DecodeError::UnknownCborTag)
        }
    }
}

/// Reading `n` items one after another at `pos`.
pub open spec fn parse_items(s: Seq<u8>, pos: int, n: nat, depth: nat) -> Result<(Seq<IpldView>, int), DecodeError>
    decreases depth, n + 1,
{
    if n == 0 {
        Ok((Seq::empty(), pos))
    } else {
        match parse_item(s, pos, depth) {
            Err(e) => Err(e),
            Ok((v, q)) => match parse_items(s, q, (n - 1) as nat, depth) {
                Err(e) => Err(e),
                Ok((rest, r)) => Ok((seq![v] + rest, r)),
            },
        }
    }
}

/// Reading `n` object entries (a text-string key, then a value) one after
/// another at `pos`.
pub open spec fn parse_entries(s: Seq<u8>, pos: int, n: nat, depth: nat) -> Result<(Seq<(Seq<char>, IpldView)>, int), DecodeError>
    decreases depth, n + 1,
{
    if n == 0 {
        Ok((Seq::empty(), pos))
    } else if pos >= s.len() {
        Err(DecodeError::TruncatedInput)
    } else if !(0x60 <= s[pos] <= 0x7b) {
        Err(DecodeError::UnexpectedCborCode)
    } else {
        match read_text(s, pos + 1, (s[pos] - 0x60) as u8) {
            Err(e) => Err(e),
            Ok((k, q)) => match parse_item(s, q, depth) {
                Err(e) => Err(e),
                Ok((v, r)) => match parse_entries(s, r, (n - 1) as nat, depth) {
                    Err(e) => Err(e),
                    Ok((rest, t)) => Ok((seq![(k, v)] + rest, t)),
                },
            },
        }
    }
}

/// Decoding the item at the start of `s`; bytes after it are left unread.
pub open spec fn decode(s: Seq<u8>) -> Result<IpldView, DecodeError> {
    match parse_item(s, 0, s.len()) {
        Err(e) => Err(e),
        Ok((v, _)) => Ok(v),
    }
}


/// Relies on std's `String::from_utf8`: it succeeds exactly when the bytes
/// are valid UTF-8, and the string then holds those bytes.
#[verifier::external_body]
fn string_from_utf8(bytes: Vec<u8>) -> (r: Option<String>)
    ensures
        match r {
            Some(t) => valid_utf8(bytes@) && t@ == decode_utf8(bytes@),
            None => !valid_utf8(bytes@),
        },
{
    String::from_utf8(bytes).ok()
}

fn read_u8(bytes: &[u8], pos: usize) -> (r: Result<(u8, usize), DecodeError>)
    requires
        pos <= bytes@.len(),
    ensures
        match r {
            Ok((b, p)) => pos < bytes@.len() && b == bytes@[pos as int] && p == pos + 1,
            Err(e) => pos == bytes@.len() && e == DecodeError::TruncatedInput,
        },
{
    if pos < bytes.len() {
        Ok((bytes[pos], pos + 1))
    } else {
        Err(DecodeError::TruncatedInput)
    }
}

fn read_u16(bytes: &[u8], pos: usize) -> (r: Result<(u16, usize), DecodeError>)
    requires
        pos <= bytes@.len(),
    ensures
        match r {
            Ok((v, p)) => bytes@.len() - pos >= 2 && v == be16_at(bytes@, pos as int) && p == pos + 2,
            Err(e) => bytes@.len() - pos < 2 && e == DecodeError::TruncatedInput,
        },
{
    if bytes.len() - pos < 2 {
        return Err(DecodeError::TruncatedInput);
    }
    let v = ((bytes[pos] as u16) << 8u16) | (bytes[pos + 1] as u16);
    Ok((v, pos + 2))
}

fn read_u32(bytes: &[u8], pos: usize) -> (r: Result<(u32, usize), DecodeError>)
    requires
        pos <= bytes@.len(),
    ensures
        match r {
            Ok((v, p)) => bytes@.len() - pos >= 4 && v == be32_at(bytes@, pos as int) && p == pos + 4,
            Err(e) => bytes@.len() - pos < 4 && e == DecodeError::TruncatedInput,
        },
{
    if bytes.len() - pos < 4 {
        return Err(DecodeError::TruncatedInput);
    }
    let v = ((bytes[pos] as u32) << 24u32) | ((bytes[pos + 1] as u32) << 16u32) | ((bytes[pos
        + 2] as u32) << 8u32) | (bytes[pos + 3] as u32);
    Ok((v, pos + 4))
}

fn read_u64(bytes: &[u8], pos: usize) -> (r: Result<(u64, usize), DecodeError>)
    requires
        pos <= bytes@.len(),
    ensures
        match r {
            Ok((v, p)) => bytes@.len() - pos >= 8 && v == be64_at(bytes@, pos as int) && p == pos + 8,
            Err(e) => bytes@.len() - pos < 8 && e == DecodeError::TruncatedInput,
        },
{
    if bytes.len() - pos < 8 {
        return Err(DecodeError::TruncatedInput);
    }
    let v = ((bytes[pos] as u64) << 56u64) | ((bytes[pos + 1] as u64) << 48u64) | ((bytes[pos
        + 2] as u64) << 40u64) | ((bytes[pos + 3] as u64) << 32u64) | ((bytes[pos + 4] as u64)
        << 24u64) | ((bytes[pos + 5] as u64) << 16u64) | ((bytes[pos + 6] as u64) << 8u64) | (bytes[pos
        + 7] as u64);
    Ok((v, pos + 8))
}

fn read_len(bytes: &[u8], pos: usize, info: u8) -> (r: Result<(u64, usize), DecodeError>)
    requires
        pos <= bytes@.len(),
    ensures
        at_int(r) == read_argument(bytes@, pos as int, info),
        r is Ok ==> r->Ok_0.1 <= bytes@.len(),
{
    if info <= 0x17 {
        Ok((info as u64, pos))
    } else if info == 0x18 {
        match read_u8(bytes, pos) {
            Ok((v, p)) => Ok((v as u64, p)),
            Err(e) => Err(e),
        }
    } else if info == 0x19 {
        match read_u16(bytes, pos) {
            Ok((v, p)) => Ok((v as u64, p)),
            Err(e) => Err(e),
        }
    } else if info == 0x1a {
        match read_u32(bytes, pos) {
            Ok((v, p)) => Ok((v as u64, p)),
            Err(e) => Err(e),
        }
    } else if info == 0x1b {
        read_u64(bytes, pos)
    } else {
        Err(DecodeError::UnexpectedCborCode)
    }
}

fn read_bytes(bytes: &[u8], pos: usize, len: u64) -> (r: Result<(Vec<u8>, usize), DecodeError>)
    requires
        pos <= bytes@.len(),
    ensures
        match r {
            Ok((v, p)) => read_raw(bytes@, pos as int, len) == Ok::<(Seq<u8>, int), DecodeError>((v@, p as int)),
            Err(e) => read_raw(bytes@, pos as int, len) == Err::<(Seq<u8>, int), DecodeError>(e),
        },
        r is Ok ==> r->Ok_0.1 <= bytes@.len(),
{
    if len > (bytes.len() - pos) as u64 {
        return Err(DecodeError::TruncatedInput);
    }
    let end = pos + len as usize;
    Ok((slice_to_vec(slice_subrange(bytes, pos, end)), end))
}

fn read_string(bytes: &[u8], pos: usize, info: u8) -> (r: Result<(String, usize), DecodeError>)
    requires
        pos <= bytes@.len(),
    ensures
        match r {
            Ok((t, p)) => read_text(bytes@, pos as int, info) == Ok::<(Seq<char>, int), DecodeError>((t@, p as int)),
            Err(e) => read_text(bytes@, pos as int, info) == Err::<(Seq<char>, int), DecodeError>(e),
        },
        r is Ok ==> r->Ok_0.1 <= bytes@.len(),
{
    let (len, q) = match read_len(bytes, pos, info) {
        Ok(x) => x,
        Err(e) => return Err(e),
    };
    let (raw, p) = match read_bytes(bytes, q, len) {
        Ok(x) => x,
        Err(e) => return Err(e),
    };
    match string_from_utf8(raw) {
        Some(t) => Ok((t, p)),
        None => Err(DecodeError::InvalidUtf8),
    }
}

fn read_link(bytes: &[u8], pos: usize) -> (r: Result<(Cid, usize), DecodeError>)
    requires
        pos <= bytes@.len(),
    ensures
        match r {
            Ok((c, p)) => read_link_frame(bytes@, pos as int) == Ok::<(CidView, int), DecodeError>((c@, p as int)),
            Err(e) => read_link_frame(bytes@, pos as int) == Err::<(CidView, int), DecodeError>(e),
        },
        r is Ok ==> r->Ok_0.1 <= bytes@.len(),
{
    let (ty, p) = read_u8(bytes, pos)?;
    if ty != 0x58 {
        return Err(DecodeError::LinkFraming);
    }
    let (len, q) = read_u8(bytes, p)?;
    if len == 0 {
        return Err(DecodeError::LinkFraming);
    }
    let (payload, end) = read_bytes(bytes, q, len as u64)?;
    if payload[0] != 0 {
        return Err(DecodeError::LinkFraming);
    }
    let body = slice_subrange(payload.as_slice(), 1, payload.len());
    proof {
        assert(body@ =~= bytes@.subrange(q + 1, q + len));
    }
    match Cid::read_from(body, 0) {
        Ok((c, _)) => Ok((c, end)),
        Err(e) => Err(e),
    }
}


#[verifier::loop_isolation(false)]
fn read_array(bytes: &[u8], pos: usize, n: u64, depth: usize) -> (r: Result<(Vec<Ipld>, usize), DecodeError>)
    requires
        pos <= bytes@.len(),
    ensures
        match r {
            Ok((v, p)) => parse_items(bytes@, pos as int, n as nat, depth as nat)
                == Ok::<(Seq<IpldView>, int), DecodeError>((array_view(v@), p as int)),
            Err(e) => parse_items(bytes@, pos as int, n as nat, depth as nat)
                == Err::<(Seq<IpldView>, int), DecodeError>(e),
        },
        r is Ok ==> r->Ok_0.1 <= bytes@.len(),
    decreases depth, n + 1, 0nat,
{
    let ghost s = bytes@;
    proof {
        reveal(parse_items);
    }
    let mut items: Vec<Ipld> = Vec::new();
    let mut p = pos;
    let mut k: u64 = 0;
    while k < n
        invariant
            k <= n,
            p <= s.len(),
            parse_items(s, pos as int, n as nat, depth as nat) == match parse_items(s, p as int, (n - k) as nat, depth as nat) {
                Ok((rest, q)) => Ok((array_view(items@) + rest, q)),
                Err(e) => Err::<(Seq<IpldView>, int), DecodeError>(e),
            },
        decreases n - k,
    {
        let (v, q) = match read_item(bytes, p, depth) {
            Ok(x) => x,
            Err(e) => return Err(e),
        };
        let ghost old_seq = items@;
        let ghost vv = v@;
        items.push(v);
        proof {
            assert(items@.subrange(0, items@.len() - 1) =~= old_seq);
            assert(array_view(items@) == array_view(old_seq).push(vv));
            assert forall|rest: Seq<IpldView>| array_view(old_seq) + (seq![vv] + rest) == #[trigger] (array_view(items@) + rest) by {
                assert(array_view(old_seq) + (seq![vv] + rest) =~= array_view(items@) + rest);
            }
        }
        p = q;
        k = k + 1;
    }
    proof {
        assert(array_view(items@) + Seq::<IpldView>::empty() =~= array_view(items@));
    }
    Ok((items, p))
}


#[verifier::loop_isolation(false)]
#[verifier::spinoff_prover]
#[verifier::rlimit(40)]
fn read_object(bytes: &[u8], pos: usize, n: u64, depth: usize) -> (r: Result<(Vec<(String, Ipld)>, usize), DecodeError>)
    requires
        pos <= bytes@.len(),
    ensures
        match r {
            Ok((v, p)) => match parse_entries(bytes@, pos as int, n as nat, depth as nat) {
                Ok((pairs, q)) => entries_view(v@) == sorted_entries(pairs) && q == p as int,
                Err(_) => false,
            },
            Err(e) => parse_entries(bytes@, pos as int, n as nat, depth as nat)
                == Err::<(Seq<(Seq<char>, IpldView)>, int), DecodeError>(e),
        },
        r is Ok ==> r->Ok_0.1 <= bytes@.len(),
    decreases depth, n + 1, 0nat,
{
    let ghost s = bytes@;
    proof {
        reveal(parse_entries);
    }
    let mut entries: Vec<(String, Ipld)> = Vec::new();
    let ghost mut raw: Seq<(Seq<char>, IpldView)> = Seq::empty();
    proof {
        reveal(sorted_entries);
        assert(entries_view(entries@) =~= Seq::<(Seq<char>, IpldView)>::empty());
    }
    let mut p = pos;
    let mut k: u64 = 0;
    while k < n
        invariant
            k <= n,
            p <= s.len(),
            entries_view(entries@) == sorted_entries(raw),
            parse_entries(s, pos as int, n as nat, depth as nat) == match parse_entries(s, p as int, (n - k) as nat, depth as nat) {
                Ok((rest, q)) => Ok((raw + rest, q)),
                Err(e) => Err::<(Seq<(Seq<char>, IpldView)>, int), DecodeError>(e),
            },
        decreases n - k,
    {
        let (major, after_head) = match read_u8(bytes, p) {
            Ok(x) => x,
            Err(e) => return Err(e),
        };
        if major < 0x60 || major > 0x7b {
            return Err(DecodeError::UnexpectedCborCode);
        }
        let (key, after_key) = match read_string(bytes, after_head, major - 0x60) {
            Ok(x) => x,
            Err(e) => return Err(e),
        };
        let (val, after_value) = match read_item(bytes, after_key, depth) {
            Ok(x) => x,
            Err(e) => return Err(e),
        };
        let ghost entry = (key@, val@);
        let ghost old_raw = raw;
        proof {
            reveal(sorted_entries);
            raw = raw.push(entry);
            assert(raw.subrange(0, raw.len() - 1) =~= old_raw);
            assert forall|rest: Seq<(Seq<char>, IpldView)>| old_raw + (seq![entry] + rest) == #[trigger] (raw + rest) by {
                assert(old_raw + (seq![entry] + rest) =~= raw + rest);
            }
        }
        insert_sorted(&mut entries, key, val);
        p = after_value;
        k = k + 1;
    }
    proof {
        assert(raw + Seq::<(Seq<char>, IpldView)>::empty() =~= raw);
    }
    Ok((entries, p))
}

/// Reads one item at `pos` of `bytes`, nested at most `depth` deep.
fn read_item(bytes: &[u8], pos: usize, depth: usize) -> (r: Result<(Ipld, usize), DecodeError>)
    requires
        pos <= bytes@.len(),
    ensures
        match r {
            Ok((v, p)) => parse_item(bytes@, pos as int, depth as nat)
                == Ok::<(IpldView, int), DecodeError>((v@, p as int)),
            Err(e) => parse_item(bytes@, pos as int, depth as nat)
                == Err::<(IpldView, int), DecodeError>(e),
        },
        r is Ok ==> r->Ok_0.1 <= bytes@.len(),
    decreases depth, 0nat, 0nat,
{
    proof {
        reveal(parse_item);
    }
    if depth == 0 {
        return Err(DecodeError::TruncatedInput);
    }
    let (major, p) = read_u8(bytes, pos)?;
    if major <= 0x1b {
        let (n, q) = read_len(bytes, p, major)?;
        Ok((Ipld::Number(n), q))
    } else if 0x40 <= major && major <= 0x5b {
        let (len, q) = read_len(bytes, p, major - 0x40)?;
        let (b, r) = read_bytes(bytes, q, len)?;
        Ok((Ipld::Bytes(b), r))
    } else if 0x60 <= major && major <= 0x7b {
        let (t, q) = read_string(bytes, p, major - 0x60)?;
        Ok((Ipld::String(t), q))
    } else if 0x80 <= major && major <= 0x9b {
        let (len, q) = read_len(bytes, p, major - 0x80)?;
        let (items, r) = read_array(bytes, q, len, depth - 1)?;
        Ok((Ipld::Array(items), r))
    } else if 0xa0 <= major && major <= 0xbb {
        let (len, q) = read_len(bytes, p, major - 0xa0)?;
        let (entries, r) = read_object(bytes, q, len, depth - 1)?;
        Ok((Ipld::Object(entries), r))
    } else if major == 0xd8 {
        let (tag, q) = read_u8(bytes, p)?;
        if tag != LINK_TAG {
            return Err(DecodeError::UnknownCborTag);
        }
        let (c, r) = read_link(bytes, q)?;
        Ok((Ipld::Link(c), r))
    } else if major == 0xf4 {
        Ok((Ipld::Bool(false), p))
    } else if major == 0xf5 {
        Ok((Ipld::Bool(true), p))
    } else if major == 0xf6 || major == 0xf7 {
        Ok((Ipld::Null, p))
    } else {
        Err(DecodeError::UnknownCborTag)
    }
}

/// Decodes the DAG-CBOR item at the start of `bytes`; bytes after it are
/// left unread.
pub fn deserialize(bytes: &[u8]) -> (r: Result<Ipld, DecodeError>)
    ensures
        match decode(bytes@) {
            Ok(v) => r is Ok && r->Ok_0@ == v,
            Err(e) => r == Err::<Ipld, DecodeError>(e),
        },
{
    match read_item(bytes, 0, bytes.len()) {
        Ok((v, _)) => Ok(v),
        Err(e) => Err(e),
    }
}


/// The low five bits of the first byte of `head(major, n)`.
pub open spec fn head_info(n: u64) -> u8 {
    if n <= 23 {
        n as u8
    } else if n <= 0xff {
        24
    } else if n <= 0xffff {
        25
    } else if n <= 0xffff_ffff {
        26
    } else {
        27
    }
}

proof fn lemma_be_round_trip(n: u64)
    ensures
        ((((n as u16) >> 8u16) as u8 as u16) << 8u16) | ((n as u16) as u8 as u16) == n as u16,
        ((((n as u32) >> 24u32) as u8 as u32) << 24u32) | ((((n as u32) >> 16u32) as u8 as u32) << 16u32)
            | ((((n as u32) >> 8u32) as u8 as u32) << 8u32) | ((n as u32) as u8 as u32) == n as u32,
        (((n >> 56u64) as u8 as u64) << 56u64) | (((n >> 48u64) as u8 as u64) << 48u64) | (((n
            >> 40u64) as u8 as u64) << 40u64) | (((n >> 32u64) as u8 as u64) << 32u64) | (((n
            >> 24u64) as u8 as u64) << 24u64) | (((n >> 16u64) as u8 as u64) << 16u64) | (((n
            >> 8u64) as u8 as u64) << 8u64) | (n as u8 as u64) == n,
{
    let m = n as u16;
    assert(((((m >> 8u16) as u8) as u16) << 8u16) | ((m as u8) as u16) == m) by (bit_vector);
    let w = n as u32;
    assert(((((w >> 24u32) as u8) as u32) << 24u32) | ((((w >> 16u32) as u8) as u32) << 16u32) | ((((w
        >> 8u32) as u8) as u32) << 8u32) | ((w as u8) as u32) == w) by (bit_vector);
    assert((((n >> 56u64) as u8 as u64) << 56u64) | (((n >> 48u64) as u8 as u64) << 48u64) | (((n
        >> 40u64) as u8 as u64) << 40u64) | (((n >> 32u64) as u8 as u64) << 32u64) | (((n >> 24u64)
        as u8 as u64) << 24u64) | (((n >> 16u64) as u8 as u64) << 16u64) | (((n >> 8u64) as u8 as u64)
        << 8u64) | (n as u8 as u64) == n) by (bit_vector);
}

/// A head is read back: its first byte carries the major type and
/// `head_info(n)`, and the argument that follows is `n`.
proof fn lemma_head_round_trip(major: u8, n: u64, pre: Seq<u8>, post: Seq<u8>)
    requires
        major <= 7,
    ensures
        head(major, n).len() >= 1,
        (pre + head(major, n) + post)[pre.len() as int] == major * 32 + head_info(n),
        read_argument(pre + head(major, n) + post, pre.len() + 1int, head_info(n))
            == Ok::<(u64, int), DecodeError>((n, (pre.len() + head(major, n).len()) as int)),
{
    reveal(head);
    let h = head(major, n);
    let s = pre + h + post;
    let p = pre.len() as int;
    assert(s[p] == h[0]);
    lemma_be_round_trip(n);
    if n > 23 && n <= 0xff {
        assert(s[p + 1] == h[1]);
    } else if n > 0xff && n <= 0xffff {
        assert(s[p + 1] == h[1]);
        assert(s[p + 2] == h[2]);
        assert(be16_at(s, p + 1) == n as u16);
    } else if n > 0xffff && n <= 0xffff_ffff {
        assert(s[p + 1] == h[1]);
        assert(s[p + 2] == h[2]);
        assert(s[p + 3] == h[3]);
        assert(s[p + 4] == h[4]);
        assert(be32_at(s, p + 1) == n as u32);
    } else if n > 0xffff_ffff {
        assert(s[p + 1] == h[1]);
        assert(s[p + 2] == h[2]);
        assert(s[p + 3] == h[3]);
        assert(s[p + 4] == h[4]);
        assert(s[p + 5] == h[5]);
        assert(s[p + 6] == h[6]);
        assert(s[p + 7] == h[7]);
        assert(s[p + 8] == h[8]);
        assert(be64_at(s, p + 1) == n);
    }
}


/// `v` is read back from its encoding: every length fits in 64 bits, the
/// entries of every object are strictly sorted, and every link holds a CID
/// with a well-formed multihash whose encoding takes 23 to 254 bytes, so
/// that its frame has a one-byte length.
pub open spec fn in_canonical_form(v: IpldView) -> bool
    decreases v,
{
    match v {
        IpldView::String(t) => encode_utf8(t).len() <= u64::MAX,
        IpldView::Bytes(b) => b.len() <= u64::MAX,
        IpldView::Array(a) => a.len() <= u64::MAX && items_in_canonical_form(a),
        IpldView::Object(o) => o.len() <= u64::MAX && strictly_sorted(o) && entries_in_canonical_form(o),
        IpldView::Link(c) => c.wf() && 23 <= cid_bytes(c).len() <= 254,
        _ => true,
    }
}

/// Every item of `a` is in canonical form.
pub open spec fn items_in_canonical_form(a: Seq<IpldView>) -> bool
    decreases a,
{
    a.len() == 0 || (in_canonical_form(a[0]) && items_in_canonical_form(a.subrange(1, a.len() as int)))
}

/// Every key of `o` has a UTF-8 length that fits in 64 bits, and every value
/// is in canonical form.
pub open spec fn entries_in_canonical_form(o: Seq<(Seq<char>, IpldView)>) -> bool
    decreases o,
{
    o.len() == 0 || (encode_utf8(o[0].0).len() <= u64::MAX && in_canonical_form(o[0].1)
        && entries_in_canonical_form(o.subrange(1, o.len() as int)))
}

proof fn lemma_text_round_trip(t: Seq<char>, pre: Seq<u8>, post: Seq<u8>)
    requires
        encode_utf8(t).len() <= u64::MAX,
    ensures
        (pre + text_item(t) + post)[pre.len() as int] == 0x60 + head_info(encode_utf8(t).len() as u64),
        read_text(pre + text_item(t) + post, pre.len() + 1int, head_info(encode_utf8(t).len() as u64))
            == Ok::<(Seq<char>, int), DecodeError>((t, (pre.len() + text_item(t).len()) as int)),
{
    let b = encode_utf8(t);
    let n = b.len() as u64;
    let h = head(3, n);
    let s = pre + text_item(t) + post;
    lemma_head_round_trip(3, n, pre, b + post);
    assert(pre + h + (b + post) =~= s);
    let q = pre.len() + h.len();
    assert(s.subrange(q as int, q + n) =~= b);
    vstd::utf8::encode_utf8_valid_utf8(t);
    vstd::utf8::encode_utf8_decode_utf8(t);
}

#[verifier::spinoff_prover]
#[verifier::rlimit(100)]
proof fn lemma_leaf_round_trip(v: IpldView, pre: Seq<u8>, post: Seq<u8>, depth: nat)
    requires
        in_canonical_form(v),
        depth >= encode(v).len(),
        !(v is Array || v is Object || v is Link),
    ensures
        encode(v).len() >= 1,
        parse_item(pre + encode(v) + post, pre.len() as int, depth)
            == Ok::<(IpldView, int), DecodeError>((v, (pre.len() + encode(v).len()) as int)),
{
    reveal(parse_item);
    let s = pre + encode(v) + post;
    let p = pre.len() as int;
    match v {
        IpldView::Null => {
            assert(s[p] == 0xf6);
        },
        IpldView::Bool(b) => {
            assert(s[p] == encode(v)[0]);
        },
        IpldView::Number(n) => {
            lemma_head_round_trip(0, n, pre, post);
        },
        IpldView::String(t) => {
            lemma_text_round_trip(t, pre, post);
        },
        IpldView::Bytes(b) => {
            let n = b.len() as u64;
            let h = head(2, n);
            lemma_head_round_trip(2, n, pre, b + post);
            assert(pre + h + (b + post) =~= s);
            let q = pre.len() + h.len();
            assert(s.subrange(q as int, q + n) =~= b);
        },
        _ => {},
    }
}

#[verifier::spinoff_prover]
#[verifier::rlimit(100)]
proof fn lemma_link_round_trip(c: CidView, pre: Seq<u8>, post: Seq<u8>, depth: nat)
    requires
        in_canonical_form(IpldView::Link(c)),
        depth >= 1,
    ensures
        parse_item(pre + encode(IpldView::Link(c)) + post, pre.len() as int, depth)
            == Ok::<(IpldView, int), DecodeError>((IpldView::Link(c), (pre.len() + encode(IpldView::Link(c)).len()) as int)),
{
    reveal(parse_item);
    let v = IpldView::Link(c);
    let s = pre + encode(v) + post;
    let p = pre.len() as int;
    let cb = cid_bytes(c);
    let h = head(6, LINK_TAG as u64);
    let f = head(2, (cb.len() + 1) as u64);
    reveal(head);
    assert(h =~= seq![0xd8u8, 42u8]);
    assert(f =~= seq![0x58u8, (cb.len() + 1) as u8]);
    assert(encode(v) =~= seq![0xd8u8, 42u8, 0x58u8, (cb.len() + 1) as u8, 0u8] + cb);
    assert(s[p] == 0xd8);
    assert(s[p + 1] == 42);
    assert(s[p + 2] == 0x58);
    assert(s[p + 3] == (cb.len() + 1) as u8);
    assert(s[p + 4] == 0);
    assert(s.subrange(p + 5, p + 5 + cb.len()) =~= Seq::<u8>::empty() + cb + Seq::<u8>::empty());
    crate::cid::lemma_cid_round_trip(c, Seq::empty(), Seq::empty());
}

#[verifier::spinoff_prover]
#[verifier::rlimit(100)]
proof fn lemma_array_round_trip(a: Seq<IpldView>, pre: Seq<u8>, post: Seq<u8>, depth: nat)
    requires
        in_canonical_form(IpldView::Array(a)),
        depth >= encode(IpldView::Array(a)).len(),
    ensures
        parse_item(pre + encode(IpldView::Array(a)) + post, pre.len() as int, depth)
            == Ok::<(IpldView, int), DecodeError>((IpldView::Array(a), (pre.len() + encode(IpldView::Array(a)).len()) as int)),
    decreases a, 1nat,
{
    reveal(parse_item);
    let s = pre + encode(IpldView::Array(a)) + post;
    let n = a.len() as u64;
    let h = head(4, n);
    lemma_head_round_trip(4, n, pre, encode_items(a) + post);
    assert(pre + h + (encode_items(a) + post) =~= s);
    lemma_items_round_trip(a, pre + h, post, (depth - 1) as nat);
    assert(pre + h + encode_items(a) + post =~= s);
}

#[verifier::spinoff_prover]
#[verifier::rlimit(100)]
proof fn lemma_object_round_trip(o: Seq<(Seq<char>, IpldView)>, pre: Seq<u8>, post: Seq<u8>, depth: nat)
    requires
        in_canonical_form(IpldView::Object(o)),
        depth >= encode(IpldView::Object(o)).len(),
    ensures
        parse_item(pre + encode(IpldView::Object(o)) + post, pre.len() as int, depth)
            == Ok::<(IpldView, int), DecodeError>((IpldView::Object(o), (pre.len() + encode(IpldView::Object(o)).len()) as int)),
    decreases o, 1nat,
{
    reveal(parse_item);
    lemma_sorted_object_encoding(o);
    let s = pre + encode(IpldView::Object(o)) + post;
    let n = o.len() as u64;
    let h = head(5, n);
    lemma_head_round_trip(5, n, pre, encode_entries(o) + post);
    assert(pre + h + (encode_entries(o) + post) =~= s);
    lemma_entries_round_trip(o, pre + h, post, (depth - 1) as nat);
    assert(pre + h + encode_entries(o) + post =~= s);
    crate::ipld::lemma_sorted_entries_of_sorted(o);
}

proof fn lemma_item_round_trip(v: IpldView, pre: Seq<u8>, post: Seq<u8>, depth: nat)
    requires
        in_canonical_form(v),
        depth >= encode(v).len(),
    ensures
        encode(v).len() >= 1,
        parse_item(pre + encode(v) + post, pre.len() as int, depth)
            == Ok::<(IpldView, int), DecodeError>((v, (pre.len() + encode(v).len()) as int)),
    decreases v, 2nat,
{
    match v {
        IpldView::Array(a) => {
            lemma_head_round_trip(4, a.len() as u64, pre, post);
            lemma_array_round_trip(a, pre, post, depth);
        },
        IpldView::Object(o) => {
            lemma_sorted_object_encoding(o);
            lemma_head_round_trip(5, o.len() as u64, pre, post);
            lemma_object_round_trip(o, pre, post, depth);
        },
        IpldView::Link(c) => {
            lemma_head_round_trip(6, LINK_TAG as u64, pre, post);
            lemma_link_round_trip(c, pre, post, depth);
        },
        _ => {
            lemma_leaf_round_trip(v, pre, post, depth);
        },
    }
}

#[verifier::spinoff_prover]
#[verifier::rlimit(100)]
proof fn lemma_items_round_trip(a: Seq<IpldView>, pre: Seq<u8>, post: Seq<u8>, depth: nat)
    requires
        items_in_canonical_form(a),
        depth >= encode_items(a).len(),
    ensures
        encode_items(a).len() >= a.len(),
        parse_items(pre + encode_items(a) + post, pre.len() as int, a.len(), depth)
            == Ok::<(Seq<IpldView>, int), DecodeError>((a, (pre.len() + encode_items(a).len()) as int)),
    decreases a, 0nat,
{
    reveal(parse_items);
    if a.len() > 0 {
        let t = a.subrange(1, a.len() as int);
        let e0 = encode(a[0]);
        let s = pre + encode_items(a) + post;
        lemma_item_round_trip(a[0], pre, encode_items(t) + post, depth);
        assert(pre + e0 + (encode_items(t) + post) =~= s);
        lemma_items_round_trip(t, pre + e0, post, depth);
        assert(pre + e0 + encode_items(t) + post =~= s);
        assert(seq![a[0]] + t =~= a);
        let p = pre.len() as int;
        assert(parse_item(s, p, depth) == Ok::<(IpldView, int), DecodeError>((a[0], p + e0.len())));
        assert(parse_items(s, p + e0.len(), t.len(), depth) == Ok::<(Seq<IpldView>, int), DecodeError>((t, p + e0.len() + encode_items(t).len())));
        assert(encode_items(a).len() == e0.len() + encode_items(t).len());
        assert(parse_items(s, p, a.len(), depth) == Ok::<(Seq<IpldView>, int), DecodeError>((seq![a[0]] + t, p + e0.len() + encode_items(t).len())));
    } else {
        assert(a =~= Seq::<IpldView>::empty());
    }
}

#[verifier::spinoff_prover]
#[verifier::rlimit(100)]
proof fn lemma_entries_round_trip(o: Seq<(Seq<char>, IpldView)>, pre: Seq<u8>, post: Seq<u8>, depth: nat)
    requires
        entries_in_canonical_form(o),
        depth >= encode_entries(o).len(),
    ensures
        encode_entries(o).len() >= o.len(),
        parse_entries(pre + encode_entries(o) + post, pre.len() as int, o.len(), depth)
            == Ok::<(Seq<(Seq<char>, IpldView)>, int), DecodeError>((o, (pre.len() + encode_entries(o).len()) as int)),
    decreases o, 0nat,
{
    reveal(parse_entries);
    if o.len() > 0 {
        let t = o.subrange(1, o.len() as int);
        let k = text_item(o[0].0);
        let e0 = encode(o[0].1);
        let s = pre + encode_entries(o) + post;
        lemma_text_round_trip(o[0].0, pre, e0 + encode_entries(t) + post);
        assert(pre + k + (e0 + encode_entries(t) + post) =~= s);
        assert(decreases_to!(o => o[0]));
        lemma_item_round_trip(o[0].1, pre + k, encode_entries(t) + post, depth);
        assert(pre + k + e0 + (encode_entries(t) + post) =~= s);
        lemma_entries_round_trip(t, pre + k + e0, post, depth);
        assert(pre + k + e0 + encode_entries(t) + post =~= s);
        assert(seq![(o[0].0, o[0].1)] + t =~= o);
        let p = pre.len() as int;
        let b = encode_utf8(o[0].0);
        assert(s[p] == 0x60 + head_info(b.len() as u64));
        assert(read_text(s, p + 1, (s[p] - 0x60) as u8) == Ok::<(Seq<char>, int), DecodeError>((o[0].0, p + k.len())));
        assert(parse_item(s, p + k.len(), depth) == Ok::<(IpldView, int), DecodeError>((o[0].1, p + k.len() + e0.len())));
        assert(parse_entries(s, p + k.len() + e0.len(), t.len(), depth) == Ok::<(Seq<(Seq<char>, IpldView)>, int), DecodeError>((t, p + k.len() + e0.len() + encode_entries(t).len())));
        assert(encode_entries(o).len() == k.len() + e0.len() + encode_entries(t).len());
    } else {
        assert(o =~= Seq::<(Seq<char>, IpldView)>::empty());
    }
}

/// Every value in canonical form is decoded back from its DAG-CBOR
/// encoding, whatever bytes follow it.
pub proof fn lemma_dag_cbor_round_trip(v: IpldView, post: Seq<u8>)
    requires
        in_canonical_form(v),
    ensures
        decode(encode(v) + post) == Ok::<IpldView, DecodeError>(v),
{
    lemma_item_round_trip(v, Seq::empty(), post, (encode(v) + post).len());
    assert(Seq::<u8>::empty() + encode(v) + post =~= encode(v) + post);
}


/// Objects whose entries map every key alike (a later entry winning over an
/// earlier one) encode to the same bytes, whatever order the entries are in.
pub proof fn lemma_object_encoding_canonical(a: Seq<(Seq<char>, IpldView)>, b: Seq<(Seq<char>, IpldView)>)
    requires
        forall|k: Seq<char>| lookup(a, k) == lookup(b, k),
    ensures
        encode(IpldView::Object(a)) == encode(IpldView::Object(b)),
{
    assert forall|k: Seq<char>| lookup(entries_bytes(a), k) == lookup(entries_bytes(b), k) by {
        lemma_lookup_entries_bytes(a, k);
        lemma_lookup_entries_bytes(b, k);
    }
    lemma_sorted_entries_canonical(entries_bytes(a), entries_bytes(b));
}

/// A link whose frame declares an empty payload, or whose payload does not
/// start with the reserved zero byte, is refused as badly framed.
pub proof fn lemma_link_framing(s: Seq<u8>)
    requires
        s.len() >= 4,
        s[0] == 0xd8,
        s[1] == LINK_TAG,
        s[2] == 0x58,
        s[3] == 0 || (4 + s[3] <= s.len() && s[4] != 0),
    ensures
        decode(s) == Err::<IpldView, DecodeError>(DecodeError::LinkFraming),
{
}

/// An empty stream holds no multihash, no CID and no DAG-CBOR item.
pub proof fn lemma_empty_input()
    ensures
        read_multihash(Seq::empty(), 0) == Err::<(MultihashView, int), DecodeError>(DecodeError::TruncatedInput),
        read_cid(Seq::empty(), 0) == Err::<(CidView, int), DecodeError>(DecodeError::TruncatedInput),
        decode(Seq::empty()) == Err::<IpldView, DecodeError>(DecodeError::TruncatedInput),
{
}

} // verus!
