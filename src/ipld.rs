//! The IPLD data model: a closed set of value kinds that every serializable
//! value reduces to.

use crate::cid::{Cid, CidView};
use vstd::prelude::*;

verus! {

/// An IPLD value.
///
/// An `Object` stands for the map that gives each key the value of its last
/// entry. [`crate::dag_cbor::serialize`] writes that map in key order (see
/// [`key_lt`]), so the order the entries are stored in never changes the
/// bytes; [`Ipld::to_object`] and [`crate::dag_cbor::deserialize`] build
/// objects whose entries are already in strictly ascending key order.
#[derive(PartialEq, Debug)]
pub enum Ipld {
    /// The absence of a value.
    Null,
    /// A boolean.
    Bool(bool),
    /// An unsigned integer.
    Number(u64),
    /// A UTF-8 string.
    String(String),
    /// A byte string.
    Bytes(Vec<u8>),
    /// A list.
    Array(Vec<Ipld>),
    /// A map from strings: `(key, value)` entries, the last entry for a key
    /// winning.
    Object(Vec<(String, Ipld)>),
    /// A link to another block.
    Link(Cid),
}

/// The logical content of an IPLD value.
pub enum IpldView {
    Null,
    Bool(bool),
    Number(u64),
    String(Seq<char>),
    Bytes(Seq<u8>),
    Array(Seq<IpldView>),
    Object(Seq<(Seq<char>, IpldView)>),
    Link(CidView),
}

/// The logical content of `v`.
pub open spec fn ipld_view(v: Ipld) -> IpldView
    decreases v,
{
    match v {
        Ipld::Null => IpldView::Null,
        Ipld::Bool(b) => IpldView::Bool(b),
        Ipld::Number(n) => IpldView::Number(n),
        Ipld::String(s) => IpldView::String(s@),
        Ipld::Bytes(b) => IpldView::Bytes(b@),
        Ipld::Array(a) => IpldView::Array(array_view(a@)),
        Ipld::Object(o) => IpldView::Object(entries_view(o@)),
        Ipld::Link(c) => IpldView::Link(c@),
    }
}

/// The logical content of each element of `s`.
pub open spec fn array_view(s: Seq<Ipld>) -> Seq<IpldView>
    decreases s,
{
    if s.len() == 0 {
        Seq::empty()
    } else {
        array_view(s.subrange(0, s.len() - 1)).push(ipld_view(s[s.len() - 1]))
    }
}

/// The logical content of each entry of `s`.
pub open spec fn entries_view(s: Seq<(String, Ipld)>) -> Seq<(Seq<char>, IpldView)>
    decreases s,
{
    if s.len() == 0 {
        Seq::empty()
    } else {
        entries_view(s.subrange(0, s.len() - 1)).push(
            (s[s.len() - 1].0@, ipld_view(s[s.len() - 1].1)),
        )
    }
}

impl View for Ipld {
    type V = IpldView;

    open spec fn view(&self) -> IpldView {
        ipld_view(*self)
    }
}

/// The view of a vector of values holds the view of each, in order.
pub proof fn lemma_array_view(s: Seq<Ipld>)
    ensures
        array_view(s).len() == s.len(),
        forall|i: int| 0 <= i < s.len() ==> #[trigger] array_view(s)[i] == ipld_view(s[i]),
    decreases s.len(),
{
    if s.len() > 0 {
        lemma_array_view(s.subrange(0, s.len() - 1));
    }
}

/// The view of a vector of entries holds the view of each, in order.
pub proof fn lemma_entries_view(s: Seq<(String, Ipld)>)
    ensures
        entries_view(s).len() == s.len(),
        forall|i: int|
            0 <= i < s.len() ==> #[trigger] entries_view(s)[i] == (s[i].0@, ipld_view(s[i].1)),
    decreases s.len(),
{
    if s.len() > 0 {
        lemma_entries_view(s.subrange(0, s.len() - 1));
    }
}

/// Key order: lexicographic by code point, which is also the order of the
/// keys' UTF-8 bytes.
pub open spec fn key_lt(a: Seq<char>, b: Seq<char>) -> bool
    decreases a.len(),
{
    if a.len() == 0 {
        b.len() > 0
    } else if b.len() == 0 {
        false
    } else if a[0] != b[0] {
        (a[0] as u32) < (b[0] as u32)
    } else {
        key_lt(a.drop_first(), b.drop_first())
    }
}

/// Keys in strictly ascending order (so each key occurs once).
pub open spec fn strictly_sorted<V>(o: Seq<(Seq<char>, V)>) -> bool {
    forall|i: int, j: int| 0 <= i < j < o.len() ==> key_lt(#[trigger] o[i].0, #[trigger] o[j].0)
}

/// Where key `k` belongs in `o`: the number of leading entries whose keys
/// come before it.
pub open spec fn lower_bound<V>(o: Seq<(Seq<char>, V)>, k: Seq<char>) -> nat
    decreases o.len(),
{
    if o.len() == 0 {
        0
    } else if key_lt(o[0].0, k) {
        1 + lower_bound(o.drop_first(), k)
    } else {
        0
    }
}

/// Stores `(k, v)` in `o` at its place in key order, replacing an entry with
/// the same key.
pub open spec fn insert_entry<V>(o: Seq<(Seq<char>, V)>, k: Seq<char>, v: V) -> Seq<(Seq<char>, V)> {
    let i = lower_bound(o, k) as int;
    if i < o.len() && o[i].0 == k {
        o.update(i, (k, v))
    } else {
        o.insert(i, (k, v))
    }
}

/// The entries of `pairs` in key order, a later pair winning over an
/// earlier one with the same key.
#[verifier::opaque]
pub open spec fn sorted_entries<V>(pairs: Seq<(Seq<char>, V)>) -> Seq<(Seq<char>, V)>
    decreases pairs.len(),
{
    if pairs.len() == 0 {
        Seq::empty()
    } else {
        let last = pairs[pairs.len() - 1];
        insert_entry(sorted_entries(pairs.subrange(0, pairs.len() - 1)), last.0, last.1)
    }
}

proof fn lemma_key_lt_irreflexive(a: Seq<char>)
    ensures
        !key_lt(a, a),
    decreases a.len(),
{
    if a.len() > 0 {
        lemma_key_lt_irreflexive(a.drop_first());
    }
}

proof fn lemma_key_lt_transitive(a: Seq<char>, b: Seq<char>, c: Seq<char>)
    requires
        key_lt(a, b),
        key_lt(b, c),
    ensures
        key_lt(a, c),
    decreases a.len(),
{
    if a.len() > 0 && b.len() > 0 && c.len() > 0 && a[0] == b[0] && b[0] == c[0] {
        lemma_key_lt_transitive(a.drop_first(), b.drop_first(), c.drop_first());
    }
}

proof fn lemma_key_lt_total(a: Seq<char>, b: Seq<char>)
    ensures
        a == b || key_lt(a, b) || key_lt(b, a),
        !(key_lt(a, b) && key_lt(b, a)),
    decreases a.len(),
{
    if a.len() > 0 && b.len() > 0 {
        if a[0] == b[0] {
            lemma_key_lt_total(a.drop_first(), b.drop_first());
            if a.drop_first() == b.drop_first() {
                assert(a =~= seq![a[0]] + a.drop_first());
                assert(b =~= seq![b[0]] + b.drop_first());
            }
        } else {
            vstd::utf8::char_u32_cast(a[0], a[0] as u32);
            vstd::utf8::char_u32_cast(b[0], b[0] as u32);
        }
    } else if a.len() == 0 && b.len() == 0 {
        assert(a =~= b);
    }
}

/// Compares two keys in key order: negative, zero or positive as `a` comes
/// before, equals or comes after `b`.
pub fn compare_keys(a: &str, b: &str) -> (r: i8)
    ensures
        r < 0 <==> key_lt(a@, b@),
        r == 0 <==> a@ == b@,
        r > 0 <==> key_lt(b@, a@),
{
    let la = a.unicode_len();
    let lb = b.unicode_len();
    let mut i: usize = 0;
    proof {
        lemma_key_lt_total(a@, b@);
        assert(a@.skip(0) =~= a@);
        assert(b@.skip(0) =~= b@);
    }
    while i < la && i < lb
        invariant
            la == a@.len(),
            lb == b@.len(),
            i <= la,
            i <= lb,
            a@.subrange(0, i as int) == b@.subrange(0, i as int),
            key_lt(a@, b@) == key_lt(a@.skip(i as int), b@.skip(i as int)),
            key_lt(b@, a@) == key_lt(b@.skip(i as int), a@.skip(i as int)),
        decreases la - i,
    {
        let ca = a.get_char(i);
        let cb = b.get_char(i);
        if ca != cb {
            proof {
                assert(a@.skip(i as int)[0] == ca);
                assert(b@.skip(i as int)[0] == cb);
                vstd::utf8::char_u32_cast(ca, ca as u32);
                vstd::utf8::char_u32_cast(cb, cb as u32);
                assert(a@[i as int] != b@[i as int]);
                if a@ == b@ {
                    assert(a@[i as int] == b@[i as int]);
                }
            }
            if (ca as u32) < (cb as u32) {
                return -1;
            } else {
                return 1;
            }
        }
        proof {
            assert(a@.skip(i as int).drop_first() =~= a@.skip(i + 1));
            assert(b@.skip(i as int).drop_first() =~= b@.skip(i + 1));
            assert(a@.subrange(0, i + 1) =~= a@.subrange(0, i as int).push(ca));
            assert(b@.subrange(0, i + 1) =~= b@.subrange(0, i as int).push(cb));
        }
        i = i + 1;
    }
    proof {
        if la == lb {
            assert(a@ =~= a@.subrange(0, i as int));
            assert(b@ =~= b@.subrange(0, i as int));
        } else {
            assert(a@.len() != b@.len());
        }
    }
    if la < lb {
        -1
    } else if la > lb {
        1
    } else {
        0
    }
}


proof fn lemma_lower_bound_at<V>(o: Seq<(Seq<char>, V)>, k: Seq<char>, i: int)
    requires
        0 <= i <= o.len(),
        forall|j: int| 0 <= j < i ==> key_lt(#[trigger] o[j].0, k),
        i == o.len() || !key_lt(o[i].0, k),
    ensures
        lower_bound(o, k) == i,
    decreases i,
{
    if i > 0 {
        assert(key_lt(o[0].0, k));
        assert forall|j: int| 0 <= j < i - 1 implies key_lt(#[trigger] o.drop_first()[j].0, k) by {
            assert(o.drop_first()[j] == o[j + 1]);
        }
        lemma_lower_bound_at(o.drop_first(), k, i - 1);
    }
}

proof fn lemma_lower_bound_props<V>(o: Seq<(Seq<char>, V)>, k: Seq<char>)
    ensures
        lower_bound(o, k) <= o.len(),
        forall|j: int| 0 <= j < lower_bound(o, k) ==> key_lt(#[trigger] o[j].0, k),
        lower_bound(o, k) < o.len() ==> !key_lt(o[lower_bound(o, k) as int].0, k),
    decreases o.len(),
{
    if o.len() > 0 && key_lt(o[0].0, k) {
        lemma_lower_bound_props(o.drop_first(), k);
        assert forall|j: int| 0 <= j < lower_bound(o, k) implies key_lt(#[trigger] o[j].0, k) by {
            if j > 0 {
                assert(o[j] == o.drop_first()[j - 1]);
            }
        }
    }
}

/// Inserting into a strictly sorted sequence keeps it strictly sorted.
proof fn lemma_insert_entry_sorted<V>(o: Seq<(Seq<char>, V)>, k: Seq<char>, v: V)
    requires
        strictly_sorted(o),
    ensures
        strictly_sorted(insert_entry(o, k, v)),
{
    lemma_lower_bound_props(o, k);
    let i = lower_bound(o, k) as int;
    let r = insert_entry(o, k, v);
    if i < o.len() && o[i].0 == k {
        assert forall|a: int, b: int| 0 <= a < b < r.len() implies key_lt(#[trigger] r[a].0, #[trigger] r[b].0) by {
            assert(r[a].0 == o[a].0);
            assert(r[b].0 == o[b].0);
        }
    } else {
        if i < o.len() {
            lemma_key_lt_total(o[i].0, k);
        }
        assert forall|j: int| i <= j < o.len() implies key_lt(k, #[trigger] o[j].0) by {
            if j > i {
                lemma_key_lt_transitive(k, o[i].0, o[j].0);
            }
        }
        assert forall|a: int, b: int| 0 <= a < b < r.len() implies key_lt(#[trigger] r[a].0, #[trigger] r[b].0) by {
            if b < i {
            } else if b == i {
            } else if a < i {
                lemma_key_lt_transitive(o[a].0, k, o[b - 1].0);
            } else if a == i {
            } else {
            }
        }
    }
}

/// Building entries in key order always gives a strictly sorted sequence.
pub proof fn lemma_sorted_entries_sorted<V>(pairs: Seq<(Seq<char>, V)>)
    ensures
        strictly_sorted(sorted_entries(pairs)),
    decreases pairs.len(),
{
    reveal(sorted_entries);
    if pairs.len() > 0 {
        let init = pairs.subrange(0, pairs.len() - 1);
        lemma_sorted_entries_sorted(init);
        let last = pairs[pairs.len() - 1];
        lemma_insert_entry_sorted(sorted_entries(init), last.0, last.1);
    }
}

/// Entries that are already strictly sorted are kept as they are.
pub proof fn lemma_sorted_entries_of_sorted<V>(o: Seq<(Seq<char>, V)>)
    requires
        strictly_sorted(o),
    ensures
        sorted_entries(o) == o,
    decreases o.len(),
{
    reveal(sorted_entries);
    if o.len() > 0 {
        let n = o.len() - 1;
        let init = o.subrange(0, n);
        assert(strictly_sorted(init));
        lemma_sorted_entries_of_sorted(init);
        lemma_lower_bound_at(init, o[n].0, n);
        assert(init.insert(n, o[n]) =~= o);
    }
}

/// The value that `pairs` gives key `k`: that of the last pair with that
/// key, if any.
pub open spec fn lookup<V>(pairs: Seq<(Seq<char>, V)>, k: Seq<char>) -> Option<V>
    decreases pairs.len(),
{
    if pairs.len() == 0 {
        None
    } else if pairs[pairs.len() - 1].0 == k {
        Some(pairs[pairs.len() - 1].1)
    } else {
        lookup(pairs.subrange(0, pairs.len() - 1), k)
    }
}

/// In a strictly sorted sequence a key is found exactly where it stands.
proof fn lemma_lookup_sorted<V>(o: Seq<(Seq<char>, V)>, k: Seq<char>)
    requires
        strictly_sorted(o),
    ensures
        (forall|i: int| 0 <= i < o.len() ==> o[i].0 != k) ==> lookup(o, k) is None,
        forall|i: int| 0 <= i < o.len() && o[i].0 == k ==> lookup(o, k) == Some(o[i].1),
    decreases o.len(),
{
    if o.len() > 0 {
        let n = o.len() - 1;
        let init = o.subrange(0, n);
        assert(strictly_sorted(init));
        lemma_lookup_sorted(init, k);
        assert forall|i: int| 0 <= i < o.len() && o[i].0 == k implies lookup(o, k) == Some(o[i].1) by {
            if i < n {
                if o[n].0 == k {
                    lemma_key_lt_irreflexive(k);
                }
                assert(init[i] == o[i]);
            }
        }
    }
}

/// Inserting `(k0, v0)` gives `k0` the value `v0` and leaves every other key
/// as it was.
proof fn lemma_lookup_insert<V>(o: Seq<(Seq<char>, V)>, k0: Seq<char>, v0: V, k: Seq<char>)
    requires
        strictly_sorted(o),
    ensures
        lookup(insert_entry(o, k0, v0), k) == if k == k0 {
            Some(v0)
        } else {
            lookup(o, k)
        },
{
    let r = insert_entry(o, k0, v0);
    let i = lower_bound(o, k0) as int;
    lemma_lower_bound_props(o, k0);
    lemma_insert_entry_sorted(o, k0, v0);
    lemma_lookup_sorted(r, k);
    lemma_lookup_sorted(o, k);
    let replaced = i < o.len() && o[i].0 == k0;
    if k == k0 {
        assert(r[i] == (k0, v0));
    } else if exists|j: int| 0 <= j < o.len() && o[j].0 == k {
        let j = choose|j: int| 0 <= j < o.len() && o[j].0 == k;
        if replaced || j < i {
            assert(r[j] == o[j]);
        } else {
            assert(r[j + 1] == o[j]);
        }
    } else {
        assert forall|j: int| 0 <= j < r.len() implies r[j].0 != k by {
            if replaced {
                if j != i {
                    assert(r[j] == o[j]);
                }
            } else if j < i {
                assert(r[j] == o[j]);
            } else if j > i {
                assert(r[j] == o[j - 1]);
            }
        }
    }
}

/// Building entries in key order keeps what each key maps to.
pub proof fn lemma_lookup_sorted_entries<V>(pairs: Seq<(Seq<char>, V)>, k: Seq<char>)
    ensures
        lookup(sorted_entries(pairs), k) == lookup(pairs, k),
    decreases pairs.len(),
{
    reveal(sorted_entries);
    if pairs.len() > 0 {
        let init = pairs.subrange(0, pairs.len() - 1);
        let last = pairs[pairs.len() - 1];
        lemma_lookup_sorted_entries(init, k);
        lemma_sorted_entries_sorted(init);
        lemma_lookup_insert(sorted_entries(init), last.0, last.1, k);
    }
}

/// Two strictly sorted sequences that map every key alike are equal.
proof fn lemma_sorted_unique<V>(o1: Seq<(Seq<char>, V)>, o2: Seq<(Seq<char>, V)>)
    requires
        strictly_sorted(o1),
        strictly_sorted(o2),
        forall|k: Seq<char>| lookup(o1, k) == lookup(o2, k),
    ensures
        o1 == o2,
    decreases o1.len() + o2.len(),
{
    if o1.len() == 0 && o2.len() == 0 {
        assert(o1 =~= o2);
    } else if o1.len() == 0 {
        let k = o2[o2.len() - 1].0;
        assert(lookup(o2, k) is Some);
        assert(lookup(o1, k) is None);
    } else if o2.len() == 0 {
        let k = o1[o1.len() - 1].0;
        assert(lookup(o1, k) is Some);
        assert(lookup(o2, k) is None);
    } else {
        let n1 = o1.len() - 1;
        let n2 = o2.len() - 1;
        let k1 = o1[n1].0;
        let k2 = o2[n2].0;
        lemma_lookup_sorted(o1, k1);
        lemma_lookup_sorted(o1, k2);
        lemma_lookup_sorted(o2, k1);
        lemma_lookup_sorted(o2, k2);
        assert(lookup(o1, k1) == Some(o1[n1].1));
        assert(lookup(o2, k2) == Some(o2[n2].1));
        if k1 != k2 {
            // k2 stands somewhere in o1, so it comes before k1 ...
            assert(exists|i: int| 0 <= i < o1.len() && o1[i].0 == k2);
            let i = choose|i: int| 0 <= i < o1.len() && o1[i].0 == k2;
            assert(i < n1);
            assert(key_lt(k2, k1));
            // ... and k1 stands somewhere in o2, so it comes before k2.
            assert(exists|j: int| 0 <= j < o2.len() && o2[j].0 == k1);
            let j = choose|j: int| 0 <= j < o2.len() && o2[j].0 == k1;
            assert(j < n2);
            assert(key_lt(k1, k2));
            lemma_key_lt_total(k1, k2);
        }
        let i1 = o1.subrange(0, n1);
        let i2 = o2.subrange(0, n2);
        assert(strictly_sorted(i1));
        assert(strictly_sorted(i2));
        lemma_lookup_sorted(i1, k1);
        lemma_lookup_sorted(i2, k1);
        assert forall|i: int| 0 <= i < i1.len() implies i1[i].0 != k1 by {
            lemma_key_lt_irreflexive(k1);
            assert(key_lt(o1[i].0, o1[n1].0));
        }
        assert forall|i: int| 0 <= i < i2.len() implies i2[i].0 != k1 by {
            lemma_key_lt_irreflexive(k1);
            assert(key_lt(o2[i].0, o2[n2].0));
        }
        assert forall|k: Seq<char>| lookup(i1, k) == lookup(i2, k) by {
            if k != k1 {
                assert(lookup(o1, k) == lookup(i1, k));
                assert(lookup(o2, k) == lookup(i2, k));
            }
        }
        lemma_sorted_unique(i1, i2);
        assert(lookup(o2, k1) == Some(o2[n2].1));
        assert(o1[n1] == o2[n2]);
        assert(o1 =~= i1.push(o1[n1]));
        assert(o2 =~= i2.push(o2[n2]));
    }
}

/// Two lists of pairs that map every key alike (a later pair winning over
/// an earlier one) give the same entries, whatever order the pairs came in.
pub proof fn lemma_sorted_entries_canonical<V>(a: Seq<(Seq<char>, V)>, b: Seq<(Seq<char>, V)>)
    requires
        forall|k: Seq<char>| lookup(a, k) == lookup(b, k),
    ensures
        sorted_entries(a) == sorted_entries(b),
{
    lemma_sorted_entries_sorted(a);
    lemma_sorted_entries_sorted(b);
    assert forall|k: Seq<char>| lookup(sorted_entries(a), k) == lookup(sorted_entries(b), k) by {
        lemma_lookup_sorted_entries(a, k);
        lemma_lookup_sorted_entries(b, k);
    }
    lemma_sorted_unique(sorted_entries(a), sorted_entries(b));
}

/// The logical content of each entry of `s`, a key and an encoded value.
pub open spec fn keyed_bytes_view(s: Seq<(String, Vec<u8>)>) -> Seq<(Seq<char>, Seq<u8>)> {
    Seq::new(s.len(), |j: int| (s[j].0@, s[j].1@))
}

/// Stores `(k, b)` at its place in key order, replacing an entry with the
/// same key.
pub(crate) fn insert_sorted_bytes(entries: &mut Vec<(String, Vec<u8>)>, k: String, b: Vec<u8>)
    ensures
        keyed_bytes_view(final(entries)@) == insert_entry(keyed_bytes_view(old(entries)@), k@, b@),
{
    let ghost o = keyed_bytes_view(entries@);
    let mut i: usize = 0;
    while i < entries.len() && compare_keys(entries[i].0.as_str(), k.as_str()) < 0
        invariant
            i <= entries@.len(),
            o == keyed_bytes_view(entries@),
            forall|j: int| 0 <= j < i ==> key_lt(#[trigger] o[j].0, k@),
        decreases entries@.len() - i,
    {
        i = i + 1;
    }
    proof {
        lemma_lower_bound_at(o, k@, i as int);
    }
    let ghost kv = k@;
    let ghost bv = b@;
    if i < entries.len() && compare_keys(entries[i].0.as_str(), k.as_str()) == 0 {
        let _ = entries.remove(i);
        entries.insert(i, (k, b));
        proof {
            assert(keyed_bytes_view(entries@) =~= o.update(i as int, (kv, bv)));
        }
    } else {
        entries.insert(i, (k, b));
        proof {
            assert(keyed_bytes_view(entries@) =~= o.insert(i as int, (kv, bv)));
        }
    }
}

/// Stores `(k, v)` at its place in key order, replacing an entry with the
/// same key.
pub(crate) fn insert_sorted(entries: &mut Vec<(String, Ipld)>, k: String, v: Ipld)
    ensures
        entries_view(final(entries)@) == insert_entry(entries_view(old(entries)@), k@, v@),
{
    let ghost o = entries_view(entries@);
    proof {
        lemma_entries_view(entries@);
    }
    let mut i: usize = 0;
    while i < entries.len() && compare_keys(entries[i].0.as_str(), k.as_str()) < 0
        invariant
            i <= entries@.len(),
            o == entries_view(entries@),
            o.len() == entries@.len(),
            forall|j: int| 0 <= j < o.len() ==> #[trigger] o[j] == (entries@[j].0@, ipld_view(entries@[j].1)),
            forall|j: int| 0 <= j < i ==> key_lt(#[trigger] o[j].0, k@),
        decreases entries@.len() - i,
    {
        i = i + 1;
    }
    proof {
        lemma_lower_bound_at(o, k@, i as int);
    }
    let ghost kv = k@;
    let ghost vv = v@;
    if i < entries.len() && compare_keys(entries[i].0.as_str(), k.as_str()) == 0 {
        let _ = entries.remove(i);
        entries.insert(i, (k, v));
        proof {
            lemma_entries_view(entries@);
            assert(entries_view(entries@) =~= o.update(i as int, (kv, vv)));
        }
    } else {
        entries.insert(i, (k, v));
        proof {
            lemma_entries_view(entries@);
            assert(entries_view(entries@) =~= o.insert(i as int, (kv, vv)));
        }
    }
}

impl Clone for Ipld {
    fn clone(&self) -> (r: Ipld)
        ensures
            r@ == self@,
    {
        self.duplicate()
    }
}

impl Ipld {
    /// An object from `(key, value)` pairs: entries in key order, a later
    /// pair winning over an earlier one with the same key.
    pub fn to_object(obs: Vec<(String, Ipld)>) -> (r: Ipld)
        ensures
            r@ == IpldView::Object(sorted_entries(entries_view(obs@))),
    {
        let ghost all = entries_view(obs@);
        let ghost n = obs@.len();
        proof {
            lemma_entries_view(obs@);
        }
        let mut obs = obs;
        let mut res: Vec<(String, Ipld)> = Vec::new();
        proof {
            reveal(sorted_entries);
            assert(all.subrange(0, 0) =~= Seq::<(Seq<char>, IpldView)>::empty());
            assert(entries_view(res@) =~= Seq::<(Seq<char>, IpldView)>::empty());
        }
        while obs.len() > 0
            invariant
                n == all.len(),
                obs@.len() <= n,
                forall|j: int| 0 <= j < obs@.len() ==> all[n - obs@.len() + j] == (#[trigger] obs@[j].0@, ipld_view(obs@[j].1)),
                entries_view(res@) == sorted_entries(all.subrange(0, n - obs@.len())),
            decreases obs@.len(),
        {
            let ghost done = n - obs@.len();
            let ghost old_obs = obs@;
            let (k, v) = obs.remove(0);
            proof {
                reveal(sorted_entries);
                assert(old_obs[0].0@ == k@);
                assert(all[done] == (k@, v@));
                let pre = all.subrange(0, done + 1);
                assert(pre.subrange(0, pre.len() - 1) =~= all.subrange(0, done));
                assert forall|j: int| 0 <= j < obs@.len() implies all[n - obs@.len() + j] == (#[trigger] obs@[j].0@, ipld_view(obs@[j].1)) by {
                    assert(obs@[j] == old_obs[j + 1]);
                    assert(old_obs[j + 1].0@ == obs@[j].0@);
                }
            }
            insert_sorted(&mut res, k, v);
        }
        proof {
            assert(all.subrange(0, n as int) =~= all);
        }
        Ipld::Object(res)
    }

    /// A copy with the same logical content.
    #[verifier::loop_isolation(false)]
    pub fn duplicate(&self) -> (r: Ipld)
        ensures
            r@ == self@,
        decreases self,
    {
        match self {
            Ipld::Null => Ipld::Null,
            Ipld::Bool(b) => Ipld::Bool(*b),
            Ipld::Number(n) => Ipld::Number(*n),
            Ipld::String(s) => Ipld::String(s.clone()),
            Ipld::Bytes(b) => Ipld::Bytes(b.clone()),
            Ipld::Array(a) => {
                let mut out: Vec<Ipld> = Vec::new();
                let mut i: usize = 0;
                proof {
                    lemma_array_view(a@);
                }
                while i < a.len()
                    invariant
                        i <= a@.len(),
                        out@.len() == i,
                        forall|j: int| 0 <= j < i ==> #[trigger] ipld_view(out@[j]) == ipld_view(a@[j]),
                    decreases a@.len() - i,
                {
                    proof {
                        assert(decreases_to!(*a => a[i as int]));
                    }
                    let x = a[i].duplicate();
                    out.push(x);
                    i = i + 1;
                }
                proof {
                    lemma_array_view(out@);
                    assert(array_view(out@) =~= array_view(a@));
                }
                Ipld::Array(out)
            },
            Ipld::Object(o) => {
                let mut out: Vec<(String, Ipld)> = Vec::new();
                let mut i: usize = 0;
                proof {
                    lemma_entries_view(o@);
                }
                while i < o.len()
                    invariant
                        i <= o@.len(),
                        out@.len() == i,
                        forall|j: int| 0 <= j < i ==> (#[trigger] out@[j]).0@ == o@[j].0@,
                        forall|j: int| 0 <= j < i ==> ipld_view((#[trigger] out@[j]).1) == ipld_view(o@[j].1),
                    decreases o@.len() - i,
                {
                    let k = o[i].0.clone();
                    proof {
                        assert(decreases_to!(*o => o[i as int]));
                        assert(decreases_to!(o[i as int] => o[i as int].1));
                    }
                    let x = o[i].1.duplicate();
                    out.push((k, x));
                    i = i + 1;
                }
                proof {
                    lemma_entries_view(out@);
                    assert(entries_view(out@) =~= entries_view(o@));
                }
                Ipld::Object(out)
            },
            Ipld::Link(c) => Ipld::Link(c.duplicate()),
        }
    }
}

} // verus!
