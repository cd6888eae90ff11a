//! From IPLD back to structured values of an expected shape.

use crate::bridge::ser::{encode_pairs, encode_value, encode_values};
use crate::bridge::{
    pairs_view, result_view, signed_max, unsigned_max, values_view, Expected, SerdeError,
    SerdeErrorView, Shape, Value, ValueView, Width,
};
use crate::ipld::{array_view, lemma_array_view, Ipld, IpldView};
use vstd::prelude::*;

verus! {

/// The error for an IPLD value of the wrong kind.
pub open spec fn mismatch(expected: Expected, found: IpldView) -> Result<ValueView, SerdeErrorView> {
    Err(SerdeErrorView::TypeMismatch { expected, found })
}

/// The value of shape `s` that `i` stands for, or why there is none.
///
/// A number fits an integer target only within its range; `Null` is an
/// absent optional; arrays give sequences, tuples and records positionally,
/// map entries from `[key, value]` arrays, and enum variants from an array
/// that starts with the variant's index. Only a `Link` gives a link.
pub open spec fn decode_value(i: IpldView, s: Shape) -> Result<ValueView, SerdeErrorView>
    decreases i, s,
{
    match s {
        Shape::Bool => match i {
            IpldView::Bool(b) => Ok(ValueView::Bool(b)),
            _ => mismatch(Expected::Bool, i),
        },
        Shape::Unsigned(w) => match i {
            IpldView::Number(n) => if n <= unsigned_max(w) {
                Ok(ValueView::Unsigned(n))
            } else {
                Err(SerdeErrorView::IntegerRange { width: w, signed: false })
            },
            _ => mismatch(Expected::Unsigned, i),
        },
        Shape::Signed(w) => match i {
            IpldView::Number(n) => if n <= signed_max(w) {
                Ok(ValueView::Signed(n as i64))
            } else {
                Err(SerdeErrorView::IntegerRange { width: w, signed: true })
            },
            _ => mismatch(Expected::Signed, i),
        },
        Shape::Char => match i {
            IpldView::String(t) => if t.len() == 1 {
                Ok(ValueView::Char(t[0]))
            } else {
                mismatch(Expected::Char, i)
            },
            _ => mismatch(Expected::Char, i),
        },
        Shape::Str => match i {
            IpldView::String(t) => Ok(ValueView::Str(t)),
            _ => mismatch(Expected::Str, i),
        },
        Shape::Bytes => match i {
            IpldView::Bytes(b) => Ok(ValueView::Bytes(b)),
            _ => mismatch(Expected::Bytes, i),
        },
        Shape::Optional(inner) => match i {
            IpldView::Null => Ok(ValueView::Absent),
            _ => match decode_value(i, *inner) {
                Ok(x) => Ok(ValueView::Present(Box::new(x))),
                Err(e) => Err(e),
            },
        },
        Shape::Unit => match i {
            IpldView::Array(a) => if a.len() == 0 {
                Ok(ValueView::Unit)
            } else {
                mismatch(Expected::Unit, i)
            },
            _ => mismatch(Expected::Unit, i),
        },
        Shape::Newtype(inner) => match decode_value(i, *inner) {
            Ok(x) => Ok(ValueView::Newtype(Box::new(x))),
            Err(e) => Err(e),
        },
        Shape::Sequence(elem) => match i {
            IpldView::Array(a) => match decode_all(a, *elem) {
                Ok(xs) => Ok(ValueView::Sequence(xs)),
                Err(e) => Err(e),
            },
            _ => mismatch(Expected::Sequence, i),
        },
        Shape::Tuple(shapes) => match i {
            IpldView::Array(a) => if a.len() == shapes@.len() {
                match decode_each(a, shapes@) {
                    Ok(xs) => Ok(ValueView::Sequence(xs)),
                    Err(e) => Err(e),
                }
            } else {
                mismatch(Expected::Tuple, i)
            },
            _ => mismatch(Expected::Tuple, i),
        },
        Shape::Mapping(k, v) => match i {
            IpldView::Array(a) => match decode_entries(a, *k, *v) {
                Ok(ps) => Ok(ValueView::Mapping(ps)),
                Err(e) => Err(e),
            },
            _ => mismatch(Expected::Mapping, i),
        },
        Shape::Enum(variants) => match i {
            IpldView::Array(a) => if a.len() >= 1 && a[0] is Number && a[0]->Number_0 < variants@.len() {
                let idx = a[0]->Number_0;
                let payload = a.subrange(1, a.len() as int);
                let shapes = variants@[idx as int]@;
                if payload.len() == shapes.len() {
                    match decode_each(payload, shapes) {
                        Ok(xs) => Ok(ValueView::Variant(idx, xs)),
                        Err(e) => Err(e),
                    }
                } else {
                    mismatch(Expected::Enum, i)
                }
            } else {
                mismatch(Expected::Enum, i)
            },
            _ => mismatch(Expected::Enum, i),
        },
        Shape::Link => match i {
            IpldView::Link(c) => Ok(ValueView::Link(c)),
            _ => mismatch(Expected::Link, i),
        },
    }
}

/// Every item of `a` as a value of shape `s`, or the first error.
pub open spec fn decode_all(a: Seq<IpldView>, s: Shape) -> Result<Seq<ValueView>, SerdeErrorView>
    decreases a, s,
{
    if a.len() == 0 {
        Ok(Seq::empty())
    } else {
        match decode_value(a[0], s) {
            Err(e) => Err(e),
            Ok(x) => match decode_all(a.subrange(1, a.len() as int), s) {
                Err(e) => Err(e),
                Ok(rest) => Ok(seq![x] + rest),
            },
        }
    }
}

/// Each item of `a` as a value of the shape at the same position of
/// `shapes`, or the first error.
pub open spec fn decode_each(a: Seq<IpldView>, shapes: Seq<Shape>) -> Result<Seq<ValueView>, SerdeErrorView>
    decreases a,
{
    if a.len() == 0 || shapes.len() == 0 {
        Ok(Seq::empty())
    } else {
        match decode_value(a[0], shapes[0]) {
            Err(e) => Err(e),
            Ok(x) => match decode_each(a.subrange(1, a.len() as int), shapes.subrange(1, shapes.len() as int)) {
                Err(e) => Err(e),
                Ok(rest) => Ok(seq![x] + rest),
            },
        }
    }
}

/// Each item of `a`, a `[key, value]` array, as a pair of values of shapes
/// `k` and `v`, or the first error.
pub open spec fn decode_entries(a: Seq<IpldView>, k: Shape, v: Shape) -> Result<Seq<(ValueView, ValueView)>, SerdeErrorView>
    decreases a,
{
    if a.len() == 0 {
        Ok(Seq::empty())
    } else {
        match a[0] {
            IpldView::Array(p) => if p.len() == 2 {
                match decode_value(p[0], k) {
                    Err(e) => Err(e),
                    Ok(x) => match decode_value(p[1], v) {
                        Err(e) => Err(e),
                        Ok(y) => match decode_entries(a.subrange(1, a.len() as int), k, v) {
                            Err(e) => Err(e),
                            Ok(rest) => Ok(seq![(x, y)] + rest),
                        },
                    },
                }
            } else {
                Err(SerdeErrorView::TypeMismatch { expected: Expected::Mapping, found: a[0] })
            },
            _ => Err(SerdeErrorView::TypeMismatch { expected: Expected::Mapping, found: a[0] }),
        }
    }
}


fn mismatch_error(expected: Expected, found: &Ipld) -> (r: SerdeError)
    ensures
        Err::<ValueView, SerdeErrorView>(r@) == mismatch(expected, found@),
{
    SerdeError::TypeMismatch { expected, found: found.duplicate() }
}

fn unsigned_fits(n: u64, w: Width) -> (r: bool)
    ensures
        r == (n <= unsigned_max(w)),
{
    match w {
        Width::W8 => n <= 0xff,
        Width::W16 => n <= 0xffff,
        Width::W32 => n <= 0xffff_ffff,
        Width::W64 => true,
    }
}

fn signed_fits(n: u64, w: Width) -> (r: bool)
    ensures
        r == (n <= signed_max(w)),
{
    match w {
        Width::W8 => n <= 0x7f,
        Width::W16 => n <= 0x7fff,
        Width::W32 => n <= 0x7fff_ffff,
        Width::W64 => n <= 0x7fff_ffff_ffff_ffff,
    }
}

#[verifier::loop_isolation(false)]
fn decode_list(a: &Vec<Ipld>, s: &Shape) -> (r: Result<Vec<Value>, SerdeError>)
    ensures
        match r {
            Ok(xs) => decode_all(array_view(a@), *s) == Ok::<Seq<ValueView>, SerdeErrorView>(values_view(xs@)),
            Err(e) => decode_all(array_view(a@), *s) == Err::<Seq<ValueView>, SerdeErrorView>(e@),
        },
    decreases a, s,
{
    proof {
        lemma_array_view(a@);
    }
    let ghost all = array_view(a@);
    let ghost n = a@.len() as int;
    let mut out: Vec<Value> = Vec::new();
    let mut j: usize = 0;
    proof {
        assert(all.subrange(0, n) =~= all);
        assert(values_view(out@) + Seq::<ValueView>::empty() =~= Seq::<ValueView>::empty());
        assert forall|rest: Seq<ValueView>| values_view(out@) + rest == rest by {
            assert(values_view(out@) + rest =~= rest);
        }
    }
    while j < a.len()
        invariant
            j <= n,
            decode_all(all, *s) == match decode_all(all.subrange(j as int, n), *s) {
                Ok(rest) => Ok(values_view(out@) + rest),
                Err(e) => Err::<Seq<ValueView>, SerdeErrorView>(e),
            },
        decreases n - j,
    {
        proof {
            assert(decreases_to!(*a => a[j as int]));
            assert(all.subrange(j as int, n).subrange(1, n - j) =~= all.subrange(j + 1, n));
            assert(all.subrange(j as int, n)[0] == a@[j as int]@);
        }
        let x = match decode_ref(&a[j], s) {
            Ok(x) => x,
            Err(e) => return Err(e),
        };
        let ghost old_out = out@;
        let ghost xv = x@;
        out.push(x);
        proof {
            assert(out@.subrange(0, out@.len() - 1) =~= old_out);
            assert(values_view(out@) == values_view(old_out).push(xv));
            assert forall|rest: Seq<ValueView>| values_view(old_out) + (seq![xv] + rest) == #[trigger] (values_view(out@) + rest) by {
                assert(values_view(old_out) + (seq![xv] + rest) =~= values_view(out@) + rest);
            }
        }
        j = j + 1;
    }
    proof {
        assert(all.subrange(n, n) =~= Seq::<IpldView>::empty());
        assert(values_view(out@) + Seq::<ValueView>::empty() =~= values_view(out@));
    }
    Ok(out)
}

#[verifier::loop_isolation(false)]
fn decode_positional(a: &Vec<Ipld>, start: usize, shapes: &Vec<Shape>) -> (r: Result<Vec<Value>, SerdeError>)
    requires
        start <= a@.len(),
        a@.len() - start == shapes@.len(),
    ensures
        match r {
            Ok(xs) => decode_each(array_view(a@).subrange(start as int, a@.len() as int), shapes@)
                == Ok::<Seq<ValueView>, SerdeErrorView>(values_view(xs@)),
            Err(e) => decode_each(array_view(a@).subrange(start as int, a@.len() as int), shapes@)
                == Err::<Seq<ValueView>, SerdeErrorView>(e@),
        },
    decreases a, shapes,
{
    proof {
        lemma_array_view(a@);
    }
    let ghost all = array_view(a@);
    let ghost n = a@.len() as int;
    let ghost m = shapes@.len() as int;
    let mut out: Vec<Value> = Vec::new();
    let mut j: usize = start;
    proof {
        assert(shapes@.subrange(0, m) =~= shapes@);
        assert forall|rest: Seq<ValueView>| values_view(out@) + rest == rest by {
            assert(values_view(out@) + rest =~= rest);
        }
    }
    while j < a.len()
        invariant
            start <= j <= n,
            n - start == m,
            decode_each(all.subrange(start as int, n), shapes@) == match decode_each(all.subrange(j as int, n), shapes@.subrange(j - start, m)) {
                Ok(rest) => Ok(values_view(out@) + rest),
                Err(e) => Err::<Seq<ValueView>, SerdeErrorView>(e),
            },
        decreases n - j,
    {
        proof {
            assert(decreases_to!(*a => a[j as int]));
            assert(all.subrange(j as int, n).subrange(1, n - j) =~= all.subrange(j + 1, n));
            assert(shapes@.subrange(j - start, m).subrange(1, m - (j - start)) =~= shapes@.subrange(j + 1 - start, m));
            assert(all.subrange(j as int, n)[0] == a@[j as int]@);
            assert(shapes@.subrange(j - start, m)[0] == shapes@[j - start]);
        }
        let x = match decode_ref(&a[j], &shapes[j - start]) {
            Ok(x) => x,
            Err(e) => return Err(e),
        };
        let ghost old_out = out@;
        let ghost xv = x@;
        out.push(x);
        proof {
            assert(out@.subrange(0, out@.len() - 1) =~= old_out);
            assert(values_view(out@) == values_view(old_out).push(xv));
            assert forall|rest: Seq<ValueView>| values_view(old_out) + (seq![xv] + rest) == #[trigger] (values_view(out@) + rest) by {
                assert(values_view(old_out) + (seq![xv] + rest) =~= values_view(out@) + rest);
            }
        }
        j = j + 1;
    }
    proof {
        assert(all.subrange(n, n) =~= Seq::<IpldView>::empty());
        assert(values_view(out@) + Seq::<ValueView>::empty() =~= values_view(out@));
    }
    Ok(out)
}

#[verifier::loop_isolation(false)]
fn decode_pairs(a: &Vec<Ipld>, k: &Shape, v: &Shape) -> (r: Result<Vec<(Value, Value)>, SerdeError>)
    ensures
        match r {
            Ok(ps) => decode_entries(array_view(a@), *k, *v) == Ok::<Seq<(ValueView, ValueView)>, SerdeErrorView>(pairs_view(ps@)),
            Err(e) => decode_entries(array_view(a@), *k, *v) == Err::<Seq<(ValueView, ValueView)>, SerdeErrorView>(e@),
        },
    decreases a, k,
{
    proof {
        lemma_array_view(a@);
    }
    let ghost all = array_view(a@);
    let ghost n = a@.len() as int;
    let mut out: Vec<(Value, Value)> = Vec::new();
    let mut j: usize = 0;
    proof {
        assert(all.subrange(0, n) =~= all);
        assert forall|rest: Seq<(ValueView, ValueView)>| pairs_view(out@) + rest == rest by {
            assert(pairs_view(out@) + rest =~= rest);
        }
    }
    while j < a.len()
        invariant
            j <= n,
            decode_entries(all, *k, *v) == match decode_entries(all.subrange(j as int, n), *k, *v) {
                Ok(rest) => Ok(pairs_view(out@) + rest),
                Err(e) => Err::<Seq<(ValueView, ValueView)>, SerdeErrorView>(e),
            },
        decreases n - j,
    {
        proof {
            assert(decreases_to!(*a => a[j as int]));
            assert(all.subrange(j as int, n).subrange(1, n - j) =~= all.subrange(j + 1, n));
            assert(all.subrange(j as int, n)[0] == a@[j as int]@);
        }
        let (x, y) = match &a[j] {
            Ipld::Array(p) => {
                proof {
                    lemma_array_view(p@);
                }
                if p.len() != 2 {
                    return Err(mismatch_error(Expected::Mapping, &a[j]));
                }
                proof {
                    assert(decreases_to!(a[j as int] => *p));
                    assert(decreases_to!(*p => p[0]));
                    assert(decreases_to!(*p => p[1]));
                }
                let x = match decode_ref(&p[0], k) {
                    Ok(x) => x,
                    Err(e) => return Err(e),
                };
                let y = match decode_ref(&p[1], v) {
                    Ok(y) => y,
                    Err(e) => return Err(e),
                };
                (x, y)
            },
            _ => return Err(mismatch_error(Expected::Mapping, &a[j])),
        };
        let ghost old_out = out@;
        let ghost pv = (x@, y@);
        out.push((x, y));
        proof {
            assert(out@.subrange(0, out@.len() - 1) =~= old_out);
            assert(pairs_view(out@) == pairs_view(old_out).push(pv));
            assert forall|rest: Seq<(ValueView, ValueView)>| pairs_view(old_out) + (seq![pv] + rest) == #[trigger] (pairs_view(out@) + rest) by {
                assert(pairs_view(old_out) + (seq![pv] + rest) =~= pairs_view(out@) + rest);
            }
        }
        j = j + 1;
    }
    proof {
        assert(all.subrange(n, n) =~= Seq::<IpldView>::empty());
        assert(pairs_view(out@) + Seq::<(ValueView, ValueView)>::empty() =~= pairs_view(out@));
    }
    Ok(out)
}

fn decode_ref(i: &Ipld, s: &Shape) -> (r: Result<Value, SerdeError>)
    ensures
        result_view(r) == decode_value(i@, *s),
    decreases i, s,
{
    match s {
        Shape::Bool => match i {
            Ipld::Bool(b) => Ok(Value::Bool(*b)),
            _ => Err(mismatch_error(Expected::Bool, i)),
        },
        Shape::Unsigned(w) => match i {
            Ipld::Number(n) => if unsigned_fits(*n, *w) {
                Ok(Value::Unsigned(*n))
            } else {
                Err(SerdeError::IntegerRange { width: *w, signed: false })
            },
            _ => Err(mismatch_error(Expected::Unsigned, i)),
        },
        Shape::Signed(w) => match i {
            Ipld::Number(n) => if signed_fits(*n, *w) {
                Ok(Value::Signed(*n as i64))
            } else {
                Err(SerdeError::IntegerRange { width: *w, signed: true })
            },
            _ => Err(mismatch_error(Expected::Signed, i)),
        },
        Shape::Char => match i {
            Ipld::String(t) => if t.as_str().unicode_len() == 1 {
                Ok(Value::Char(t.as_str().get_char(0)))
            } else {
                Err(mismatch_error(Expected::Char, i))
            },
            _ => Err(mismatch_error(Expected::Char, i)),
        },
        Shape::Str => match i {
            Ipld::String(t) => Ok(Value::Str(t.clone())),
            _ => Err(mismatch_error(Expected::Str, i)),
        },
        Shape::Bytes => match i {
            Ipld::Bytes(b) => Ok(Value::Bytes(b.clone())),
            _ => Err(mismatch_error(Expected::Bytes, i)),
        },
        Shape::Optional(inner) => match i {
            Ipld::Null => Ok(Value::Absent),
            _ => match decode_ref(i, inner) {
                Ok(x) => Ok(Value::Present(Box::new(x))),
                Err(e) => Err(e),
            },
        },
        Shape::Unit => match i {
            Ipld::Array(a) => if a.len() == 0 {
                Ok(Value::Unit)
            } else {
                Err(mismatch_error(Expected::Unit, i))
            },
            _ => Err(mismatch_error(Expected::Unit, i)),
        },
        Shape::Newtype(inner) => match decode_ref(i, inner) {
            Ok(x) => Ok(Value::Newtype(Box::new(x))),
            Err(e) => Err(e),
        },
        Shape::Sequence(elem) => match i {
            Ipld::Array(a) => match decode_list(a, elem) {
                Ok(xs) => Ok(Value::Sequence(xs)),
                Err(e) => Err(e),
            },
            _ => Err(mismatch_error(Expected::Sequence, i)),
        },
        Shape::Tuple(shapes) => match i {
            Ipld::Array(a) => {
                proof {
                    lemma_array_view(a@);
                    assert(array_view(a@).subrange(0, a@.len() as int) =~= array_view(a@));
                }
                if a.len() == shapes.len() {
                    match decode_positional(a, 0, shapes) {
                        Ok(xs) => Ok(Value::Sequence(xs)),
                        Err(e) => Err(e),
                    }
                } else {
                    Err(mismatch_error(Expected::Tuple, i))
                }
            },
            _ => Err(mismatch_error(Expected::Tuple, i)),
        },
        Shape::Mapping(k, v) => match i {
            Ipld::Array(a) => match decode_pairs(a, k, v) {
                Ok(ps) => Ok(Value::Mapping(ps)),
                Err(e) => Err(e),
            },
            _ => Err(mismatch_error(Expected::Mapping, i)),
        },
        Shape::Enum(variants) => match i {
            Ipld::Array(a) => {
                proof {
                    lemma_array_view(a@);
                }
                if a.len() >= 1 {
                    match &a[0] {
                        Ipld::Number(idx) => {
                            if *idx < variants.len() as u64 && a.len() - 1 == variants[*idx as usize].len() {
                                match decode_positional(a, 1, &variants[*idx as usize]) {
                                    Ok(xs) => Ok(Value::Variant(*idx, xs)),
                                    Err(e) => Err(e),
                                }
                            } else {
                                Err(mismatch_error(Expected::Enum, i))
                            }
                        },
                        _ => Err(mismatch_error(Expected::Enum, i)),
                    }
                } else {
                    Err(mismatch_error(Expected::Enum, i))
                }
            },
            _ => Err(mismatch_error(Expected::Enum, i)),
        },
        Shape::Link => match i {
            Ipld::Link(c) => Ok(Value::Link(c.duplicate())),
            _ => Err(mismatch_error(Expected::Link, i)),
        },
    }
}

/// The items of `v`, an array of exactly `len` items; otherwise a type
/// mismatch against `expected`.
pub fn tuple_items(v: Ipld, len: u64, expected: Expected) -> (r: Result<Vec<Ipld>, SerdeError>)
    ensures
        match r {
            Ok(items) => v@ is Array && v@->Array_0.len() == len && array_view(items@) == v@->Array_0,
            Err(e) => !(v@ is Array && v@->Array_0.len() == len) && Err::<ValueView, SerdeErrorView>(e@)
                == mismatch(expected, v@),
        },
{
    match v {
        Ipld::Array(a) => {
            proof {
                lemma_array_view(a@);
            }
            if a.len() as u64 == len {
                Ok(a)
            } else {
                Err(SerdeError::TypeMismatch { expected, found: Ipld::Array(a) })
            }
        },
        other => Err(SerdeError::TypeMismatch { expected, found: other }),
    }
}

/// The items of `v`, an array of any length; otherwise a type mismatch
/// against `expected`.
pub fn sequence_items(v: Ipld, expected: Expected) -> (r: Result<Vec<Ipld>, SerdeError>)
    ensures
        match r {
            Ok(items) => v@ is Array && array_view(items@) == v@->Array_0,
            Err(e) => !(v@ is Array) && Err::<ValueView, SerdeErrorView>(e@) == mismatch(expected, v@),
        },
{
    match v {
        Ipld::Array(a) => Ok(a),
        other => Err(SerdeError::TypeMismatch { expected, found: other }),
    }
}

/// The key and the value of a map entry, a two-item array; otherwise a type
/// mismatch.
pub fn map_pair(v: Ipld) -> (r: Result<(Ipld, Ipld), SerdeError>)
    ensures
        match r {
            Ok((k, x)) => v@ is Array && v@->Array_0 == seq![k@, x@],
            Err(e) => !(v@ is Array && v@->Array_0.len() == 2) && Err::<ValueView, SerdeErrorView>(e@)
                == mismatch(Expected::Mapping, v@),
        },
{
    match v {
        Ipld::Array(a) => {
            proof {
                lemma_array_view(a@);
            }
            if a.len() != 2 {
                return Err(SerdeError::TypeMismatch { expected: Expected::Mapping, found: Ipld::Array(a) });
            }
            let ghost whole = array_view(a@);
            let mut a = a;
            let x = a.remove(1);
            let k = a.remove(0);
            proof {
                assert(whole =~= seq![k@, x@]);
            }
            Ok((k, x))
        },
        other => Err(SerdeError::TypeMismatch { expected: Expected::Mapping, found: other }),
    }
}

/// `a` starts with the index of one of `n` variants.
pub open spec fn variant_head(a: Seq<IpldView>, n: u64) -> bool {
    a.len() >= 1 && a[0] is Number && a[0]->Number_0 < n
}

/// The variant index and the payload of `v`, an array that starts with the
/// index of one of `n_variants` variants; otherwise a type mismatch.
pub fn split_variant(v: Ipld, n_variants: u64) -> (r: Result<(u64, Vec<Ipld>), SerdeError>)
    ensures
        match r {
            Ok((idx, payload)) => v@ is Array && variant_head(v@->Array_0, n_variants)
                && v@->Array_0[0] == IpldView::Number(idx)
                && array_view(payload@) == v@->Array_0.subrange(1, v@->Array_0.len() as int),
            Err(e) => !(v@ is Array && variant_head(v@->Array_0, n_variants))
                && Err::<ValueView, SerdeErrorView>(e@) == mismatch(Expected::Enum, v@),
        },
{
    match v {
        Ipld::Array(a) => {
            proof {
                lemma_array_view(a@);
            }
            if a.len() == 0 {
                return Err(SerdeError::TypeMismatch { expected: Expected::Enum, found: Ipld::Array(a) });
            }
            let idx = match &a[0] {
                Ipld::Number(n) => *n,
                _ => {
                    return Err(SerdeError::TypeMismatch { expected: Expected::Enum, found: Ipld::Array(a) });
                },
            };
            if idx >= n_variants {
                return Err(SerdeError::TypeMismatch { expected: Expected::Enum, found: Ipld::Array(a) });
            }
            let ghost whole = array_view(a@);
            let mut a = a;
            let _ = a.remove(0);
            proof {
                lemma_array_view(a@);
                assert(array_view(a@) =~= whole.subrange(1, whole.len() as int));
            }
            Ok((idx, a))
        },
        other => Err(SerdeError::TypeMismatch { expected: Expected::Enum, found: other }),
    }
}

/// The value of shape `shape` that `value` stands for, or why there is
/// none.
pub fn from_ipld(value: Ipld, shape: &Shape) -> (r: Result<Value, SerdeError>)
    ensures
        result_view(r) == decode_value(value@, *shape),
{
    decode_ref(&value, shape)
}


/// `v` is an optional's content that the IPLD form would not tell apart from
/// an absent value.
pub open spec fn encodes_to_null(v: ValueView) -> bool
    decreases v,
{
    match v {
        ValueView::Absent => true,
        ValueView::Present(x) => encodes_to_null(*x),
        ValueView::Newtype(x) => encodes_to_null(*x),
        _ => false,
    }
}

/// `v` is a value of shape `s` that has an IPLD form: integers within the
/// target's range, no signed integers, and no optional whose content itself
/// reads as absent.
pub open spec fn conforms(v: ValueView, s: Shape) -> bool
    decreases v, s,
{
    match s {
        Shape::Bool => v is Bool,
        Shape::Unsigned(w) => v is Unsigned && v->Unsigned_0 <= unsigned_max(w),
        Shape::Signed(_) => false,
        Shape::Char => v is Char,
        Shape::Str => v is Str,
        Shape::Bytes => v is Bytes,
        Shape::Optional(inner) => match v {
            ValueView::Absent => true,
            ValueView::Present(x) => conforms(*x, *inner) && !encodes_to_null(*x),
            _ => false,
        },
        Shape::Unit => v is Unit,
        Shape::Newtype(inner) => match v {
            ValueView::Newtype(x) => conforms(*x, *inner),
            _ => false,
        },
        Shape::Sequence(elem) => match v {
            ValueView::Sequence(xs) => all_conform(xs, *elem),
            _ => false,
        },
        Shape::Tuple(shapes) => match v {
            ValueView::Sequence(xs) => xs.len() == shapes@.len() && each_conforms(xs, shapes@),
            _ => false,
        },
        Shape::Mapping(k, w) => match v {
            ValueView::Mapping(ps) => pairs_conform(ps, *k, *w),
            _ => false,
        },
        Shape::Enum(variants) => match v {
            ValueView::Variant(i, xs) => i < variants@.len() && xs.len() == variants@[i as int]@.len()
                && each_conforms(xs, variants@[i as int]@),
            _ => false,
        },
        Shape::Link => v is Link,
    }
}

/// Every value of `xs` conforms to `s`.
pub open spec fn all_conform(xs: Seq<ValueView>, s: Shape) -> bool
    decreases xs, s,
{
    xs.len() == 0 || (conforms(xs[0], s) && all_conform(xs.subrange(1, xs.len() as int), s))
}

/// Every value of `xs` conforms to the shape at its position in `shapes`.
pub open spec fn each_conforms(xs: Seq<ValueView>, shapes: Seq<Shape>) -> bool
    decreases xs,
{
    xs.len() == 0 || (shapes.len() > 0 && conforms(xs[0], shapes[0]) && each_conforms(
        xs.subrange(1, xs.len() as int),
        shapes.subrange(1, shapes.len() as int),
    ))
}

/// Every key of `ps` conforms to `k` and every value to `v`.
pub open spec fn pairs_conform(ps: Seq<(ValueView, ValueView)>, k: Shape, v: Shape) -> bool
    decreases ps,
{
    ps.len() == 0 || (conforms(ps[0].0, k) && conforms(ps[0].1, v) && pairs_conform(
        ps.subrange(1, ps.len() as int),
        k,
        v,
    ))
}

proof fn lemma_null_form(v: ValueView)
    ensures
        encode_value(v) == Ok::<IpldView, SerdeErrorView>(IpldView::Null) ==> encodes_to_null(v),
    decreases v,
{
    match v {
        ValueView::Present(x) => lemma_null_form(*x),
        ValueView::Newtype(x) => lemma_null_form(*x),
        ValueView::Sequence(xs) => {},
        ValueView::Mapping(ps) => {},
        ValueView::Variant(i, xs) => {},
        _ => {},
    }
}

proof fn lemma_value_round_trip(v: ValueView, s: Shape)
    requires
        conforms(v, s),
    ensures
        encode_value(v) is Ok,
        decode_value(encode_value(v)->Ok_0, s) == Ok::<ValueView, SerdeErrorView>(v),
    decreases v, s,
{
    match s {
        Shape::Optional(inner) => {
            if let ValueView::Present(x) = v {
                lemma_value_round_trip(*x, *inner);
                lemma_null_form(*x);
            }
        },
        Shape::Newtype(inner) => {
            if let ValueView::Newtype(x) = v {
                lemma_value_round_trip(*x, *inner);
            }
        },
        Shape::Sequence(elem) => {
            if let ValueView::Sequence(xs) = v {
                lemma_all_round_trip(xs, *elem);
            }
        },
        Shape::Tuple(shapes) => {
            if let ValueView::Sequence(xs) = v {
                lemma_each_round_trip(xs, shapes@);
            }
        },
        Shape::Mapping(k, w) => {
            if let ValueView::Mapping(ps) = v {
                lemma_pairs_round_trip(ps, *k, *w);
            }
        },
        Shape::Enum(variants) => {
            if let ValueView::Variant(i, xs) = v {
                lemma_each_round_trip(xs, variants@[i as int]@);
                let items = encode_values(xs)->Ok_0;
                let a = seq![IpldView::Number(i)] + items;
                assert(a.subrange(1, a.len() as int) =~= items);
            }
        },
        Shape::Char => {
            if let ValueView::Char(c) = v {
                assert(seq![c][0] == c);
            }
        },
        _ => {},
    }
}

proof fn lemma_all_round_trip(xs: Seq<ValueView>, s: Shape)
    requires
        all_conform(xs, s),
    ensures
        encode_values(xs) is Ok,
        encode_values(xs)->Ok_0.len() == xs.len(),
        decode_all(encode_values(xs)->Ok_0, s) == Ok::<Seq<ValueView>, SerdeErrorView>(xs),
    decreases xs, s,
{
    if xs.len() > 0 {
        let t = xs.subrange(1, xs.len() as int);
        lemma_value_round_trip(xs[0], s);
        lemma_all_round_trip(t, s);
        let items = encode_values(xs)->Ok_0;
        assert(items.subrange(1, items.len() as int) =~= encode_values(t)->Ok_0);
        assert(seq![xs[0]] + t =~= xs);
    } else {
        assert(xs =~= Seq::<ValueView>::empty());
    }
}

proof fn lemma_each_round_trip(xs: Seq<ValueView>, shapes: Seq<Shape>)
    requires
        xs.len() == shapes.len(),
        each_conforms(xs, shapes),
    ensures
        encode_values(xs) is Ok,
        encode_values(xs)->Ok_0.len() == xs.len(),
        decode_each(encode_values(xs)->Ok_0, shapes) == Ok::<Seq<ValueView>, SerdeErrorView>(xs),
    decreases xs,
{
    if xs.len() > 0 {
        let t = xs.subrange(1, xs.len() as int);
        lemma_value_round_trip(xs[0], shapes[0]);
        lemma_each_round_trip(t, shapes.subrange(1, shapes.len() as int));
        let items = encode_values(xs)->Ok_0;
        assert(items.subrange(1, items.len() as int) =~= encode_values(t)->Ok_0);
        assert(seq![xs[0]] + t =~= xs);
    } else {
        assert(xs =~= Seq::<ValueView>::empty());
    }
}

proof fn lemma_pairs_round_trip(ps: Seq<(ValueView, ValueView)>, k: Shape, w: Shape)
    requires
        pairs_conform(ps, k, w),
    ensures
        encode_pairs(ps) is Ok,
        encode_pairs(ps)->Ok_0.len() == ps.len(),
        decode_entries(encode_pairs(ps)->Ok_0, k, w) == Ok::<Seq<(ValueView, ValueView)>, SerdeErrorView>(ps),
    decreases ps,
{
    if ps.len() > 0 {
        let t = ps.subrange(1, ps.len() as int);
        lemma_value_round_trip(ps[0].0, k);
        lemma_value_round_trip(ps[0].1, w);
        lemma_pairs_round_trip(t, k, w);
        let items = encode_pairs(ps)->Ok_0;
        let kv = seq![encode_value(ps[0].0)->Ok_0, encode_value(ps[0].1)->Ok_0];
        assert(kv[0] == encode_value(ps[0].0)->Ok_0);
        assert(kv[1] == encode_value(ps[0].1)->Ok_0);
        assert(items.subrange(1, items.len() as int) =~= encode_pairs(t)->Ok_0);
        assert(seq![(ps[0].0, ps[0].1)] + t =~= ps);
    } else {
        assert(ps =~= Seq::<(ValueView, ValueView)>::empty());
    }
}

/// Every value that conforms to a shape crosses the bridge and comes back
/// unchanged: `to_ipld` succeeds on it, and `from_ipld` with that shape
/// gives it back.
pub proof fn lemma_bridge_round_trip(v: ValueView, s: Shape)
    requires
        conforms(v, s),
    ensures
        encode_value(v) is Ok,
        decode_value(encode_value(v)->Ok_0, s) == Ok::<ValueView, SerdeErrorView>(v),
{
    lemma_value_round_trip(v, s);
}

} // verus!
