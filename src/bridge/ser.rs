//! From structured values to IPLD.

use crate::bridge::{
    lemma_pairs_view, lemma_values_view, pairs_view, result_view, value_view, values_view,
    SerdeError, SerdeErrorView, Value, ValueView,
};
use crate::ipld::{array_view, ipld_view, lemma_array_view, Ipld, IpldView};
use vstd::prelude::*;

verus! {

/// The IPLD form of `v`: records, tuples and sequences become arrays,
/// options their content or `Null`, map entries `[key, value]` arrays, and a
/// variant an array of its index followed by its payload. Signed integers
/// have no IPLD form.
pub open spec fn encode_value(v: ValueView) -> Result<IpldView, SerdeErrorView>
    decreases v,
{
    match v {
        ValueView::Bool(b) => Ok(IpldView::Bool(b)),
        ValueView::Unsigned(n) => Ok(IpldView::Number(n)),
        ValueView::Signed(_) => Err(SerdeErrorView::Unsupported),
        ValueView::Char(c) => Ok(IpldView::String(seq![c])),
        ValueView::Str(t) => Ok(IpldView::String(t)),
        ValueView::Bytes(b) => Ok(IpldView::Bytes(b)),
        ValueView::Absent => Ok(IpldView::Null),
        ValueView::Present(x) => encode_value(*x),
        ValueView::Unit => Ok(IpldView::Array(Seq::empty())),
        ValueView::Newtype(x) => encode_value(*x),
        ValueView::Sequence(xs) => match encode_values(xs) {
            Ok(items) => Ok(IpldView::Array(items)),
            Err(e) => Err(e),
        },
        ValueView::Mapping(ps) => match encode_pairs(ps) {
            Ok(items) => Ok(IpldView::Array(items)),
            Err(e) => Err(e),
        },
        ValueView::Variant(i, xs) => match encode_values(xs) {
            Ok(items) => Ok(IpldView::Array(seq![IpldView::Number(i)] + items)),
            Err(e) => Err(e),
        },
        ValueView::Link(c) => Ok(IpldView::Link(c)),
    }
}

/// The IPLD forms of the values of `xs`, or the first error.
pub open spec fn encode_values(xs: Seq<ValueView>) -> Result<Seq<IpldView>, SerdeErrorView>
    decreases xs,
{
    if xs.len() == 0 {
        Ok(Seq::empty())
    } else {
        match encode_value(xs[0]) {
            Err(e) => Err(e),
            Ok(i) => match encode_values(xs.subrange(1, xs.len() as int)) {
                Err(e) => Err(e),
                Ok(rest) => Ok(seq![i] + rest),
            },
        }
    }
}

/// Each pair of `ps` as a two-element array of its key's and its value's
/// IPLD forms, or the first error.
pub open spec fn encode_pairs(ps: Seq<(ValueView, ValueView)>) -> Result<Seq<IpldView>, SerdeErrorView>
    decreases ps,
{
    if ps.len() == 0 {
        Ok(Seq::empty())
    } else {
        match encode_value(ps[0].0) {
            Err(e) => Err(e),
            Ok(k) => match encode_value(ps[0].1) {
                Err(e) => Err(e),
                Ok(v) => match encode_pairs(ps.subrange(1, ps.len() as int)) {
                    Err(e) => Err(e),
                    Ok(rest) => Ok(seq![IpldView::Array(seq![k, v])] + rest),
                },
            },
        }
    }
}

proof fn lemma_encode_values_push(xs: Seq<ValueView>, x: ValueView)
    ensures
        encode_values(xs.push(x)) == match encode_values(xs) {
            Err(e) => Err(e),
            Ok(items) => match encode_value(x) {
                Err(e) => Err(e),
                Ok(i) => Ok(items.push(i)),
            },
        },
    decreases xs.len(),
{
    assert(xs.push(x)[0] == if xs.len() == 0 { x } else { xs[0] });
    if xs.len() == 0 {
        assert(xs =~= Seq::<ValueView>::empty());
        assert(xs.push(x).subrange(1, 1) =~= Seq::<ValueView>::empty());
        if let Ok(i) = encode_value(x) {
            assert(seq![i] + Seq::<IpldView>::empty() =~= Seq::<IpldView>::empty().push(i));
        }
    } else {
        let t = xs.subrange(1, xs.len() as int);
        lemma_encode_values_push(t, x);
        assert(xs.push(x).subrange(1, xs.len() + 1int) =~= t.push(x));
        if let (Ok(a), Ok(b), Ok(c)) = (encode_value(xs[0]), encode_values(t), encode_value(x)) {
            assert(seq![a] + b.push(c) =~= (seq![a] + b).push(c));
        }
    }
}

proof fn lemma_encode_pairs_push(ps: Seq<(ValueView, ValueView)>, p: (ValueView, ValueView))
    ensures
        encode_pairs(ps.push(p)) == match encode_pairs(ps) {
            Err(e) => Err(e),
            Ok(items) => match encode_value(p.0) {
                Err(e) => Err(e),
                Ok(k) => match encode_value(p.1) {
                    Err(e) => Err(e),
                    Ok(v) => Ok(items.push(IpldView::Array(seq![k, v]))),
                },
            },
        },
    decreases ps.len(),
{
    assert(ps.push(p)[0] == if ps.len() == 0 { p } else { ps[0] });
    if ps.len() == 0 {
        assert(ps =~= Seq::<(ValueView, ValueView)>::empty());
        assert(ps.push(p).subrange(1, 1) =~= Seq::<(ValueView, ValueView)>::empty());
        if let (Ok(k), Ok(v)) = (encode_value(p.0), encode_value(p.1)) {
            assert(seq![IpldView::Array(seq![k, v])] + Seq::<IpldView>::empty() =~= Seq::<IpldView>::empty().push(IpldView::Array(seq![k, v])));
        }
    } else {
        let t = ps.subrange(1, ps.len() as int);
        lemma_encode_pairs_push(t, p);
        assert(ps.push(p).subrange(1, ps.len() + 1int) =~= t.push(p));
        if let (Ok(a), Ok(b), Ok(c), Ok(rest)) = (encode_value(ps[0].0), encode_value(ps[0].1), encode_value(p.0), encode_pairs(t)) {
            if let Ok(d) = encode_value(p.1) {
                let x = IpldView::Array(seq![a, b]);
                let y = IpldView::Array(seq![c, d]);
                assert(seq![x] + rest.push(y) =~= (seq![x] + rest).push(y));
            }
        }
    }
}

/// The IPLD forms of the values of `xs`, or the first error.
#[verifier::loop_isolation(false)]
fn encode_list(xs: &Vec<Value>) -> (r: Result<Vec<Ipld>, SerdeError>)
    ensures
        match r {
            Ok(items) => encode_values(values_view(xs@)) == Ok::<Seq<IpldView>, SerdeErrorView>(array_view(items@)),
            Err(e) => encode_values(values_view(xs@)) == Err::<Seq<IpldView>, SerdeErrorView>(e@),
        },
    decreases xs,
{
    proof {
        lemma_values_view(xs@);
    }
    let ghost views = values_view(xs@);
    let mut items: Vec<Ipld> = Vec::new();
    let mut i: usize = 0;
    proof {
        assert(views.subrange(0, 0) =~= Seq::<ValueView>::empty());
    }
    while i < xs.len()
        invariant
            i <= xs@.len(),
            encode_values(views.subrange(0, i as int)) == Ok::<Seq<IpldView>, SerdeErrorView>(array_view(items@)),
        decreases xs@.len() - i,
    {
        proof {
            assert(decreases_to!(*xs => xs[i as int]));
            lemma_encode_values_push(views.subrange(0, i as int), views[i as int]);
            assert(views.subrange(0, i as int).push(views[i as int]) =~= views.subrange(0, i + 1));
        }
        let x = match to_ipld(&xs[i]) {
            Ok(x) => x,
            Err(e) => {
                proof {
                    lemma_encode_values_prefix_error(views, i as int + 1);
                }
                return Err(e);
            },
        };
        let ghost old_items = items@;
        items.push(x);
        proof {
            assert(items@.subrange(0, items@.len() - 1) =~= old_items);
        }
        i = i + 1;
    }
    proof {
        assert(views.subrange(0, i as int) =~= views);
    }
    Ok(items)
}

/// An error in the encodings of a prefix is the error of the whole.
proof fn lemma_encode_values_prefix_error(xs: Seq<ValueView>, k: int)
    requires
        0 <= k <= xs.len(),
        encode_values(xs.subrange(0, k)) is Err,
    ensures
        encode_values(xs) == encode_values(xs.subrange(0, k)),
    decreases xs.len(),
{
    if xs.len() > 0 && k > 0 {
        let t = xs.subrange(1, xs.len() as int);
        assert(xs.subrange(0, k).subrange(1, k) =~= t.subrange(0, k - 1));
        assert(xs.subrange(0, k)[0] == xs[0]);
        if encode_value(xs[0]) is Ok {
            lemma_encode_values_prefix_error(t, k - 1);
        }
    } else if k == 0 {
        assert(xs.subrange(0, 0) =~= Seq::<ValueView>::empty());
    }
}

/// The IPLD form of `value`, or why it has none.
#[verifier::loop_isolation(false)]
pub fn to_ipld(value: &Value) -> (r: Result<Ipld, SerdeError>)
    ensures
        result_view(r) == encode_value(value@),
    decreases value, 1nat,
{
    match value {
        Value::Bool(b) => Ok(Ipld::Bool(*b)),
        Value::Unsigned(n) => Ok(Ipld::Number(*n)),
        Value::Signed(_) => Err(SerdeError::Unsupported),
        Value::Char(c) => Ok(Ipld::String(char_to_string(*c))),
        Value::Str(s) => Ok(Ipld::String(s.clone())),
        Value::Bytes(b) => Ok(Ipld::Bytes(b.clone())),
        Value::Absent => Ok(Ipld::Null),
        Value::Present(x) => to_ipld(x),
        Value::Unit => {
            let items: Vec<Ipld> = Vec::new();
            proof {
                assert(array_view(items@) =~= Seq::<IpldView>::empty());
            }
            Ok(Ipld::Array(items))
        },
        Value::Newtype(x) => to_ipld(x),
        Value::Sequence(xs) => match encode_list(xs) {
            Ok(items) => Ok(Ipld::Array(items)),
            Err(e) => Err(e),
        },
        Value::Mapping(ps) => {
            proof {
                lemma_pairs_view(ps@);
            }
            let ghost views = pairs_view(ps@);
            let mut items: Vec<Ipld> = Vec::new();
            let mut i: usize = 0;
            proof {
                assert(views.subrange(0, 0) =~= Seq::<(ValueView, ValueView)>::empty());
            }
            while i < ps.len()
                invariant
                    i <= ps@.len(),
                    encode_pairs(views.subrange(0, i as int)) == Ok::<Seq<IpldView>, SerdeErrorView>(array_view(items@)),
                decreases ps@.len() - i,
            {
                proof {
                    assert(decreases_to!(*ps => ps[i as int]));
                    assert(decreases_to!(ps[i as int] => ps[i as int].0));
                    assert(decreases_to!(ps[i as int] => ps[i as int].1));
                    lemma_encode_pairs_push(views.subrange(0, i as int), views[i as int]);
                    assert(views.subrange(0, i as int).push(views[i as int]) =~= views.subrange(0, i + 1));
                }
                let k = match to_ipld(&ps[i].0) {
                    Ok(k) => k,
                    Err(e) => {
                        proof {
                            lemma_encode_pairs_prefix_error(views, i as int + 1);
                        }
                        return Err(e);
                    },
                };
                let v = match to_ipld(&ps[i].1) {
                    Ok(v) => v,
                    Err(e) => {
                        proof {
                            lemma_encode_pairs_prefix_error(views, i as int + 1);
                        }
                        return Err(e);
                    },
                };
                let ghost kv = k@;
                let ghost vv = v@;
                let pair = vec![k, v];
                proof {
                    lemma_array_view(pair@);
                    assert(array_view(pair@) =~= seq![kv, vv]);
                }
                let ghost old_items = items@;
                let ghost pv = pair@;
                items.push(Ipld::Array(pair));
                proof {
                    assert(items@.subrange(0, items@.len() - 1) =~= old_items);
                    let last = items@[items@.len() - 1];
                    assert(last is Array && last->Array_0@ == pv);
                    assert(ipld_view(last) == IpldView::Array(array_view(pv)));
                    assert(array_view(items@) == array_view(old_items).push(IpldView::Array(array_view(pv))));
                    assert(views[i as int].0 == value_view(ps@[i as int].0));
                    assert(encode_value(views[i as int].0) == Ok::<IpldView, SerdeErrorView>(kv));
                    assert(encode_value(views[i as int].1) == Ok::<IpldView, SerdeErrorView>(vv));
                }
                i = i + 1;
            }
            proof {
                assert(views.subrange(0, i as int) =~= views);
            }
            Ok(Ipld::Array(items))
        },
        Value::Variant(idx, xs) => match encode_list(xs) {
            Ok(payload) => {
                let mut items: Vec<Ipld> = vec![Ipld::Number(*idx)];
                let ghost pv = payload@;
                let mut payload = payload;
                items.append(&mut payload);
                proof {
                    lemma_array_view(items@);
                    lemma_array_view(pv);
                    assert(items@[0] == Ipld::Number(*idx));
                    assert forall|j: int| 0 <= j < pv.len() implies items@[j + 1] == pv[j] by {}
                    assert(array_view(items@) =~= seq![IpldView::Number(*idx)] + array_view(pv));
                }
                Ok(Ipld::Array(items))
            },
            Err(e) => Err(e),
        },
        Value::Link(c) => Ok(Ipld::Link(c.duplicate())),
    }
}

/// An error in the encodings of a prefix is the error of the whole.
proof fn lemma_encode_pairs_prefix_error(ps: Seq<(ValueView, ValueView)>, k: int)
    requires
        0 <= k <= ps.len(),
        encode_pairs(ps.subrange(0, k)) is Err,
    ensures
        encode_pairs(ps) == encode_pairs(ps.subrange(0, k)),
    decreases ps.len(),
{
    if ps.len() > 0 && k > 0 {
        let t = ps.subrange(1, ps.len() as int);
        assert(ps.subrange(0, k).subrange(1, k) =~= t.subrange(0, k - 1));
        assert(ps.subrange(0, k)[0] == ps[0]);
        if encode_value(ps[0].0) is Ok && encode_value(ps[0].1) is Ok {
            lemma_encode_pairs_prefix_error(t, k - 1);
        }
    } else if k == 0 {
        assert(ps.subrange(0, 0) =~= Seq::<(ValueView, ValueView)>::empty());
    }
}

/// Relies on std's `char::to_string`: a string holding exactly that
/// character.
#[verifier::external_body]
fn char_to_string(c: char) -> (r: String)
    ensures
        r@ == seq![c],
{
    c.to_string()
}

} // verus!
