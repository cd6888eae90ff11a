//! A two-way bridge between structured application values and the IPLD
//! data model.
//!
//! An application describes a value as a [`Value`] tree (structs, tuples
//! and sequences as `Sequence`, enum variants by index, links as a leaf of their
//! own) and the shape it expects back as a [`Shape`]. Records become arrays
//! in field order; maps become arrays of `[key, value]` pairs; a variant
//! becomes an array that starts with its index.

use crate::cid::{Cid, CidView};
use crate::ipld::{Ipld, IpldView};
use vstd::prelude::*;

pub mod de;
pub mod ser;

verus! {

/// A structured application value.
#[derive(Debug, PartialEq)]
pub enum Value {
    Bool(bool),
    /// An unsigned integer of any width.
    Unsigned(u64),
    /// A signed integer of any width.
    Signed(i64),
    Char(char),
    Str(String),
    Bytes(Vec<u8>),
    /// An absent optional value.
    Absent,
    /// A present optional value.
    Present(Box<Value>),
    /// The unit value or a unit struct.
    Unit,
    /// A newtype struct around a value.
    Newtype(Box<Value>),
    /// A sequence, a tuple, or the fields of a struct in declaration order.
    Sequence(Vec<Value>),
    /// Map entries, keys of any kind.
    Mapping(Vec<(Value, Value)>),
    /// An enum variant: its zero-based index and its payload (empty for a
    /// unit variant, one value for a newtype variant, the fields otherwise).
    Variant(u64, Vec<Value>),
    /// A link to another block.
    Link(Cid),
}

/// The logical content of a [`Value`].
pub enum ValueView {
    Bool(bool),
    Unsigned(u64),
    Signed(i64),
    Char(char),
    Str(Seq<char>),
    Bytes(Seq<u8>),
    Absent,
    Present(Box<ValueView>),
    Unit,
    Newtype(Box<ValueView>),
    Sequence(Seq<ValueView>),
    Mapping(Seq<(ValueView, ValueView)>),
    Variant(u64, Seq<ValueView>),
    Link(CidView),
}

/// The logical content of `v`.
pub open spec fn value_view(v: Value) -> ValueView
    decreases v,
{
    match v {
        Value::Bool(b) => ValueView::Bool(b),
        Value::Unsigned(n) => ValueView::Unsigned(n),
        Value::Signed(n) => ValueView::Signed(n),
        Value::Char(c) => ValueView::Char(c),
        Value::Str(s) => ValueView::Str(s@),
        Value::Bytes(b) => ValueView::Bytes(b@),
        Value::Absent => ValueView::Absent,
        Value::Present(x) => ValueView::Present(Box::new(value_view(*x))),
        Value::Unit => ValueView::Unit,
        Value::Newtype(x) => ValueView::Newtype(Box::new(value_view(*x))),
        Value::Sequence(xs) => ValueView::Sequence(values_view(xs@)),
        Value::Mapping(ps) => ValueView::Mapping(pairs_view(ps@)),
        Value::Variant(i, xs) => ValueView::Variant(i, values_view(xs@)),
        Value::Link(c) => ValueView::Link(c@),
    }
}

/// The logical content of each value of `s`.
pub open spec fn values_view(s: Seq<Value>) -> Seq<ValueView>
    decreases s,
{
    if s.len() == 0 {
        Seq::empty()
    } else {
        values_view(s.subrange(0, s.len() - 1)).push(value_view(s[s.len() - 1]))
    }
}

/// The logical content of each pair of `s`.
pub open spec fn pairs_view(s: Seq<(Value, Value)>) -> Seq<(ValueView, ValueView)>
    decreases s,
{
    if s.len() == 0 {
        Seq::empty()
    } else {
        pairs_view(s.subrange(0, s.len() - 1)).push(
            (value_view(s[s.len() - 1].0), value_view(s[s.len() - 1].1)),
        )
    }
}

impl View for Value {
    type V = ValueView;

    open spec fn view(&self) -> ValueView {
        value_view(*self)
    }
}

/// The view of a vector of values holds the view of each, in order.
pub proof fn lemma_values_view(s: Seq<Value>)
    ensures
        values_view(s).len() == s.len(),
        forall|i: int| 0 <= i < s.len() ==> #[trigger] values_view(s)[i] == value_view(s[i]),
    decreases s.len(),
{
    if s.len() > 0 {
        lemma_values_view(s.subrange(0, s.len() - 1));
    }
}

/// The view of a vector of pairs holds the view of each, in order.
pub proof fn lemma_pairs_view(s: Seq<(Value, Value)>)
    ensures
        pairs_view(s).len() == s.len(),
        forall|i: int|
            0 <= i < s.len() ==> #[trigger] pairs_view(s)[i] == (value_view(s[i].0), value_view(s[i].1)),
    decreases s.len(),
{
    if s.len() > 0 {
        lemma_pairs_view(s.subrange(0, s.len() - 1));
    }
}

/// The width of an integer target.
#[derive(Debug, Clone, Copy, PartialEq, Eq, Structural)]
pub enum Width {
    W8,
    W16,
    W32,
    W64,
}

/// The largest unsigned value of a width.
pub open spec fn unsigned_max(w: Width) -> u64 {
    match w {
        Width::W8 => 0xff,
        Width::W16 => 0xffff,
        Width::W32 => 0xffff_ffff,
        Width::W64 => 0xffff_ffff_ffff_ffff,
    }
}

/// The largest signed value of a width.
pub open spec fn signed_max(w: Width) -> u64 {
    match w {
        Width::W8 => 0x7f,
        Width::W16 => 0x7fff,
        Width::W32 => 0x7fff_ffff,
        Width::W64 => 0x7fff_ffff_ffff_ffff,
    }
}

/// The shape a decoded value must take.
#[derive(Debug)]
pub enum Shape {
    Bool,
    Unsigned(Width),
    Signed(Width),
    Char,
    Str,
    Bytes,
    /// An optional value of the given shape.
    Optional(Box<Shape>),
    Unit,
    Newtype(Box<Shape>),
    /// A sequence of any length, each element of the given shape.
    Sequence(Box<Shape>),
    /// A tuple or the fields of a struct, positionally.
    Tuple(Vec<Shape>),
    /// Map entries with keys and values of the given shapes.
    Mapping(Box<Shape>, Box<Shape>),
    /// An enum: for each variant, the shapes of its payload.
    Enum(Vec<Vec<Shape>>),
    Link,
}

/// The kind of target a decode expected.
#[derive(Debug, Clone, Copy, PartialEq, Eq, Structural)]
pub enum Expected {
    Bool,
    Unsigned,
    Signed,
    Char,
    Str,
    Bytes,
    Unit,
    Sequence,
    Tuple,
    Mapping,
    Enum,
    Link,
}

/// Why a value could not cross the bridge.
#[derive(Debug, PartialEq)]
pub enum SerdeError {
    /// The IPLD value found does not have the kind the target expects.
    TypeMismatch { expected: Expected, found: Ipld },
    /// The number found does not fit in the integer target.
    IntegerRange { width: Width, signed: bool },
    /// Signed integers have no IPLD form.
    Unsupported,
}

/// The logical content of a [`SerdeError`].
pub enum SerdeErrorView {
    TypeMismatch { expected: Expected, found: IpldView },
    IntegerRange { width: Width, signed: bool },
    Unsupported,
}

impl View for SerdeError {
    type V = SerdeErrorView;

    open spec fn view(&self) -> SerdeErrorView {
        match self {
            SerdeError::TypeMismatch { expected, found } => SerdeErrorView::TypeMismatch {
                expected: *expected,
                found: found@,
            },
            SerdeError::IntegerRange { width, signed } => SerdeErrorView::IntegerRange {
                width: *width,
                signed: *signed,
            },
            SerdeError::Unsupported => SerdeErrorView::Unsupported,
        }
    }
}

/// A result of the bridge seen through the views of its value and error.
pub open spec fn result_view<T: View>(r: Result<T, SerdeError>) -> Result<T::V, SerdeErrorView> {
    match r {
        Ok(v) => Ok(v@),
        Err(e) => Err(e@),
    }
}

} // verus!
