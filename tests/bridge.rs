use ipld::bridge::de::{map_pair, sequence_items, split_variant, tuple_items};
use ipld::bridge::Expected;
use ipld::{from_ipld, to_ipld, Cid, Ipld, Multihash, SerdeError, Shape, Value, Width};

fn point_shape() -> Shape {
    Shape::Tuple(vec![Shape::Unsigned(Width::W32), Shape::Unsigned(Width::W32)])
}

#[test]
fn ser_de_ipld() {
    let point = Value::Sequence(vec![Value::Unsigned(1), Value::Unsigned(2)]);
    let expected = Ipld::Array(vec![Ipld::Number(1), Ipld::Number(2)]);
    let encoded = to_ipld(&point).unwrap();
    assert_eq!(encoded, expected);
    let decoded = from_ipld(expected.clone(), &point_shape()).unwrap();
    assert_eq!(decoded, point);
}

#[test]
fn integer_range() {
    assert_eq!(
        from_ipld(Ipld::Number(300), &Shape::Unsigned(Width::W8)),
        Err(SerdeError::IntegerRange { width: Width::W8, signed: false })
    );
    assert_eq!(from_ipld(Ipld::Number(300), &Shape::Unsigned(Width::W16)), Ok(Value::Unsigned(300)));
    assert_eq!(
        from_ipld(Ipld::Number(128), &Shape::Signed(Width::W8)),
        Err(SerdeError::IntegerRange { width: Width::W8, signed: true })
    );
    assert_eq!(from_ipld(Ipld::Number(127), &Shape::Signed(Width::W8)), Ok(Value::Signed(127)));
}

#[test]
fn type_mismatch_names_target_and_value() {
    assert_eq!(
        from_ipld(Ipld::String("x".into()), &Shape::Sequence(Box::new(Shape::Bool))),
        Err(SerdeError::TypeMismatch { expected: Expected::Sequence, found: Ipld::String("x".into()) })
    );
    assert_eq!(
        from_ipld(Ipld::Array(vec![Ipld::Number(1)]), &point_shape()),
        Err(SerdeError::TypeMismatch {
            expected: Expected::Tuple,
            found: Ipld::Array(vec![Ipld::Number(1)])
        })
    );
}

#[test]
fn signed_values_have_no_ipld_form() {
    assert_eq!(to_ipld(&Value::Signed(-1)), Err(SerdeError::Unsupported));
    assert_eq!(
        to_ipld(&Value::Sequence(vec![Value::Unsigned(1), Value::Signed(3)])),
        Err(SerdeError::Unsupported)
    );
}

#[test]
fn options_and_units() {
    assert_eq!(to_ipld(&Value::Absent), Ok(Ipld::Null));
    assert_eq!(to_ipld(&Value::Present(Box::new(Value::Bool(true)))), Ok(Ipld::Bool(true)));
    assert_eq!(to_ipld(&Value::Unit), Ok(Ipld::Array(vec![])));
    let shape = Shape::Optional(Box::new(Shape::Bool));
    assert_eq!(from_ipld(Ipld::Null, &shape), Ok(Value::Absent));
    assert_eq!(
        from_ipld(Ipld::Bool(false), &shape),
        Ok(Value::Present(Box::new(Value::Bool(false))))
    );
    assert_eq!(from_ipld(Ipld::Array(vec![]), &Shape::Unit), Ok(Value::Unit));
}

#[test]
fn chars_and_strings() {
    assert_eq!(to_ipld(&Value::Char('é')), Ok(Ipld::String("é".into())));
    assert_eq!(from_ipld(Ipld::String("é".into()), &Shape::Char), Ok(Value::Char('é')));
    assert!(from_ipld(Ipld::String("ab".into()), &Shape::Char).is_err());
    assert_eq!(from_ipld(Ipld::String("ab".into()), &Shape::Str), Ok(Value::Str("ab".into())));
}

#[test]
fn maps_become_pair_arrays() {
    let m = Value::Mapping(vec![
        (Value::Unsigned(1), Value::Str("one".into())),
        (Value::Unsigned(2), Value::Str("two".into())),
    ]);
    let i = to_ipld(&m).unwrap();
    assert_eq!(
        i,
        Ipld::Array(vec![
            Ipld::Array(vec![Ipld::Number(1), Ipld::String("one".into())]),
            Ipld::Array(vec![Ipld::Number(2), Ipld::String("two".into())]),
        ])
    );
    let shape = Shape::Mapping(Box::new(Shape::Unsigned(Width::W8)), Box::new(Shape::Str));
    assert_eq!(from_ipld(i, &shape), Ok(m));
}

#[test]
fn enum_variants() {
    let shape = Shape::Enum(vec![
        vec![],
        vec![Shape::Str],
        vec![Shape::Unsigned(Width::W64), Shape::Bool],
    ]);
    let unit = Value::Variant(0, vec![]);
    let newtype = Value::Variant(1, vec![Value::Str("x".into())]);
    let tuple = Value::Variant(2, vec![Value::Unsigned(7), Value::Bool(true)]);
    assert_eq!(to_ipld(&unit), Ok(Ipld::Array(vec![Ipld::Number(0)])));
    assert_eq!(
        to_ipld(&tuple),
        Ok(Ipld::Array(vec![Ipld::Number(2), Ipld::Number(7), Ipld::Bool(true)]))
    );
    for v in [unit, newtype, tuple] {
        let i = to_ipld(&v).unwrap();
        assert_eq!(from_ipld(i, &shape), Ok(v));
    }
    assert!(from_ipld(Ipld::Array(vec![Ipld::Number(3)]), &shape).is_err());
    assert!(from_ipld(Ipld::Array(vec![Ipld::Number(0), Ipld::Null]), &shape).is_err());
}

#[test]
fn links_cross_the_bridge() {
    let cid = Cid::new(1, 0x71, Multihash::sha3_256(&[1, 2, 3]));
    let v = Value::Sequence(vec![Value::Link(cid.clone()), Value::Bytes(cid.to_bytes())]);
    let i = to_ipld(&v).unwrap();
    assert_eq!(i, Ipld::Array(vec![Ipld::Link(cid.clone()), Ipld::Bytes(cid.to_bytes())]));
    let shape = Shape::Tuple(vec![Shape::Link, Shape::Bytes]);
    assert_eq!(from_ipld(i, &shape), Ok(v));
    // a link is never taken for plain bytes
    assert!(from_ipld(Ipld::Link(cid), &Shape::Bytes).is_err());
}

#[test]
fn step_functions_for_adapters() {
    let arr = Ipld::Array(vec![Ipld::Number(1), Ipld::Bool(true)]);
    assert_eq!(tuple_items(arr.clone(), 2, Expected::Tuple), Ok(vec![Ipld::Number(1), Ipld::Bool(true)]));
    assert_eq!(
        tuple_items(arr.clone(), 3, Expected::Tuple),
        Err(SerdeError::TypeMismatch { expected: Expected::Tuple, found: arr.clone() })
    );
    assert_eq!(map_pair(arr.clone()), Ok((Ipld::Number(1), Ipld::Bool(true))));
    assert!(map_pair(Ipld::Array(vec![Ipld::Null])).is_err());
    assert_eq!(split_variant(arr.clone(), 2), Ok((1, vec![Ipld::Bool(true)])));
    assert!(split_variant(arr.clone(), 1).is_err());
    assert_eq!(sequence_items(Ipld::Array(vec![]), Expected::Sequence), Ok(vec![]));
    assert_eq!(
        sequence_items(Ipld::Null, Expected::Mapping),
        Err(SerdeError::TypeMismatch { expected: Expected::Mapping, found: Ipld::Null })
    );
}
