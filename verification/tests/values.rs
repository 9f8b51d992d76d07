use filter_values::addr::IpAddress;
use filter_values::context::ExecutionContext;
use filter_values::json::{lhs_value_from_json, FromJsonError};
use filter_values::scheme::{Field, FieldPathItem, Scheme};
use filter_values::types::{SetValueError, Type, TypeMismatchError};
use filter_values::value::{Dict, LhsValue};

fn int_scheme() -> Scheme {
    let mut scheme = Scheme::new();
    assert!(scheme.add_field("foo".to_string(), Type::Int));
    scheme
}

#[test]
fn test_field_value_type_mismatch() {
    let scheme = int_scheme();
    let mut ctx = ExecutionContext::new(&scheme);
    assert_eq!(
        ctx.set_field_value("foo", LhsValue::Bool(false)),
        Err(TypeMismatchError {
            expected: Type::Int,
            actual: Type::Bool
        })
    );
}

#[test]
fn test_lhs_value_deserialize() {
    let ipv4 = lhs_value_from_json("\"127.0.0.1\"").unwrap();
    assert!(matches!(ipv4, LhsValue::Ip(IpAddress::V4(0x7f00_0001))));

    let ipv6 = lhs_value_from_json("\"::1\"").unwrap();
    assert!(matches!(ipv6, LhsValue::Ip(IpAddress::V6(1))));

    let bytes = lhs_value_from_json("\"a JSON string with unicode \u{2764}\"").unwrap();
    match bytes {
        LhsValue::Bytes(b) => assert_eq!(b, b"a JSON string with unicode \xE2\x9D\xA4".to_vec()),
        _ => panic!("expected a byte string"),
    }

    let bytes = lhs_value_from_json("\"a JSON string with escaped-unicode \\u2764\"").unwrap();
    match bytes {
        LhsValue::Bytes(b) => assert_eq!(
            b,
            b"a JSON string with escaped-unicode \xE2\x9D\xA4".to_vec()
        ),
        _ => panic!("expected a byte string"),
    }

    let bytes = lhs_value_from_json("\"1337\"").unwrap();
    match bytes {
        LhsValue::Bytes(b) => assert_eq!(b, b"1337".to_vec()),
        _ => panic!("expected a byte string"),
    }

    let integer = lhs_value_from_json("1337").unwrap();
    assert!(matches!(integer, LhsValue::Int(1337)));

    let b = lhs_value_from_json("false").unwrap();
    assert!(matches!(b, LhsValue::Bool(false)));
}

#[test]
fn test_from_json_errors() {
    assert!(matches!(
        lhs_value_from_json("not json"),
        Err(FromJsonError::Syntax)
    ));
    assert!(matches!(
        lhs_value_from_json("null"),
        Err(FromJsonError::Unrepresentable)
    ));
    assert!(matches!(
        lhs_value_from_json("3.5"),
        Err(FromJsonError::Unrepresentable)
    ));
    assert!(matches!(
        lhs_value_from_json("99999999999"),
        Err(FromJsonError::Unrepresentable)
    ));
    assert!(matches!(
        lhs_value_from_json("[1]"),
        Err(FromJsonError::Unrepresentable)
    ));
}

#[test]
fn test_round_trip_every_kind() {
    let mut scheme = Scheme::new();
    assert!(scheme.add_field("int".to_string(), Type::Int));
    assert!(scheme.add_field("bytes".to_string(), Type::Bytes));
    assert!(scheme.add_field("bool".to_string(), Type::Bool));
    assert!(scheme.add_field("ip".to_string(), Type::Ip));
    assert!(scheme.add_field("map".to_string(), Type::Dict(Box::new(Type::Int))));

    let mut ctx = ExecutionContext::new(&scheme);
    assert_eq!(ctx.set_field_value("int", LhsValue::Int(42)), Ok(()));
    assert_eq!(
        ctx.set_field_value("bytes", LhsValue::Bytes(b"abc".to_vec())),
        Ok(())
    );
    assert_eq!(ctx.set_field_value("bool", LhsValue::Bool(true)), Ok(()));
    assert_eq!(
        ctx.set_field_value("ip", LhsValue::Ip(IpAddress::V4(0x0a000001))),
        Ok(())
    );
    let mut d = Dict::new(Type::Int);
    assert!(matches!(d.insert("k".to_string(), LhsValue::Int(7)), Ok(None)));
    assert_eq!(ctx.set_field_value("map", LhsValue::Dict(d)), Ok(()));

    let f = ctx.scheme().get_field("int").unwrap();
    assert!(matches!(ctx.get_field_value_unchecked(&f), LhsValue::Int(42)));
    let f = ctx.scheme().get_field("bytes").unwrap();
    match ctx.get_field_value_unchecked(&f) {
        LhsValue::Bytes(b) => assert_eq!(b, b"abc".to_vec()),
        _ => panic!("expected bytes"),
    }
    let f = ctx.scheme().get_field("bool").unwrap();
    assert!(matches!(
        ctx.get_field_value_unchecked(&f),
        LhsValue::Bool(true)
    ));
    let f = ctx.scheme().get_field("ip").unwrap();
    assert!(matches!(
        ctx.get_field_value_unchecked(&f),
        LhsValue::Ip(IpAddress::V4(0x0a000001))
    ));
    let f = ctx.scheme().get_field("map").unwrap();
    match ctx.get_field_value_unchecked(&f) {
        LhsValue::Dict(d) => match d.get("k") {
            Some(LhsValue::Int(7)) => {}
            _ => panic!("expected entry k: 7"),
        },
        _ => panic!("expected a map"),
    }
}

#[test]
fn test_mismatch_keeps_prior_state() {
    let scheme = int_scheme();
    let mut ctx = ExecutionContext::new(&scheme);
    assert_eq!(ctx.set_field_value("foo", LhsValue::Int(1)), Ok(()));
    assert_eq!(
        ctx.set_field_value("foo", LhsValue::Bool(true)),
        Err(TypeMismatchError {
            expected: Type::Int,
            actual: Type::Bool
        })
    );
    let f = ctx.scheme().get_field("foo").unwrap();
    assert!(matches!(ctx.get_field_value_unchecked(&f), LhsValue::Int(1)));
}

#[test]
fn test_map_homogeneity() {
    let mut d = Dict::new(Type::Int);
    assert!(matches!(d.insert("a".to_string(), LhsValue::Int(1)), Ok(None)));
    match d.insert("a".to_string(), LhsValue::Bool(false)) {
        Err(e) => assert_eq!(
            e,
            TypeMismatchError {
                expected: Type::Int,
                actual: Type::Bool
            }
        ),
        Ok(_) => panic!("expected a type mismatch"),
    }
    assert!(matches!(d.get("a"), Some(LhsValue::Int(1))));
    assert!(matches!(
        d.insert("a".to_string(), LhsValue::Int(2)),
        Ok(Some(LhsValue::Int(1)))
    ));
    assert!(matches!(d.get("a"), Some(LhsValue::Int(2))));
    assert!(d.get("missing").is_none());
}

#[test]
fn test_nested_path_round_trip() {
    let mut scheme = Scheme::new();
    let ty = Type::Dict(Box::new(Type::Dict(Box::new(Type::Int))));
    assert!(scheme.add_field("map".to_string(), ty));
    let mut ctx = ExecutionContext::new(&scheme);

    let path = vec![
        FieldPathItem::Name("a".to_string()),
        FieldPathItem::Name("b".to_string()),
    ];
    assert_eq!(
        ctx.set_field_value_with_path("map", &path, LhsValue::Int(5)),
        Ok(())
    );

    let base = ctx.scheme().get_field("map").unwrap();
    let field = Field {
        index: base.index,
        ty: base.ty,
        path,
    };
    assert!(matches!(
        ctx.get_field_value_unchecked(&field),
        LhsValue::Int(5)
    ));

    // the intermediate map `a` was materialized automatically
    let shallow = Field {
        index: field.index,
        ty: field.ty.clone(),
        path: vec![FieldPathItem::Name("a".to_string())],
    };
    assert!(matches!(
        ctx.get_field_value_unchecked(&shallow),
        LhsValue::Dict(_)
    ));
}

#[test]
fn test_empty_path_behaves_as_plain_set() {
    let scheme = int_scheme();
    let mut ctx = ExecutionContext::new(&scheme);
    let empty: Vec<FieldPathItem> = Vec::new();
    assert_eq!(
        ctx.set_field_value_with_path("foo", &empty, LhsValue::Int(9)),
        Ok(())
    );
    let f = ctx.scheme().get_field("foo").unwrap();
    assert!(matches!(ctx.get_field_value_unchecked(&f), LhsValue::Int(9)));
    assert_eq!(
        ctx.set_field_value_with_path("foo", &empty, LhsValue::Bool(true)),
        Err(SetValueError::TypeMismatch(TypeMismatchError {
            expected: Type::Int,
            actual: Type::Bool
        }))
    );
}

#[test]
fn test_non_materializable_rejection() {
    let scheme = int_scheme();
    let mut ctx = ExecutionContext::new(&scheme);
    let path = vec![FieldPathItem::Name("x".to_string())];
    assert_eq!(
        ctx.set_field_value_with_path("foo", &path, LhsValue::Int(1)),
        Err(SetValueError::VoidableType(Type::Int))
    );
}

#[test]
fn test_path_type_mismatch_at_last_segment() {
    let mut scheme = Scheme::new();
    assert!(scheme.add_field("map".to_string(), Type::Dict(Box::new(Type::Int))));
    let mut ctx = ExecutionContext::new(&scheme);
    let path = vec![FieldPathItem::Name("a".to_string())];
    assert_eq!(
        ctx.set_field_value_with_path("map", &path, LhsValue::Bool(true)),
        Err(SetValueError::TypeMismatch(TypeMismatchError {
            expected: Type::Int,
            actual: Type::Bool
        }))
    );
}

#[test]
fn test_populated_scalar_field_path_write() {
    // once a scalar slot holds a value, a nested write fails as a type
    // mismatch: the walk finds no further nesting under the integer type
    let scheme = int_scheme();
    let mut ctx = ExecutionContext::new(&scheme);
    assert_eq!(ctx.set_field_value("foo", LhsValue::Int(1)), Ok(()));
    let path = vec![FieldPathItem::Name("x".to_string())];
    assert_eq!(
        ctx.set_field_value_with_path("foo", &path, LhsValue::Int(2)),
        Err(SetValueError::TypeMismatch(TypeMismatchError {
            expected: Type::Int,
            actual: Type::Int
        }))
    );
}
