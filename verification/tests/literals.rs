use core::cmp::Ordering;
use filter_values::addr::{parse_ip, IpAddress};
use filter_values::lex::{lex_int, lex_rhs_values};
use filter_values::literal::{IntRange, IpRange, RhsValue, RhsValues};
use filter_values::types::Type;
use filter_values::value::LhsValue;

#[test]
fn test_parse_ip_forms() {
    assert_eq!(parse_ip(b"127.0.0.1"), Some(IpAddress::V4(0x7f00_0001)));
    assert_eq!(parse_ip(b"255.255.255.255"), Some(IpAddress::V4(0xffff_ffff)));
    assert_eq!(parse_ip(b"::1"), Some(IpAddress::V6(1)));
    assert_eq!(parse_ip(b"::"), Some(IpAddress::V6(0)));
    assert_eq!(
        parse_ip(b"2001:db8::ff00:42:8329"),
        Some(IpAddress::V6(0x2001_0db8_0000_0000_0000_ff00_0042_8329))
    );
    assert_eq!(
        parse_ip(b"1:2:3:4:5:6:7:8"),
        Some(IpAddress::V6(0x0001_0002_0003_0004_0005_0006_0007_0008))
    );
    assert_eq!(parse_ip(b"256.0.0.1"), None);
    assert_eq!(parse_ip(b"1.2.3"), None);
    assert_eq!(parse_ip(b"1::2::3"), None);
    assert_eq!(parse_ip(b"hello"), None);
    assert_eq!(parse_ip(b""), None);
}

#[test]
fn test_strict_comparison() {
    // matching kinds: a definite ordering
    assert_eq!(
        LhsValue::Int(1).strict_partial_cmp(&RhsValue::Int(2)),
        Some(Ordering::Less)
    );
    assert_eq!(
        LhsValue::Int(2).strict_partial_cmp(&RhsValue::Int(2)),
        Some(Ordering::Equal)
    );
    assert_eq!(
        LhsValue::Bytes(b"b".to_vec()).strict_partial_cmp(&RhsValue::Bytes(b"a".to_vec())),
        Some(Ordering::Greater)
    );
    assert_eq!(
        LhsValue::Bytes(b"ab".to_vec()).strict_partial_cmp(&RhsValue::Bytes(b"abc".to_vec())),
        Some(Ordering::Less)
    );
    assert_eq!(
        LhsValue::Ip(IpAddress::V4(1)).strict_partial_cmp(&RhsValue::Ip(IpAddress::V4(2))),
        Some(Ordering::Less)
    );
    // an IPv4 address equals its IPv4-mapped IPv6 form
    assert_eq!(
        LhsValue::Ip(IpAddress::V4(0x7f00_0001))
            .strict_partial_cmp(&RhsValue::Ip(IpAddress::V6(0xffff_7f00_0001))),
        Some(Ordering::Equal)
    );
    // different kinds: unordered, never an error
    assert_eq!(
        LhsValue::Int(1).strict_partial_cmp(&RhsValue::Bytes(b"1".to_vec())),
        None
    );
    assert_eq!(
        LhsValue::Bool(false).strict_partial_cmp(&RhsValue::Int(0)),
        None
    );
    // equality is "strict comparison yields Equal"
    assert!(LhsValue::Int(2).eq_rhs(&RhsValue::Int(2)));
    assert!(!LhsValue::Int(2).eq_rhs(&RhsValue::Int(3)));
    assert!(!LhsValue::Bool(true).eq_rhs(&RhsValue::Int(1)));
}

#[test]
fn test_lex_int_literals() {
    assert_eq!(lex_int(b"1337", 0), Ok((1337, 4)));
    assert_eq!(lex_int(b"-42 rest", 0), Ok((-42, 3)));
    assert_eq!(lex_int(b"2147483647", 0), Ok((2147483647, 10)));
    assert_eq!(lex_int(b"-2147483648", 0), Ok((-2147483648, 11)));
    assert!(lex_int(b"2147483648", 0).is_err());
    assert!(lex_int(b"x", 0).is_err());
    assert!(lex_int(b"", 0).is_err());
}

#[test]
fn test_lex_rhs_values_int() {
    let (vs, p) = lex_rhs_values(b"{ 1 2 30..40 }", 0, &Type::Int).unwrap();
    assert_eq!(p, 14);
    match vs {
        RhsValues::Int(rs) => {
            assert_eq!(
                rs,
                vec![
                    IntRange { first: 1, last: 1 },
                    IntRange { first: 2, last: 2 },
                    IntRange {
                        first: 30,
                        last: 40
                    },
                ]
            );
        }
        _ => panic!("expected integer ranges"),
    }
}

#[test]
fn test_lex_rhs_values_bytes() {
    let (vs, _) = lex_rhs_values(b"{ \"ab\" \"cd\" }", 0, &Type::Bytes).unwrap();
    match vs {
        RhsValues::Bytes(bs) => assert_eq!(bs, vec![b"ab".to_vec(), b"cd".to_vec()]),
        _ => panic!("expected byte strings"),
    }
}

#[test]
fn test_lex_rhs_values_ip() {
    let (vs, _) = lex_rhs_values(b"{ 127.0.0.1 10.0.0.0/8 }", 0, &Type::Ip).unwrap();
    match vs {
        RhsValues::Ip(rs) => {
            assert_eq!(
                rs,
                vec![
                    IpRange {
                        first: IpAddress::V4(0x7f00_0001),
                        last: IpAddress::V4(0x7f00_0001),
                    },
                    IpRange {
                        first: IpAddress::V4(0x0a00_0000),
                        last: IpAddress::V4(0x0aff_ffff),
                    },
                ]
            );
        }
        _ => panic!("expected address ranges"),
    }
}

#[test]
fn test_lex_rhs_values_failures() {
    // an unterminated sequence is a parse failure
    assert!(lex_rhs_values(b"{ 1 2 ", 0, &Type::Int).is_err());
    // the set must open with a brace
    assert!(lex_rhs_values(b"1 2 }", 0, &Type::Int).is_err());
    // an entry of the wrong shape is a parse failure
    assert!(lex_rhs_values(b"{ \"ab\" }", 0, &Type::Int).is_err());
}

#[test]
fn test_literal_set_membership() {
    let ints = RhsValues::Int(vec![
        IntRange { first: 1, last: 1 },
        IntRange {
            first: 30,
            last: 40,
        },
    ]);
    assert!(ints.contains(&LhsValue::Int(1)));
    assert!(ints.contains(&LhsValue::Int(35)));
    assert!(!ints.contains(&LhsValue::Int(2)));
    // a value of another kind is in no set
    assert!(!ints.contains(&LhsValue::Bool(true)));
    assert!(!ints.contains(&LhsValue::Bytes(b"1".to_vec())));

    let bytes = RhsValues::Bytes(vec![b"ab".to_vec(), b"cd".to_vec()]);
    assert!(bytes.contains(&LhsValue::Bytes(b"cd".to_vec())));
    assert!(!bytes.contains(&LhsValue::Bytes(b"ce".to_vec())));

    let (ips, _) = lex_rhs_values(b"{ 10.0.0.0/8 }", 0, &Type::Ip).unwrap();
    assert!(ips.contains(&LhsValue::Ip(IpAddress::V4(0x0a01_0203))));
    assert!(!ips.contains(&LhsValue::Ip(IpAddress::V4(0x0b00_0000))));
    assert_eq!(ips.get_type(), Type::Ip);
}
