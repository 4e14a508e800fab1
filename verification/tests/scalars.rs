use simd_toon::scalar::{classify_bytes, decode_string, infer_value, parse_number, BasicTypes, StringError};
use simd_toon::{Node, StaticNode};

fn infer(s: &str) -> Result<Node, StringError> {
    let b = s.as_bytes();
    infer_value(b, 0, b.len())
}

#[test]
fn integers_fit_sixty_four_bits() {
    assert_eq!(parse_number(b"0"), Some(StaticNode::U64(0)));
    assert_eq!(parse_number(b"42"), Some(StaticNode::U64(42)));
    assert_eq!(parse_number(b"-17"), Some(StaticNode::I64(-17)));
    assert_eq!(parse_number(b"18446744073709551615"), Some(StaticNode::U64(u64::MAX)));
    assert_eq!(parse_number(b"-9223372036854775808"), Some(StaticNode::I64(i64::MIN)));
}

#[test]
fn numbers_beyond_sixty_four_bits_keep_their_text() {
    assert_eq!(
        parse_number(b"18446744073709551616"),
        Some(StaticNode::Float("18446744073709551616".to_string()))
    );
    assert_eq!(
        parse_number(b"-9223372036854775809"),
        Some(StaticNode::Float("-9223372036854775809".to_string()))
    );
}

#[test]
fn fractions_and_exponents_keep_their_text() {
    assert_eq!(parse_number(b"9.99"), Some(StaticNode::Float("9.99".to_string())));
    assert_eq!(parse_number(b"-0e1"), Some(StaticNode::Float("-0e1".to_string())));
    assert_eq!(parse_number(b"1E+6"), Some(StaticNode::Float("1E+6".to_string())));
    let text = match parse_number(b"2.5e-3") {
        Some(StaticNode::Float(t)) => t,
        other => panic!("unexpected {other:?}"),
    };
    assert_eq!(text.parse::<f64>().unwrap(), 0.0025);
}

#[test]
fn malformed_numbers_are_refused() {
    for bad in ["", "-", "01", "1.", ".5", "1e", "1e+", "+1", "1.2.3", "12a", "--1"] {
        assert_eq!(parse_number(bad.as_bytes()), None, "{bad:?}");
    }
}

#[test]
fn integer_kinds_compare_by_value() {
    assert_eq!(StaticNode::I64(7), StaticNode::U64(7));
    assert_eq!(StaticNode::U64(7), StaticNode::I64(7));
    assert_ne!(StaticNode::I64(-1), StaticNode::U64(u64::MAX));
    assert_ne!(StaticNode::Float("1.0".to_string()), StaticNode::Float("1.00".to_string()));
    assert_ne!(StaticNode::Null, StaticNode::Bool(false));
}

#[test]
fn value_tokens_are_inferred() {
    assert_eq!(infer("true").unwrap(), Node::Static(StaticNode::Bool(true)));
    assert_eq!(infer("false").unwrap(), Node::Static(StaticNode::Bool(false)));
    assert_eq!(infer("null").unwrap(), Node::Static(StaticNode::Null));
    assert_eq!(infer("12").unwrap(), Node::Static(StaticNode::U64(12)));
    assert_eq!(infer("05").unwrap(), Node::String("05".to_string()));
    assert_eq!(infer("-").unwrap(), Node::String("-".to_string()));
    assert_eq!(infer("True").unwrap(), Node::String("True".to_string()));
    assert_eq!(infer("\"true\"").unwrap(), Node::String("true".to_string()));
    assert_eq!(infer("\"12\"").unwrap(), Node::String("12".to_string()));
    assert_eq!(infer("hello world").unwrap(), Node::String("hello world".to_string()));
}

#[test]
fn escapes_are_resolved() {
    let t = br#""a\"b\\c\/d\b\f\n\r\t""#;
    assert_eq!(decode_string(t, 0, t.len()).unwrap(), "a\"b\\c/d\u{8}\u{c}\n\r\t");
    let t = br#""\u00e9\u4e2d""#;
    assert_eq!(decode_string(t, 0, t.len()).unwrap(), "é中");
    let t = br#""\ud83d\ude00""#;
    assert_eq!(decode_string(t, 0, t.len()).unwrap(), "😀");
    let t = br#""""#;
    assert_eq!(decode_string(t, 0, t.len()).unwrap(), "");
}

#[test]
fn bad_quoting_is_refused() {
    for bad in [r#""open"#, r#""a\qb""#, r#""a"b""#, r#""\u12""#, r#""\ud83d""#, r#""\ude00""#, "\""] {
        let b = bad.as_bytes();
        assert_eq!(decode_string(b, 0, b.len()), Err(StringError::BadQuoting), "{bad:?}");
    }
}

#[test]
fn unquoted_tokens_stand_for_themselves() {
    let b = b"key: some value";
    assert_eq!(decode_string(b, 5, b.len()).unwrap(), "some value");
    assert_eq!(decode_string(b, 0, 3).unwrap(), "key");
    let bad = [b'a', 0xc3];
    assert_eq!(decode_string(&bad, 0, 2), Err(StringError::NotUtf8));
}

#[test]
fn tokens_are_classified() {
    assert_eq!(classify_bytes(b"true"), BasicTypes::Boolean(true));
    assert_eq!(classify_bytes(b"false"), BasicTypes::Boolean(false));
    assert_eq!(classify_bytes(b"null"), BasicTypes::Null);
    assert_eq!(classify_bytes(b"-1.5e+3"), BasicTypes::Number);
    assert_eq!(classify_bytes(b"1.2.3"), BasicTypes::String);
    assert_eq!(classify_bytes(b"."), BasicTypes::String);
    assert_eq!(classify_bytes(b"-"), BasicTypes::String);
    assert_eq!(classify_bytes(b"abc"), BasicTypes::String);
}
