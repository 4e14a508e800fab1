use simd_toon::{to_owned_value, to_owned_value_with_options, DecodeOptions, ErrorType};

fn error_of(src: &str) -> ErrorType {
    let mut b = src.as_bytes().to_vec();
    *to_owned_value(&mut b).unwrap_err().error()
}

#[test]
fn too_many_block_items_is_a_syntax_error_when_strict() {
    assert_eq!(error_of("a[2]:\n  - 1\n  - 2\n  - 3"), ErrorType::Syntax);
}

#[test]
fn too_few_items_is_a_syntax_error_when_strict() {
    assert_eq!(error_of("a[3]:\n  - 1\n  - 2"), ErrorType::Syntax);
    let mut b = b"a[3]:\n  - 1\n  - 2".to_vec();
    assert!(to_owned_value_with_options(&mut b, DecodeOptions::lenient()).is_ok());
}

#[test]
fn a_block_item_needs_its_dash() {
    assert_eq!(error_of("a[2]:\n  x\n  y"), ErrorType::ExpectedArray);
}

#[test]
fn a_nested_line_under_a_value_is_refused() {
    assert_eq!(error_of("a: 1\n  b: 2"), ErrorType::NoStructure);
}

#[test]
fn a_bad_escape_is_an_invalid_string() {
    assert_eq!(error_of("a: \"x\\qy\""), ErrorType::InvalidString);
}

#[test]
fn an_open_quote_is_unterminated() {
    assert_eq!(error_of("a: \"x"), ErrorType::UnterminatedString);
}

#[test]
fn invalid_utf8_is_refused() {
    let mut b = vec![b'a', b':', b' ', 0xc3, 0x28];
    assert_eq!(*to_owned_value(&mut b).unwrap_err().error(), ErrorType::InvalidUtf8);
}

#[test]
fn indentation_must_step_by_the_indent_size() {
    assert_eq!(error_of("a:\n   b: 1"), ErrorType::Syntax);
    let mut b = b"a:\n    b: 1".to_vec();
    let v = to_owned_value_with_options(&mut b, DecodeOptions::new().with_indent_size(4).unwrap()).unwrap();
    assert!(v.get("a").and_then(|inner| inner.get("b")).is_some());
}

#[test]
fn a_key_needs_a_name() {
    assert_eq!(error_of(": 1"), ErrorType::Syntax);
}

#[test]
fn a_row_count_must_be_a_number() {
    assert_eq!(error_of("a[x]: 1"), ErrorType::Syntax);
}

#[test]
fn a_header_without_a_key_cannot_sit_in_an_object() {
    assert_eq!(error_of("a:\n  [2]: 1,2"), ErrorType::NoStructure);
    assert_eq!(error_of("a:\n  [1]{x}:\n    1"), ErrorType::NoStructure);
}

#[test]
fn a_second_bracket_segment_is_refused_when_strict() {
    assert_eq!(error_of("foo[1][bar]: 10"), ErrorType::Syntax);
}
