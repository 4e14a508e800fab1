use simd_toon::{DecodeOptions, ErrorType, DEFAULT_INDENT_SIZE};

#[test]
fn defaults_are_spec_defaults() {
    let options = DecodeOptions::default();
    assert!(options.strict());
    assert_eq!(options.indent_size(), DEFAULT_INDENT_SIZE);
    assert_eq!(options, DecodeOptions::new());
}

#[test]
fn builders_and_setters_agree() {
    let built = DecodeOptions::new().with_strict(false).with_indent_size(4);
    let built = built.unwrap();

    let mut set = DecodeOptions::new();
    set.set_strict(false);
    set.set_indent_size(4).unwrap();

    assert_eq!(built, set);
    assert_eq!(built, DecodeOptions::lenient().with_indent_size(4).unwrap());
}

#[test]
fn zero_indent_size_is_rejected() {
    let err = DecodeOptions::new().with_indent_size(0).err().unwrap();
    assert_eq!(*err.error(), ErrorType::InvalidIndentSize);

    let mut options = DecodeOptions::new();
    assert!(options.set_indent_size(0).is_err());
    // a rejected value leaves the options untouched
    assert_eq!(options.indent_size(), DEFAULT_INDENT_SIZE);
}

#[test]
fn lenient_is_new_without_strictness() {
    assert_eq!(DecodeOptions::lenient(), DecodeOptions::new().with_strict(false));
    assert!(!DecodeOptions::lenient().strict());
    assert_eq!(DecodeOptions::lenient().indent_size(), 2);
}

#[test]
fn rejected_builder_keeps_strictness_and_width() {
    let options = DecodeOptions::lenient().with_indent_size(3).unwrap();
    assert!(options.with_indent_size(0).is_err());
    assert_eq!(options.indent_size(), 3);
    assert!(!options.strict());
}

#[test]
fn setters_change_only_their_own_setting() {
    let mut options = DecodeOptions::new();
    options.set_indent_size(8).unwrap();
    assert!(options.strict());
    options.set_strict(false);
    assert_eq!(options.indent_size(), 8);
    options.set_strict(true);
    assert_eq!(options, DecodeOptions::new().with_indent_size(8).unwrap());
}
