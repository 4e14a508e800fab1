use simd_toon::{
    to_borrowed_value, to_borrowed_value_with_buffers, to_borrowed_value_with_options, to_owned_value,
    to_owned_value_with_buffers, to_owned_value_with_options, to_tape, to_tape_with_options, Buffers,
    DecodeOptions, Deserializer, ErrorType, Node, Parser, StaticNode, Tape, Value,
};

#[test]
fn options_travel_with_the_parser() {
    let mut parser = Parser::with_options(DecodeOptions::lenient());
    assert!(!parser.options().strict());

    parser.set_options(DecodeOptions::new());
    assert!(parser.options().strict());

    parser.options_mut().set_indent_size(4).unwrap();
    assert_eq!(parser.options().indent_size(), 4);
}

#[test]
fn buffers_are_reused_across_documents() {
    let mut parser = Parser::new();

    let mut first = b"name: Ada".to_vec();
    let value = parser.parse_to_owned_value(&mut first).unwrap();
    assert_eq!(value.get_str("name"), Some("Ada"));

    let mut second = b"name: Bob".to_vec();
    let value = parser.parse_to_owned_value(&mut second).unwrap();
    assert_eq!(value.get_str("name"), Some("Bob"));
}

#[test]
fn every_entry_point_agrees() {
    let mut parser = Parser::new();

    let mut input = b"name: Ada".to_vec();
    let borrowed = parser.parse_to_borrowed_value(&mut input).unwrap();
    assert_eq!(borrowed.get_str("name"), Some("Ada"));

    let mut input = b"name: Ada".to_vec();
    let tape = parser.parse_to_tape(&mut input).unwrap();
    assert_eq!(tape.as_value().get_str("name"), Some("Ada"));

    let mut input = b"name: Ada".to_vec();
    let mut tape = Tape::null();
    parser.fill_tape(&mut input, &mut tape).unwrap();
    assert_eq!(tape.as_value().get_str("name"), Some("Ada"));
}

#[test]
fn free_functions_take_options() {
    let options = DecodeOptions::lenient().with_indent_size(4).unwrap();

    let mut input = b"name: Ada".to_vec();
    let tape = to_tape_with_options(&mut input, options).unwrap();
    assert_eq!(tape.as_value().get_str("name"), Some("Ada"));

    let mut input = b"name: Ada".to_vec();
    let value = to_borrowed_value_with_options(&mut input, options).unwrap();
    assert_eq!(value.get_str("name"), Some("Ada"));

    let mut input = b"name: Ada".to_vec();
    let value = to_owned_value_with_options(&mut input, options).unwrap();
    assert_eq!(value.get_str("name"), Some("Ada"));

    let mut input = b"name: Ada".to_vec();
    let mut buffers = Buffers::default();
    let de = Deserializer::from_slice_with_buffers_and_options(&mut input, &mut buffers, options).unwrap();
    assert_eq!(de.into_tape().as_value().get_str("name"), Some("Ada"));
}

#[test]
fn the_null_tape_holds_null() {
    let tape = Tape::null();
    assert_eq!(tape.nodes(), &vec![Node::Static(StaticNode::Null)]);
    assert_eq!(tape.as_value(), Value::Static(StaticNode::Null));
}

#[test]
fn a_failed_fill_leaves_the_tape_alone() {
    let mut parser = Parser::new();
    let mut tape = Tape::null();
    let mut input = b"a: \"open".to_vec();
    let err = parser.fill_tape(&mut input, &mut tape).unwrap_err();
    assert_eq!(*err.error(), ErrorType::UnterminatedString);
    assert_eq!(tape.nodes(), &vec![Node::Static(StaticNode::Null)]);
}

#[test]
fn a_fill_replaces_what_the_tape_held() {
    let mut parser = Parser::new();
    let mut tape = Tape::null();
    let mut input = b"n: 1".to_vec();
    parser.fill_tape(&mut input, &mut tape).unwrap();
    assert_eq!(
        tape.nodes(),
        &vec![
            Node::Object { len: 1, count: 2 },
            Node::String("n".to_string()),
            Node::Static(StaticNode::I64(1)),
        ]
    );
}

#[test]
fn the_buffers_keep_the_structural_offsets_of_the_last_document() {
    let mut parser = Parser::new();
    assert!(parser.buffers().structural_indexes().is_empty());
    let mut input = b"a: 1".to_vec();
    parser.parse_to_owned_value(&mut input).unwrap();
    // `a`, `:`, `1` and the end of the document
    assert_eq!(parser.buffers().structural_indexes(), &vec![0, 1, 3, 4]);

    let mut buffers = Buffers::new(16);
    let mut input = b"k[2]: x,y".to_vec();
    to_owned_value_with_buffers(&mut input, &mut buffers).unwrap();
    assert_eq!(buffers.structural_indexes(), &vec![0, 1, 2, 3, 4, 6, 7, 8, 9]);
    let _ = parser.buffers_mut();
}

#[test]
fn comments_are_blanked_in_the_input() {
    let mut input = b"name: Hamza\n  # note\nage: 21".to_vec();
    let value = to_owned_value(&mut input).unwrap();
    assert_eq!(input, b"name: Hamza         \nage: 21".to_vec());
    assert_eq!(value.get_str("name"), Some("Hamza"));
    assert_eq!(value.get("age"), Some(&Value::Static(StaticNode::U64(21))));
}

#[test]
fn invalid_utf8_is_refused_and_left_alone() {
    let mut input = vec![b'a', b':', b' ', 0xff, b'\n', b'#', b' ', b'c'];
    let before = input.clone();
    let err = to_owned_value(&mut input).unwrap_err();
    assert_eq!(*err.error(), ErrorType::InvalidUtf8);
    assert_eq!(input, before);
}

#[test]
fn an_open_quote_is_an_unterminated_string() {
    let mut input = b"a: \"x".to_vec();
    let err = to_borrowed_value(&mut input).unwrap_err();
    assert_eq!(*err.error(), ErrorType::UnterminatedString);
}

#[test]
fn the_default_entry_points_are_strict() {
    // two items declared, three given
    let mut input = b"a[2]:\n  - 1\n  - 2\n  - 3".to_vec();
    assert!(to_owned_value(&mut input).is_err());
    let mut input = b"a[2]:\n  - 1\n  - 2\n  - 3".to_vec();
    assert!(to_tape(&mut input).is_err());
    let mut input = b"a[2]:\n  - 1\n  - 2\n  - 3".to_vec();
    assert!(to_owned_value_with_options(&mut input, DecodeOptions::lenient()).is_ok());
}

#[test]
fn repeated_keys_keep_their_first_place_and_last_value() {
    let mut input = b"a: 1\nb: 2\na: 3".to_vec();
    let mut buffers = Buffers::default();
    let value = to_borrowed_value_with_buffers(&mut input, &mut buffers).unwrap();
    assert_eq!(
        value,
        Value::Object(vec![
            ("a".to_string(), Value::Static(StaticNode::I64(3))),
            ("b".to_string(), Value::Static(StaticNode::I64(2))),
        ])
    );
}

#[test]
fn the_value_and_the_tape_describe_the_same_document() {
    let src = "user:\n  id: 7\n  tags[2]: x,y\nok: true";
    let mut parser = Parser::new();
    let mut a = src.as_bytes().to_vec();
    let value = parser.parse_to_owned_value(&mut a).unwrap();
    let mut b = src.as_bytes().to_vec();
    let tape = parser.parse_to_tape(&mut b).unwrap();
    assert_eq!(tape.as_value(), value);
    let mut c = src.as_bytes().to_vec();
    let de = Deserializer::from_slice(&mut c).unwrap();
    assert_eq!(de.tape(), tape.nodes());
    assert_eq!(de.into_value(), value);
}

#[test]
fn get_looks_only_into_objects() {
    let mut input = b"[2]: a, b".to_vec();
    let value = to_owned_value(&mut input).unwrap();
    assert_eq!(value.get("a"), None);
    assert_eq!(value.get_str("a"), None);
    let mut input = b"n: 5\ns: text".to_vec();
    let value = to_owned_value(&mut input).unwrap();
    assert_eq!(value.get_str("n"), None);
    assert_eq!(value.get_str("s"), Some("text"));
    assert_eq!(value.get_str("missing"), None);
    assert_eq!(value.get("s").and_then(|v| v.as_str()), Some("text"));
}

#[test]
fn a_bare_key_before_a_dedent_is_an_empty_object() {
    let mut input = b"a:\n  b:\nc: 1".to_vec();
    let value = to_owned_value(&mut input).unwrap();
    assert_eq!(
        value,
        Value::Object(vec![
            ("a".to_string(), Value::Object(vec![("b".to_string(), Value::Object(vec![]))])),
            ("c".to_string(), Value::Static(StaticNode::U64(1))),
        ])
    );
}

#[test]
fn nested_field_groups_fill_nested_objects() {
    let mut input = b"rows[2]{a,b{c,d},e}:\n  1,2,3,4\n  5,6,7,8".to_vec();
    let value = to_owned_value(&mut input).unwrap();
    let row = |a: u64, c: u64, d: u64, e: u64| {
        Value::Object(vec![
            ("a".to_string(), Value::Static(StaticNode::U64(a))),
            (
                "b".to_string(),
                Value::Object(vec![
                    ("c".to_string(), Value::Static(StaticNode::U64(c))),
                    ("d".to_string(), Value::Static(StaticNode::U64(d))),
                ]),
            ),
            ("e".to_string(), Value::Static(StaticNode::U64(e))),
        ])
    };
    assert_eq!(value.get("rows"), Some(&Value::Array(vec![row(1, 2, 3, 4), row(5, 6, 7, 8)])));
}

#[test]
fn a_lenient_root_table_takes_the_rows_it_finds() {
    let mut input = b"[5]{x}:\n  1\n  2".to_vec();
    let value = to_owned_value_with_options(&mut input, DecodeOptions::lenient()).unwrap();
    assert_eq!(
        value,
        Value::Array(vec![
            Value::Object(vec![("x".to_string(), Value::Static(StaticNode::U64(1)))]),
            Value::Object(vec![("x".to_string(), Value::Static(StaticNode::U64(2)))]),
        ])
    );
    let mut input = b"[5]{x}:\n  1\n  2".to_vec();
    assert!(to_owned_value(&mut input).is_err());
}

#[test]
fn alternative_delimiters_split_inline_arrays() {
    let mut input = b"a[3|]: x|y z|w".to_vec();
    let value = to_owned_value(&mut input).unwrap();
    assert_eq!(
        value.get("a"),
        Some(&Value::Array(vec![
            Value::String("x".to_string()),
            Value::String("y z".to_string()),
            Value::String("w".to_string()),
        ]))
    );
}

#[test]
fn a_lone_value_is_the_whole_document() {
    let mut input = b"hello".to_vec();
    assert_eq!(to_owned_value(&mut input).unwrap(), Value::String("hello".to_string()));
    let mut input = b"42".to_vec();
    assert_eq!(to_owned_value(&mut input).unwrap(), Value::Static(StaticNode::U64(42)));
}
