use simd_toon::comments::CommentStripper;
use simd_toon::stage1::find_structural_indexes;
use simd_toon::stage2::build_tape;
use simd_toon::value::{read_value, write_value};
use simd_toon::{ErrorType, Node, StaticNode, Value};

fn strip(s: &str) -> String {
    let mut b = s.as_bytes().to_vec();
    CommentStripper::new(b.len()).strip(&mut b);
    String::from_utf8(b).unwrap()
}

#[test]
fn comment_lines_and_the_newline_before_them_are_blanked() {
    assert_eq!(strip("a: 1\n# c\nb: 2"), "a: 1    \nb: 2");
    assert_eq!(strip("# head\na: 1"), "      \na: 1");
    assert_eq!(strip("a: 1\n  # c1\n# c2\nb: 2"), "a: 1            \nb: 2");
    assert_eq!(strip("a: #x\nb: 2"), "a: #x\nb: 2");
    assert_eq!(strip("a: 1\n\t# x"), "a: 1\n\t# x");
    assert_eq!(strip("a: 1\n# last"), "a: 1       ");
    assert_eq!(strip(""), "");
}

#[test]
fn structural_offsets_end_with_the_document_end() {
    let mut out = Vec::new();
    find_structural_indexes(&b"a: x y, \"q:\" | b".to_vec(), &mut out).unwrap();
    // every word of a multi-word value starts a token; the quoted `:` does not
    assert_eq!(out, vec![0, 1, 3, 5, 6, 8, 13, 15, 16]);

    let mut out = vec![99];
    find_structural_indexes(&Vec::new(), &mut out).unwrap();
    assert_eq!(out, vec![0]);
}

#[test]
fn an_escaped_quote_does_not_close_a_string() {
    let mut out = Vec::new();
    find_structural_indexes(&b"\"a\\\"b\": 1".to_vec(), &mut out).unwrap();
    assert_eq!(out, vec![0, 6, 8, 9]);
    let err = find_structural_indexes(&b"\"a\\\"".to_vec(), &mut out).unwrap_err();
    assert_eq!(err.error, ErrorType::UnterminatedString);
}

#[test]
fn reading_a_tape_applies_last_write_wins() {
    let tape = vec![
        Node::Object { len: 3, count: 6 },
        Node::String("a".to_string()),
        Node::Static(StaticNode::I64(1)),
        Node::String("b".to_string()),
        Node::Static(StaticNode::Null),
        Node::String("a".to_string()),
        Node::Static(StaticNode::I64(3)),
    ];
    let (v, end) = read_value(&tape, 0).unwrap();
    assert_eq!(end, 7);
    assert_eq!(
        v,
        Value::Object(vec![
            ("a".to_string(), Value::Static(StaticNode::I64(3))),
            ("b".to_string(), Value::Static(StaticNode::Null)),
        ])
    );
    let mut out = Vec::new();
    write_value(&v, &mut out);
    assert_eq!(
        out,
        vec![
            Node::Object { len: 2, count: 4 },
            Node::String("a".to_string()),
            Node::Static(StaticNode::I64(3)),
            Node::String("b".to_string()),
            Node::Static(StaticNode::Null),
        ]
    );
    let (again, end) = read_value(&out, 0).unwrap();
    assert_eq!(end, out.len());
    assert_eq!(again, v);
}

#[test]
fn malformed_tapes_do_not_read() {
    // a count that does not match the nodes below
    let tape = vec![Node::Array { len: 1, count: 2 }, Node::Static(StaticNode::Null)];
    assert!(read_value(&tape, 0).is_none());
    // a key that is not a string
    let tape = vec![
        Node::Object { len: 1, count: 2 },
        Node::Static(StaticNode::Null),
        Node::Static(StaticNode::Null),
    ];
    assert!(read_value(&tape, 0).is_none());
    // fewer nodes than entries
    let tape = vec![Node::Array { len: 2, count: 1 }, Node::Static(StaticNode::Null)];
    assert!(read_value(&tape, 0).is_none());
    assert!(read_value(&Vec::new(), 0).is_none());
}

#[test]
fn nested_values_flatten_in_pre_order() {
    let v = Value::Array(vec![
        Value::Array(vec![]),
        Value::Object(vec![("k".to_string(), Value::String("v".to_string()))]),
    ]);
    let mut out = vec![Node::Static(StaticNode::Bool(true))];
    write_value(&v, &mut out);
    assert_eq!(
        out,
        vec![
            Node::Static(StaticNode::Bool(true)),
            Node::Array { len: 2, count: 4 },
            Node::Array { len: 0, count: 0 },
            Node::Object { len: 1, count: 2 },
            Node::String("k".to_string()),
            Node::String("v".to_string()),
        ]
    );
    let (back, end) = read_value(&out, 1).unwrap();
    assert_eq!(back, v);
    assert_eq!(end, 6);
}

fn tape_of(doc: &str, strict: bool) -> Result<Vec<Node>, simd_toon::Error> {
    let bytes = doc.as_bytes().to_vec();
    let mut si = Vec::new();
    find_structural_indexes(&bytes, &mut si).unwrap();
    let mut padded = bytes.clone();
    padded.push(b'\n');
    build_tape(&padded, &si, strict, 2)
}

#[test]
fn a_document_of_one_value_is_a_tape_of_that_value() {
    assert_eq!(tape_of("42", true).unwrap(), vec![Node::Static(StaticNode::I64(42))]);
    assert_eq!(tape_of("\n\nhello", true).unwrap(), vec![Node::String("hello".to_string())]);
    assert_eq!(tape_of("true  ", true).unwrap(), vec![Node::Static(StaticNode::Bool(true))]);
    // a value followed by more lines
    assert!(tape_of("1\n2", true).is_err());
}

#[test]
fn keyed_tabular_rows_become_objects_under_their_names() {
    let t = tape_of("rows[2:]{a,b}:\n  x: 1,2\n  y: 3,4", true).unwrap();
    assert!(matches!(t[0], Node::Object { .. }));
    assert!(t.contains(&Node::String("x".to_string())));
    assert!(t.contains(&Node::String("y".to_string())));
    // one row fewer than declared
    assert!(tape_of("rows[2:]{a,b}:\n  x: 1,2", true).is_err());
}

#[test]
fn a_two_level_dedent_closes_both_nested_objects() {
    let t = tape_of("a:\n  b:\n    c: 1\nd: 2", true).unwrap();
    assert_eq!(
        t,
        vec![
            Node::Object { len: 2, count: 8 },
            Node::String("a".to_string()),
            Node::Object { len: 1, count: 4 },
            Node::String("b".to_string()),
            Node::Object { len: 1, count: 2 },
            Node::String("c".to_string()),
            Node::Static(StaticNode::U64(1)),
            Node::String("d".to_string()),
            Node::Static(StaticNode::U64(2)),
        ]
    );
}

#[test]
fn a_key_with_nothing_below_is_an_empty_object() {
    let t = tape_of("x:\ny: 1", true).unwrap();
    assert_eq!(
        t,
        vec![
            Node::Object { len: 2, count: 4 },
            Node::String("x".to_string()),
            Node::Object { len: 0, count: 0 },
            Node::String("y".to_string()),
            Node::Static(StaticNode::U64(1)),
        ]
    );
    // a line indented by no level is refused
    assert!(tape_of("a:\n   b: 1", true).is_err());
}
