use simd_toon::{DecodeOptions, Deserializer, Node, StaticNode};

#[test]
fn test_root_keyless_block_array() {
    let mut d = String::from("[2]:\n  - a\n  - b").into_bytes();
    let simd = Deserializer::from_slice(&mut d).expect("");
    assert_eq!(
        simd.tape(),
        &vec![
            Node::Array { len: 2, count: 2 },
            Node::String("a".to_string()),
            Node::String("b".to_string()),
        ]
    );
}

#[test]
fn test_root_keyless_inline_array() {
    let mut d = String::from("[2]: a, b").into_bytes();
    let simd = Deserializer::from_slice(&mut d).expect("");
    assert_eq!(
        simd.tape(),
        &vec![
            Node::Array { len: 2, count: 2 },
            Node::String("a".to_string()),
            Node::String("b".to_string()),
        ]
    );
}

#[test]
fn test_empty_root_array_with_key() {
    let mut d = String::from("items[0]:").into_bytes();
    let simd = Deserializer::from_slice(&mut d).expect("");
    assert_eq!(
        simd.tape(),
        &vec![
            Node::Object { len: 1, count: 2 },
            Node::String("items".to_string()),
            Node::Array { len: 0, count: 0 },
        ]
    );
}

#[test]
fn test_empty_root_array_without_key() {
    let mut d = String::from("[0]:\n       #   lasndflk;ansdf;lnasdf").into_bytes();
    let simd = Deserializer::from_slice(&mut d).expect("");
    assert_eq!(simd.tape(), &vec![Node::Array { len: 0, count: 0 },]);
}

#[test]
fn playground() {
    let mut d = String::from("value: -0e1").into_bytes();
    let simd = Deserializer::from_slice(&mut d).expect("");
    println!("{:?}", simd.tape())
}

#[test]
fn test_tape_object_simple() {
    let mut d = String::from("a:\n  b:\n    c: Hamza\n  d: Dadda").into_bytes();
    let decode_options = DecodeOptions::lenient();
    let simd = Deserializer::from_slice_with_options(&mut d, decode_options).expect("");
    println!("{:?}", simd.tape());
    assert_eq!(
        simd.tape(),
        &vec![
            Node::Object { len: 1, count: 8 },
            Node::String("a".to_string()),
            Node::Object { len: 2, count: 6 },
            Node::String("b".to_string()),
            Node::Object { len: 1, count: 2 },
            Node::String("c".to_string()),
            Node::String("Hamza".to_string()),
            Node::String("d".to_string()),
            Node::String("Dadda".to_string())
        ]
    );
}

#[test]
fn test_nested_block_array_items() {
    let mut d = String::from(
        r"geodata[3]:
  - [2]: 7.69,47.54
  - [2]:
    - 8.71
    - 47.69
  - [2]{lat,lng}:
    9.12,48.11
    9.15,48.15
",
    ).into_bytes();
    let simd = Deserializer::from_slice(&mut d).expect("failed to parse");
    assert_eq!(
        simd.tape(),
        &vec![
            Node::Object { len: 1, count: 19 },
            Node::String("geodata".to_string()),
            Node::Array { len: 3, count: 17 },
            Node::Array { len: 2, count: 2 },
            Node::Static(StaticNode::Float("7.69".to_string())),
            Node::Static(StaticNode::Float("47.54".to_string())),
            Node::Array { len: 2, count: 2 },
            Node::Static(StaticNode::Float("8.71".to_string())),
            Node::Static(StaticNode::Float("47.69".to_string())),
            Node::Array { len: 2, count: 10 },
            Node::Object { len: 2, count: 4 },
            Node::String("lat".to_string()),
            Node::Static(StaticNode::Float("9.12".to_string())),
            Node::String("lng".to_string()),
            Node::Static(StaticNode::Float("48.11".to_string())),
            Node::Object { len: 2, count: 4 },
            Node::String("lat".to_string()),
            Node::Static(StaticNode::Float("9.15".to_string())),
            Node::String("lng".to_string()),
            Node::Static(StaticNode::Float("48.15".to_string())),
        ]
    );
}

#[test]
fn test_keyed_tabular_objects() {
    let mut d = String::from("users[2:]{age,city}:\n  alice: 30,Berlin\n  bob: 25,Oslo\n").into_bytes();
    let simd = Deserializer::from_slice(&mut d).expect("failed to parse");
    println!("{:?}", simd.tape());
    assert_eq!(
        simd.tape(),
        &vec![
            Node::Object { len: 1, count: 14 },
            Node::String("users".to_string()),
            Node::Object { len: 2, count: 12 },
            Node::String("alice".to_string()),
            Node::Object { len: 2, count: 4 },
            Node::String("age".to_string()),
            Node::Static(StaticNode::U64(30)),
            Node::String("city".to_string()),
            Node::String("Berlin".to_string()),
            Node::String("bob".to_string()),
            Node::Object { len: 2, count: 4 },
            Node::String("age".to_string()),
            Node::Static(StaticNode::U64(25)),
            Node::String("city".to_string()),
            Node::String("Oslo".to_string()),
        ]
    );
}

#[test]
fn test_null_in_array() {
    let mut d = String::from("arr[4]: 1,null,2,null").into_bytes();
    let simd = Deserializer::from_slice(&mut d).expect("failed to parse");
    assert_eq!(
        simd.tape(),
        &vec![
            Node::Object { len: 1, count: 6 },
            Node::String("arr".to_string()),
            Node::Array { len: 4, count: 4 },
            Node::Static(StaticNode::U64(1)),
            Node::Static(StaticNode::Null),
            Node::Static(StaticNode::U64(2)),
            Node::Static(StaticNode::Null),
        ]
    );
}

#[test]
fn test_deeply_nested_rows_elements() {
    let mut d = String::from(
        r"rows[1]:
  - elements[1]:
      - distance:
          text: 1 m",
    ).into_bytes();
    let decode_options = DecodeOptions::lenient();
    let simd = Deserializer::from_slice_with_options(&mut d, decode_options).expect("failed to parse");
    assert_eq!(
        simd.tape(),
        &vec![
            Node::Object { len: 1, count: 10 },
            Node::String("rows".to_string()),
            Node::Array { len: 1, count: 8 },
            Node::Object { len: 1, count: 7 },
            Node::String("elements".to_string()),
            Node::Array { len: 1, count: 5 },
            Node::Object { len: 1, count: 4 },
            Node::String("distance".to_string()),
            Node::Object { len: 1, count: 2 },
            Node::String("text".to_string()),
            Node::String("1 m".to_string()),
        ]
    );
}

#[test]
fn test_multiline_array_with_indented_strings() {
    let mut d = String::from("users[3]:\n  - Eren Yeager\n  - Mikasa Akarman\n  - Armin Arlert").into_bytes();

    let simd = Deserializer::from_slice(&mut d).expect("failed to parse");

    assert_eq!(
        simd.tape(),
        &vec![
            Node::Object { len: 1, count: 5 },
            Node::String("users".to_string()),
            Node::Array { len: 3, count: 3 },
            Node::String("Eren Yeager".to_string()),
            Node::String("Mikasa Akarman".to_string()),
            Node::String("Armin Arlert".to_string()),
        ]
    );
}

#[test]
fn test_multi_word_strings_within_arrays() {
    let mut d = String::from("names[2]: hamza dadda, Arima Kousei").into_bytes();
    let simd = Deserializer::from_slice(&mut d).expect("failed to parse");

    assert_eq!(
        simd.tape(),
        &vec![
            Node::Object { len: 1, count: 4 },
            Node::String("names".to_string()),
            Node::Array { len: 2, count: 2 },
            Node::String("hamza dadda".to_string()),
            Node::String("Arima Kousei".to_string()),
        ]
    );
}

#[test]
fn test_multi_word_strings_within_objects() {
    let mut d = String::from("fullName: Hamza DADDA\nage: 21").into_bytes();
    let simd = Deserializer::from_slice(&mut d).expect("failed to parse");

    assert_eq!(
        simd.tape(),
        &vec![
            Node::Object { len: 2, count: 4 },
            Node::String("fullName".to_string()),
            Node::String("Hamza DADDA".to_string()),
            Node::String("age".to_string()),
            Node::Static(StaticNode::U64(21)),
        ]
    );
}
#[test]
fn test_tape_inline_string_array() {
    let mut d = String::from("tags[3]: rust,parser,simd").into_bytes();
    let simd = Deserializer::from_slice(&mut d).expect("failed to parse");
    assert_eq!(
        simd.tape(),
        &vec![
            Node::Object { len: 1, count: 5 },
            Node::String("tags".to_string()),
            Node::Array { len: 3, count: 3 },
            Node::String("rust".to_string()),
            Node::String("parser".to_string()),
            Node::String("simd".to_string()),
        ]
    );
}

#[test]
fn test_tape_inline_number_array() {
    let mut d = String::from("numbers[3]: 1,2,3\n").into_bytes();
    let simd = Deserializer::from_slice(&mut d).expect("failed to parse");
    println!("{:?}", simd.tape());
    assert_eq!(
        simd.tape(),
        &vec![
            Node::Object { len: 1, count: 5 },
            Node::String("numbers".to_string()),
            Node::Array { len: 3, count: 3 },
            Node::Static(StaticNode::U64(1)),
            Node::Static(StaticNode::U64(2)),
            Node::Static(StaticNode::U64(3)),
        ]
    );
}

#[test]
fn test_tape_inline_bool_array() {
    let mut d = String::from("flags[3]: true,false,true").into_bytes();
    let simd = Deserializer::from_slice(&mut d).expect("failed to parse");
    assert_eq!(
        simd.tape(),
        &vec![
            Node::Object { len: 1, count: 5 },
            Node::String("flags".to_string()),
            Node::Array { len: 3, count: 3 },
            Node::Static(StaticNode::Bool(true)),
            Node::Static(StaticNode::Bool(false)),
            Node::Static(StaticNode::Bool(true)),
        ]
    );
}

#[test]
fn test_tape_empty_array() {
    let mut d = String::from("empty[0]:\nother: val").into_bytes();
    let simd = Deserializer::from_slice(&mut d).expect("failed to parse");
    assert_eq!(
        simd.tape(),
        &vec![
            Node::Object { len: 2, count: 4 },
            Node::String("empty".to_string()),
            Node::Array { len: 0, count: 0 },
            Node::String("other".to_string()),
            Node::String("val".to_string()),
        ]
    );
}

#[test]
fn test_tape_array_with_sibling_key() {
    // Array followed by another key-value pair
    let mut d = String::from("tags[3]: rust,parser,simd\nver: 1").into_bytes();
    let simd = Deserializer::from_slice(&mut d).expect("failed to parse");
    assert_eq!(
        simd.tape(),
        &vec![
            Node::Object { len: 2, count: 7 },
            Node::String("tags".to_string()),
            Node::Array { len: 3, count: 3 },
            Node::String("rust".to_string()),
            Node::String("parser".to_string()),
            Node::String("simd".to_string()),
            Node::String("ver".to_string()),
            Node::Static(StaticNode::U64(1)),
        ]
    );
}

#[test]
fn test_tape_complex_object_array() {
    // The input string with your specific formatting
    let mut d = String::from("items[2]{sku,qty,price}:\n  A1,2,9.99\n  B2,1,14.5\n").into_bytes();

    let simd = Deserializer::from_slice(&mut d).expect("failed to parse");

    // Comparing against your provided Node tape
    assert_eq!(
        simd.tape(),
        &vec![
            Node::Object { len: 1, count: 16 },
            Node::String("items".to_string()),
            Node::Array { len: 2, count: 14 },
            // First item in the array
            Node::Object { len: 3, count: 6 },
            Node::String("sku".to_string()),
            Node::String("A1".to_string()),
            Node::String("qty".to_string()),
            Node::Static(StaticNode::U64(2)),
            Node::String("price".to_string()),
            Node::Static(StaticNode::Float("9.99".to_string())),
            // Second item in the array
            Node::Object { len: 3, count: 6 },
            Node::String("sku".to_string()),
            Node::String("B2".to_string()),
            Node::String("qty".to_string()),
            Node::Static(StaticNode::U64(1)),
            Node::String("price".to_string()),
            Node::Static(StaticNode::Float("14.5".to_string())),
        ]
    );
}

#[test]
fn test_tape_tabular_string_array() {
    // users[2]{id,name}:\n  1,Alice\n  2,Bob
    let mut d = String::from("users[2]{id,name}:\n  1,Alice\n  2,Bob").into_bytes();
    let simd = Deserializer::from_slice(&mut d).expect("failed to parse");
    println!("{:?}", simd.tape());
    assert_eq!(
        simd.tape(),
        &vec![
            Node::Object { len: 1, count: 12 },
            Node::String("users".to_string()),
            Node::Array { len: 2, count: 10 },
            Node::Object { len: 2, count: 4 },
            Node::String("id".to_string()),
            Node::Static(StaticNode::U64(1)),
            Node::String("name".to_string()),
            Node::String("Alice".to_string()),
            Node::Object { len: 2, count: 4 },
            Node::String("id".to_string()),
            Node::Static(StaticNode::U64(2)),
            Node::String("name".to_string()),
            Node::String("Bob".to_string()),
        ]
    );
}

#[test]
fn test_tape_tabular_mixed_types() {
    // items[2]{sku,qty,price}:\n  A1,2,9.99\n  B2,1,14.5
    let mut d = String::from("items[2]{sku,qty,price}:\n  A1,2,9.99\n  B2,1,14.5").into_bytes();
    let simd = Deserializer::from_slice(&mut d).expect("failed to parse");
    println!("{:?}", simd.tape());
    assert_eq!(
        simd.tape(),
        &vec![
            Node::Object { len: 1, count: 16 },
            Node::String("items".to_string()),
            Node::Array { len: 2, count: 14 },
            Node::Object { len: 3, count: 6 },
            Node::String("sku".to_string()),
            Node::String("A1".to_string()),
            Node::String("qty".to_string()),
            Node::Static(StaticNode::U64(2)),
            Node::String("price".to_string()),
            Node::Static(StaticNode::Float("9.99".to_string())),
            Node::Object { len: 3, count: 6 },
            Node::String("sku".to_string()),
            Node::String("B2".to_string()),
            Node::String("qty".to_string()),
            Node::Static(StaticNode::U64(1)),
            Node::String("price".to_string()),
            Node::Static(StaticNode::Float("14.5".to_string())),
        ]
    );
}

#[test]
fn test_tape_tabular_with_sibling_key() {
    // Tabular array followed by another key-value pair at the same level
    let mut d = String::from("users[2]{id,name}:\n  1,Alice\n  2,Bob\nver: 2").into_bytes();
    let simd = Deserializer::from_slice(&mut d).expect("failed to parse");
    println!("{:?}", simd.tape());
    assert_eq!(
        simd.tape(),
        &vec![
            Node::Object { len: 2, count: 14 },
            Node::String("users".to_string()),
            Node::Array { len: 2, count: 10 },
            Node::Object { len: 2, count: 4 },
            Node::String("id".to_string()),
            Node::Static(StaticNode::U64(1)),
            Node::String("name".to_string()),
            Node::String("Alice".to_string()),
            Node::Object { len: 2, count: 4 },
            Node::String("id".to_string()),
            Node::Static(StaticNode::U64(2)),
            Node::String("name".to_string()),
            Node::String("Bob".to_string()),
            Node::String("ver".to_string()),
            Node::Static(StaticNode::U64(2)),
        ]
    );
}

#[test]
fn test_tape_block_array_mixed_items() {
    let mut d = String::from("items[3]:\n  - 1\n  - a: 1\n  - text").into_bytes();
    let simd = Deserializer::from_slice(&mut d).expect("failed to parse");

    assert_eq!(
        simd.tape(),
        &vec![
            Node::Object { len: 1, count: 7 },
            Node::String("items".to_string()),
            Node::Array { len: 3, count: 5 },
            Node::Static(StaticNode::U64(1)),
            Node::Object { len: 1, count: 2 },
            Node::String("a".to_string()),
            Node::Static(StaticNode::U64(1)),
            Node::String("text".to_string()),
        ]
    );
}

#[test]
fn test_tape_block_array_object_items() {
    let mut d = String::from(
        "items[2]:\n  - id: 1\n    name: First\n  - id: 2\n    name: Second\n    extra: true",
    ).into_bytes();
    let simd = Deserializer::from_slice(&mut d).expect("failed to parse");

    assert_eq!(
        simd.tape(),
        &vec![
            Node::Object { len: 1, count: 14 },
            Node::String("items".to_string()),
            Node::Array { len: 2, count: 12 },
            Node::Object { len: 2, count: 4 },
            Node::String("id".to_string()),
            Node::Static(StaticNode::U64(1)),
            Node::String("name".to_string()),
            Node::String("First".to_string()),
            Node::Object { len: 3, count: 6 },
            Node::String("id".to_string()),
            Node::Static(StaticNode::U64(2)),
            Node::String("name".to_string()),
            Node::String("Second".to_string()),
            Node::String("extra".to_string()),
            Node::Static(StaticNode::Bool(true)),
        ]
    );
}

#[test]
fn test_tape_block_array_object_first_tabular_field_with_sibling() {
    let mut d = String::from(
        "items[1]:\n  - users[2]{id,name}:\n      1,Ada\n      2,Bob\n    status: active",
    ).into_bytes();
    let simd = Deserializer::from_slice(&mut d).expect("failed to parse");

    assert_eq!(
        simd.tape(),
        &vec![
            Node::Object { len: 1, count: 17 },
            Node::String("items".to_string()),
            Node::Array { len: 1, count: 15 },
            Node::Object { len: 2, count: 14 },
            Node::String("users".to_string()),
            Node::Array { len: 2, count: 10 },
            Node::Object { len: 2, count: 4 },
            Node::String("id".to_string()),
            Node::Static(StaticNode::U64(1)),
            Node::String("name".to_string()),
            Node::String("Ada".to_string()),
            Node::Object { len: 2, count: 4 },
            Node::String("id".to_string()),
            Node::Static(StaticNode::U64(2)),
            Node::String("name".to_string()),
            Node::String("Bob".to_string()),
            Node::String("status".to_string()),
            Node::String("active".to_string()),
        ]
    );
}

#[test]
fn test_tape_block_array_object_single_tabular_field() {
    let mut d = String::from("items[1]:\n  - users[2]{id,name}:\n      1,Ada\n      2,Bob").into_bytes();
    let simd = Deserializer::from_slice(&mut d).expect("failed to parse");

    assert_eq!(
        simd.tape(),
        &vec![
            Node::Object { len: 1, count: 15 },
            Node::String("items".to_string()),
            Node::Array { len: 1, count: 13 },
            Node::Object { len: 1, count: 12 },
            Node::String("users".to_string()),
            Node::Array { len: 2, count: 10 },
            Node::Object { len: 2, count: 4 },
            Node::String("id".to_string()),
            Node::Static(StaticNode::U64(1)),
            Node::String("name".to_string()),
            Node::String("Ada".to_string()),
            Node::Object { len: 2, count: 4 },
            Node::String("id".to_string()),
            Node::Static(StaticNode::U64(2)),
            Node::String("name".to_string()),
            Node::String("Bob".to_string()),
        ]
    );
}

#[test]
fn test_tape_root_block_array_strings() {
    let mut d = String::from("[2]:\n  - something\n  - something else").into_bytes();
    let simd = Deserializer::from_slice(&mut d).expect("failed to parse");

    assert_eq!(
        simd.tape(),
        &vec![
            Node::Array { len: 2, count: 2 },
            Node::String("something".to_string()),
            Node::String("something else".to_string()),
        ]
    );
}

#[test]
fn test_tape_root_inline_array_strings() {
    let mut d = String::from("[2]: something, \"something else\"").into_bytes();
    let simd = Deserializer::from_slice(&mut d).expect("failed to parse");

    assert_eq!(
        simd.tape(),
        &vec![
            Node::Array { len: 2, count: 2 },
            Node::String("something".to_string()),
            Node::String("something else".to_string()),
        ]
    );
}

#[test]
fn test_tape_root_block_array_object_items() {
    let mut d = String::from("[1]:\n  - id: 0\n    uuid: \"abc\"").into_bytes();
    let simd = Deserializer::from_slice(&mut d).expect("failed to parse");
    println!("{:?}", simd.tape());

    assert_eq!(
        simd.tape(),
        &vec![
            Node::Array { len: 1, count: 5 },
            Node::Object { len: 2, count: 4 },
            Node::String("id".to_string()),
            Node::Static(StaticNode::U64(0)),
            Node::String("uuid".to_string()),
            Node::String("abc".to_string()),
        ]
    );
}

#[test]
fn test_tape_block_array_of_inline_arrays() {
    // pairs[2]:
    //   - [2]: 1,2
    //   - [2]: 3,4
    let mut d = String::from("pairs[2]:\n  - [2]: 1,2\n  - [2]: 3,4").into_bytes();
    let simd = Deserializer::from_slice(&mut d).expect("failed to parse");

    assert_eq!(
        simd.tape(),
        &vec![
            Node::Object { len: 1, count: 8 },
            Node::String("pairs".to_string()),
            Node::Array { len: 2, count: 6 },
            Node::Array { len: 2, count: 2 },
            Node::Static(StaticNode::U64(1)),
            Node::Static(StaticNode::U64(2)),
            Node::Array { len: 2, count: 2 },
            Node::Static(StaticNode::U64(3)),
            Node::Static(StaticNode::U64(4)),
        ]
    );
}

#[test]
fn test_tape_root_block_array_object_nested_items() {
    let mut d = String::from("[1]:\n  - id: 0\n    metadata:\n      timestamp: \"2025-01-01T00:00:00Z\"").into_bytes();
    let simd = Deserializer::from_slice(&mut d).expect("failed to parse");

    assert_eq!(
        simd.tape(),
        &vec![
            Node::Array { len: 1, count: 7 },
            Node::Object { len: 2, count: 6 },
            Node::String("id".to_string()),
            Node::Static(StaticNode::U64(0)),
            Node::String("metadata".to_string()),
            Node::Object { len: 1, count: 2 },
            Node::String("timestamp".to_string()),
            Node::String("2025-01-01T00:00:00Z".to_string()),
        ]
    );
}

#[test]
fn test_compact_array_multiple_object_items_with_nested_object_fields() {
    let mut d = String::from(
        r#"rows[1]:
  - elements[2]:
      - distance:
          text: "4,490 km"
          value: 4489862
        duration:
          text: 1 day 16 hours
          value: 145589
        status: OK
      - distance:
          text: "1,270 km"
          value: 1270445
        duration:
          text: 12 hours 10 mins
          value: 43773
        status: OK"#,
    ).into_bytes();
    let _ = Deserializer::from_slice(&mut d).expect("failed to parse");
}

#[test]
fn test_empty_object_before_sibling_key() {
    let mut d = String::from("morphTargets:\nnormals[1]: 0").into_bytes();
    let simd = Deserializer::from_slice(&mut d).expect("failed to parse");

    assert_eq!(
        simd.tape(),
        &vec![
            Node::Object { len: 2, count: 5 },
            Node::String("morphTargets".to_string()),
            Node::Object { len: 0, count: 0 },
            Node::String("normals".to_string()),
            Node::Array { len: 1, count: 1 },
            Node::Static(StaticNode::U64(0)),
        ]
    );
}

#[test]
fn test_parses_objects_with_primitive_values() {
    let mut d = String::from("id: 123\nname: Ada\nactive: true").into_bytes();
    let decode_options = DecodeOptions::new();
    let simd = Deserializer::from_slice_with_options(&mut d, decode_options).expect("");
    assert_eq!(
        simd.tape(),
        &vec![
            Node::Object { len: 3, count: 6 },
            Node::String("id".to_string()),
            Node::Static(StaticNode::I64(123)),
            Node::String("name".to_string()),
            Node::String("Ada".to_string()),
            Node::String("active".to_string()),
            Node::Static(StaticNode::Bool(true))
        ]
    );
}

#[test]
fn test_parses_null_values_in_objects() {
    let mut d = String::from("id: 123\nvalue: null").into_bytes();
    let decode_options = DecodeOptions::new();
    let simd = Deserializer::from_slice_with_options(&mut d, decode_options).expect("");
    assert_eq!(
        simd.tape(),
        &vec![
            Node::Object { len: 2, count: 4 },
            Node::String("id".to_string()),
            Node::Static(StaticNode::I64(123)),
            Node::String("value".to_string()),
            Node::Static(StaticNode::Null)
        ]
    );
}

#[test]
fn test_parses_empty_nested_object_header() {
    let mut d = String::from("user:").into_bytes();
    let decode_options = DecodeOptions::new();
    let simd = Deserializer::from_slice_with_options(&mut d, decode_options).expect("");
    assert_eq!(
        simd.tape(),
        &vec![
            Node::Object { len: 1, count: 2 },
            Node::String("user".to_string()),
            Node::Object { len: 0, count: 0 }
        ]
    );
}

#[test]
fn test_bare_key_with_no_children_decodes_as_empty_object() {
    let mut d = String::from("matches:").into_bytes();
    let decode_options = DecodeOptions::new();
    let simd = Deserializer::from_slice_with_options(&mut d, decode_options).expect("");
    assert_eq!(
        simd.tape(),
        &vec![
            Node::Object { len: 1, count: 2 },
            Node::String("matches".to_string()),
            Node::Object { len: 0, count: 0 }
        ]
    );
}

#[test]
fn test_applies_last_write_wins_for_duplicate_sibling_keys_in_non_strict_mode() {
    let mut d = String::from("name: Ada\nname: Bob").into_bytes();
    let decode_options = DecodeOptions::lenient();
    let simd = Deserializer::from_slice_with_options(&mut d, decode_options).expect("");
    assert_eq!(
        simd.tape(),
        &vec![
            Node::Object { len: 1, count: 2 },
            Node::String("name".to_string()),
            Node::String("Bob".to_string())
        ]
    );
}

#[test]
fn test_parses_quoted_object_value_with_colon() {
    let mut d = String::from("note: \"a:b\"").into_bytes();
    let decode_options = DecodeOptions::new();
    let simd = Deserializer::from_slice_with_options(&mut d, decode_options).expect("");
    assert_eq!(
        simd.tape(),
        &vec![
            Node::Object { len: 1, count: 2 },
            Node::String("note".to_string()),
            Node::String("a:b".to_string())
        ]
    );
}

#[test]
fn test_parses_quoted_object_value_with_newline_escape() {
    let mut d = String::from("text: \"line1\\nline2\"").into_bytes();
    let decode_options = DecodeOptions::new();
    let simd = Deserializer::from_slice_with_options(&mut d, decode_options).expect("");
    assert_eq!(
        simd.tape(),
        &vec![
            Node::Object { len: 1, count: 2 },
            Node::String("text".to_string()),
            Node::String("line1\nline2".to_string())
        ]
    );
}

#[test]
fn test_parses_quoted_object_value_with_escaped_quotes() {
    let mut d = String::from("text: \"say \\\"hello\\\"\"").into_bytes();
    let decode_options = DecodeOptions::new();
    let simd = Deserializer::from_slice_with_options(&mut d, decode_options).expect("");
    assert_eq!(
        simd.tape(),
        &vec![
            Node::Object { len: 1, count: 2 },
            Node::String("text".to_string()),
            Node::String("say \"hello\"".to_string())
        ]
    );
}

#[test]
fn test_parses_quoted_string_value_that_looks_like_true() {
    let mut d = String::from("v: \"true\"").into_bytes();
    let decode_options = DecodeOptions::new();
    let simd = Deserializer::from_slice_with_options(&mut d, decode_options).expect("");
    assert_eq!(
        simd.tape(),
        &vec![
            Node::Object { len: 1, count: 2 },
            Node::String("v".to_string()),
            Node::String("true".to_string())
        ]
    );
}

#[test]
fn test_parses_quoted_string_value_that_looks_like_negative_decimal() {
    let mut d = String::from("v: \"-7.5\"").into_bytes();
    let decode_options = DecodeOptions::new();
    let simd = Deserializer::from_slice_with_options(&mut d, decode_options).expect("");
    assert_eq!(
        simd.tape(),
        &vec![
            Node::Object { len: 1, count: 2 },
            Node::String("v".to_string()),
            Node::String("-7.5".to_string())
        ]
    );
}

#[test]
fn test_parses_unquoted_value_shaped_like_an_inline_array_header_after_the_key() {
    let mut d = String::from("key: foo [2]: bar").into_bytes();
    let decode_options = DecodeOptions::new();
    let simd = Deserializer::from_slice_with_options(&mut d, decode_options).expect("");
    assert_eq!(
        simd.tape(),
        &vec![
            Node::Object { len: 1, count: 2 },
            Node::String("key".to_string()),
            Node::String("foo [2]: bar".to_string())
        ]
    );
}

#[test]
fn test_decodes_uXXXX_in_quoted_key() {
    let mut d = String::from("\"a\\u0004b\": 1").into_bytes();
    let decode_options = DecodeOptions::new();
    let simd = Deserializer::from_slice_with_options(&mut d, decode_options).expect("");
    assert_eq!(
        simd.tape(),
        &vec![
            Node::Object { len: 1, count: 2 },
            Node::String("a\u{0004}b".to_string()),
            Node::Static(StaticNode::I64(1))
        ]
    );
}

#[test]
fn test_treats_extra_brackets_after_valid_array_segment_as_literal_key_non_strict() {
    let mut d = String::from("foo[1][bar]: 10").into_bytes();
    let decode_options = DecodeOptions::lenient();
    let simd = Deserializer::from_slice_with_options(&mut d, decode_options).expect("");
    assert_eq!(
        simd.tape(),
        &vec![
            Node::Object { len: 1, count: 2 },
            Node::String("foo[1][bar]".to_string()),
            Node::Static(StaticNode::I64(10))
        ]
    );
}

#[test]
fn test_parses_deeply_nested_objects_with_indentation() {
    let mut d = String::from("a:\n  b:\n    c: deep").into_bytes();
    let decode_options = DecodeOptions::new();
    let simd = Deserializer::from_slice_with_options(&mut d, decode_options).expect("");
    assert_eq!(
        simd.tape(),
        &vec![
            Node::Object { len: 1, count: 6 },
            Node::String("a".to_string()),
            Node::Object { len: 1, count: 4 },
            Node::String("b".to_string()),
            Node::Object { len: 1, count: 2 },
            Node::String("c".to_string()),
            Node::String("deep".to_string())
        ]
    );
}

#[test]
fn test_applies_lww_for_nested_duplicate_sibling_keys_in_non_strict_mode() {
    let mut d = String::from("outer:\n  name: Ada\n  name: Bob").into_bytes();
    let decode_options = DecodeOptions::lenient();
    let simd = Deserializer::from_slice_with_options(&mut d, decode_options).expect("");
    assert_eq!(
        simd.tape(),
        &vec![
            Node::Object { len: 1, count: 4 },
            Node::String("outer".to_string()),
            Node::Object { len: 1, count: 2 },
            Node::String("name".to_string()),
            Node::String("Bob".to_string())
        ]
    );
}

#[test]
fn test_materializes_proto_as_an_ordinary_own_key() {
    let mut d = String::from("__proto__: polluted").into_bytes();
    let decode_options = DecodeOptions::new();
    let simd = Deserializer::from_slice_with_options(&mut d, decode_options).expect("");
    assert_eq!(
        simd.tape(),
        &vec![
            Node::Object { len: 1, count: 2 },
            Node::String("__proto__".to_string()),
            Node::String("polluted".to_string())
        ]
    );
}

#[test]
fn test_materializes_proto_tabular_field_name_as_ordinary_own_keys() {
    let mut d = String::from("rows[2]{__proto__,x}:\n  a,1\n  b,2").into_bytes();
    let decode_options = DecodeOptions::new();
    let simd = Deserializer::from_slice_with_options(&mut d, decode_options).expect("");
    assert_eq!(
        simd.tape(),
        &vec![
            Node::Object { len: 1, count: 12 },
            Node::String("rows".to_string()),
            Node::Array { len: 2, count: 10 },
            Node::Object { len: 2, count: 4 },
            Node::String("__proto__".to_string()),
            Node::String("a".to_string()),
            Node::String("x".to_string()),
            Node::Static(StaticNode::U64(1)),
            Node::Object { len: 2, count: 4 },
            Node::String("__proto__".to_string()),
            Node::String("b".to_string()),
            Node::String("x".to_string()),
            Node::Static(StaticNode::U64(2))
        ]
    );
}

#[test]
fn test_accepts_a_header_key_outside_the_encoder_unquoted_key_pattern() {
    let mut d = String::from("foo-bar[2]: 1,2").into_bytes();
    let decode_options = DecodeOptions::new();
    let simd = Deserializer::from_slice_with_options(&mut d, decode_options).expect("");
    assert_eq!(
        simd.tape(),
        &vec![
            Node::Object { len: 1, count: 4 },
            Node::String("foo-bar".to_string()),
            Node::Array { len: 2, count: 2 },
            Node::Static(StaticNode::U64(1)),
            Node::Static(StaticNode::U64(2))
        ]
    );
}

#[test]
fn test_comment_line_is_absorbed_by_the_line_above() {
    let mut d = String::from("name: Hamza\n  # some comment\nage: 21").into_bytes();
    let simd = Deserializer::from_slice(&mut d).expect("");
    assert_eq!(
        simd.tape(),
        &vec![
            Node::Object { len: 2, count: 4 },
            Node::String("name".to_string()),
            Node::String("Hamza".to_string()),
            Node::String("age".to_string()),
            Node::Static(StaticNode::U64(21)),
        ]
    );
}

#[test]
fn test_consecutive_comment_lines_collapse_into_one_run_of_spaces() {
    let mut d = String::from("a: 1\n# c1\n  # c2\n# c3\nb: 2").into_bytes();
    let simd = Deserializer::from_slice(&mut d).expect("");
    assert_eq!(
        simd.tape(),
        &vec![
            Node::Object { len: 2, count: 4 },
            Node::String("a".to_string()),
            Node::Static(StaticNode::U64(1)),
            Node::String("b".to_string()),
            Node::Static(StaticNode::U64(2)),
        ]
    );
}

#[test]
fn test_comment_does_not_count_as_a_list_item() {
    let mut d = String::from("items[2]:\n  - a\n  # note\n  - b").into_bytes();
    let simd = Deserializer::from_slice(&mut d).expect("");
    assert_eq!(
        simd.tape(),
        &vec![
            Node::Object { len: 1, count: 4 },
            Node::String("items".to_string()),
            Node::Array { len: 2, count: 2 },
            Node::String("a".to_string()),
            Node::String("b".to_string()),
        ]
    );
}

#[test]
fn test_outdented_comment_does_not_close_the_scope_it_sits_in() {
    let mut d = String::from("user:\n  id: 1\n# outdented note\n  name: Ada").into_bytes();
    let simd = Deserializer::from_slice(&mut d).expect("");
    assert_eq!(
        simd.tape(),
        &vec![
            Node::Object { len: 1, count: 6 },
            Node::String("user".to_string()),
            Node::Object { len: 2, count: 4 },
            Node::String("id".to_string()),
            Node::Static(StaticNode::U64(1)),
            Node::String("name".to_string()),
            Node::String("Ada".to_string()),
        ]
    );
}

#[test]
fn test_hash_that_is_not_a_lines_first_token_stays_data() {
    let mut d = String::from("note: #x").into_bytes();
    let simd = Deserializer::from_slice(&mut d).expect("");
    assert_eq!(
        simd.tape(),
        &vec![
            Node::Object { len: 1, count: 2 },
            Node::String("note".to_string()),
            Node::String("#x".to_string()),
        ]
    );
}

#[test]
fn test_quoted_hash_leading_cell_stays_data() {
    let mut d = String::from("items[1]{tag}:\n  \"#a\"").into_bytes();
    let simd = Deserializer::from_slice(&mut d).expect("");
    assert_eq!(
        simd.tape(),
        &vec![
            Node::Object { len: 1, count: 5 },
            Node::String("items".to_string()),
            Node::Array { len: 1, count: 3 },
            Node::Object { len: 1, count: 2 },
            Node::String("tag".to_string()),
            Node::String("#a".to_string()),
        ]
    );
}

#[test]
fn test_tab_indented_hash_is_not_a_comment() {
    // Only U+0020 may precede the '#', so this line stays data -- and a tab in
    // indentation is an error in strict mode.
    let mut d = String::from("a: 1\n\t# not a comment").into_bytes();
    assert!(Deserializer::from_slice(&mut d).is_err());
}

/// A comment, and the indentation in front of one, can outrun the 64-byte block
/// stage 1 classifies at a time; the run has to carry across blocks, and the
/// newline it swallows may already have been emitted as a structural.
#[test]
fn test_comments_spanning_simd_block_boundaries() {
    for indent in 0..80 {
        for body in [0, 1, 63, 64, 65, 200] {
            let src = format!("a: 1\n{}# {}\nb: 2", " ".repeat(indent), "x".repeat(body));
            let mut d = src.clone().into_bytes();
            let simd = Deserializer::from_slice(&mut d)
                .unwrap_or_else(|e| panic!("{src:?} failed to decode: {e:?}"));
            assert_eq!(
                simd.tape(),
                &vec![
                    Node::Object { len: 2, count: 4 },
                    Node::String("a".to_string()),
                    Node::Static(StaticNode::U64(1)),
                    Node::String("b".to_string()),
                    Node::Static(StaticNode::U64(2)),
                ],
                "unexpected tape for {src:?}"
            );
        }
    }
}

#[test]
fn lww_within_a_list_item_object_keeps_the_last_value() {
    let mut d = String::from("items[1]:\n  - id: 1\n    id: 2").into_bytes();
    let decode_options = DecodeOptions::lenient();
    let simd = Deserializer::from_slice_with_options(&mut d, decode_options).expect("");
    assert_eq!(
        simd.tape(),
        &vec![
            // the root's count is that of the nodes after it, as everywhere else
            Node::Object { len: 1, count: 5 },
            Node::String("items".to_string()),
            Node::Array { len: 1, count: 3 },
            Node::Object { len: 1, count: 2 },
            Node::String("id".to_string()),
            Node::Static(StaticNode::U64(2))
        ]
    );
}

#[test]
fn inline_array_inside_a_nested_object_then_a_sibling_of_its_parent() {
    let mut d = String::from("user:\n  tags[2]: x,-3\n  id: 7\nok: true").into_bytes();
    let simd = Deserializer::from_slice(&mut d).expect("failed to parse");
    assert_eq!(
        simd.tape(),
        &vec![
            Node::Object { len: 2, count: 10 },
            Node::String("user".to_string()),
            Node::Object { len: 2, count: 6 },
            Node::String("tags".to_string()),
            Node::Array { len: 2, count: 2 },
            Node::String("x".to_string()),
            Node::Static(StaticNode::I64(-3)),
            Node::String("id".to_string()),
            Node::Static(StaticNode::U64(7)),
            Node::String("ok".to_string()),
            Node::Static(StaticNode::Bool(true)),
        ]
    );
}

#[test]
fn lenient_literal_key_with_a_second_bracket_segment_after_a_key() {
    let mut d = String::from("a: 1\nfoo[1][bar]: 10").into_bytes();
    let simd = Deserializer::from_slice_with_options(&mut d, DecodeOptions::lenient()).expect("failed to parse");
    assert_eq!(
        simd.tape(),
        &vec![
            Node::Object { len: 2, count: 4 },
            Node::String("a".to_string()),
            Node::Static(StaticNode::U64(1)),
            Node::String("foo[1][bar]".to_string()),
            Node::Static(StaticNode::U64(10)),
        ]
    );
}

#[test]
fn empty_array_between_keys_of_an_object() {
    let mut d = String::from("a: 1\nlist[0]:\nb: 2").into_bytes();
    let simd = Deserializer::from_slice(&mut d).expect("failed to parse");
    assert_eq!(
        simd.tape(),
        &vec![
            Node::Object { len: 3, count: 6 },
            Node::String("a".to_string()),
            Node::Static(StaticNode::U64(1)),
            Node::String("list".to_string()),
            Node::Array { len: 0, count: 0 },
            Node::String("b".to_string()),
            Node::Static(StaticNode::U64(2)),
        ]
    );
}

#[test]
fn inline_array_as_the_first_line_of_the_root_object() {
    let mut d = String::from("tags[3]: a,b,c\nname: x").into_bytes();
    let simd = Deserializer::from_slice(&mut d).expect("failed to parse");
    assert_eq!(
        simd.tape(),
        &vec![
            Node::Object { len: 2, count: 7 },
            Node::String("tags".to_string()),
            Node::Array { len: 3, count: 3 },
            Node::String("a".to_string()),
            Node::String("b".to_string()),
            Node::String("c".to_string()),
            Node::String("name".to_string()),
            Node::String("x".to_string()),
        ]
    );
}

#[test]
fn too_few_inline_values_are_refused() {
    let mut d = String::from("a: 1\nxs[3]: 1,2").into_bytes();
    assert!(Deserializer::from_slice(&mut d).is_err());
}

#[test]
fn integers_keep_the_kind_of_their_sign() {
    let mut d = String::from("a: -3\nb: 3\nc[2]: -0,7").into_bytes();
    let simd = Deserializer::from_slice(&mut d).expect("failed to parse");
    let t = simd.tape();
    assert!(matches!(t[2], Node::Static(StaticNode::I64(-3))));
    assert!(matches!(t[4], Node::Static(StaticNode::U64(3))));
    assert!(matches!(t[7], Node::Static(StaticNode::I64(0))));
    assert!(matches!(t[8], Node::Static(StaticNode::U64(7))));
}
