use subtext::util::assert_round_trip;

#[test]
fn it_converts_a_list_block_to_bytes() {
    let input = r#"- List item one
- List item two
- List /with_link"#;

    assert!(assert_round_trip(input));
}

#[test]
fn it_converts_a_paragraph_block_to_bytes() {
    let input = r#"URLs like https://example.com are automatically linked."#;

    assert!(assert_round_trip(input));
}

#[test]
fn it_converts_a_header_block_to_bytes() {
    let input = r#"# This is a header"#;

    assert!(assert_round_trip(input));
}

#[test]
fn it_converts_a_slashlink_block_to_bytes() {
    let input = r#"/foo/bar"#;

    assert!(assert_round_trip(input));
}

#[test]
fn it_converts_a_hyperlink_block_to_bytes() {
    let input = r#"https://foo.example.com?bar#baz"#;

    assert!(assert_round_trip(input));
}

#[test]
fn it_converts_whitespace_to_bytes() {
    let input = r#"
       
  "#;

    assert!(assert_round_trip(input));
}
