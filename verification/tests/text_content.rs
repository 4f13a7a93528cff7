use subtext::block::Block;
use subtext::parse;
use subtext::primitive::Entity;
use subtext::SharedString;

#[test]
fn it_skips_leading_whitespace_in_paragraphs() {
    let input = "  Hello, world!";
    let blocks: Vec<Block> = parse(input.as_ref()).unwrap().collect();
    let text_content = blocks.first().unwrap().to_text_content();

    assert_eq!(text_content, "Hello, world!");
}

#[test]
fn it_skips_the_sigil_and_leading_whitespace_for_headers() {
    let input = "# Hello, world!";
    let blocks: Vec<Block> = parse(input.as_ref()).unwrap().collect();
    let text_content = blocks.first().unwrap().to_text_content();

    assert_eq!(text_content, "Hello, world!");
}

#[test]
fn it_skips_the_sigil_and_leading_whitespace_for_lists() {
    let input = "- Hello, world!";
    let blocks: Vec<Block> = parse(input.as_ref()).unwrap().collect();
    let text_content = blocks.first().unwrap().to_text_content();

    assert_eq!(text_content, "Hello, world!");
}

#[test]
fn it_skips_the_sigil_and_leading_whitespace_for_quotes() {
    let input = "> Hello, world!";
    let blocks: Vec<Block> = parse(input.as_ref()).unwrap().collect();
    let text_content = blocks.first().unwrap().to_text_content();

    assert_eq!(text_content, "Hello, world!");
}

#[test]
fn it_yields_an_empty_string_for_blanks() {
    let input = "   ";
    let blocks: Vec<Block> = parse(input.as_ref()).unwrap().collect();
    let text_content = blocks.first().unwrap().to_text_content();

    assert_eq!(text_content, "");
}

#[test]
fn it_parses_sequential_slashlinks_as_separate_links() {
    let input = "/foo /bar /baz";
    let blocks: Vec<Block> = parse(input.as_ref()).unwrap().collect();

    assert_eq!(
        blocks,
        vec![Block::Paragraph(vec![
            Entity::SlashLink(SharedString::from_str("/foo").unwrap()),
            Entity::EmptySpace(SharedString::from_str(" ").unwrap()),
            Entity::SlashLink(SharedString::from_str("/bar").unwrap()),
            Entity::EmptySpace(SharedString::from_str(" ").unwrap()),
            Entity::SlashLink(SharedString::from_str("/baz").unwrap())
        ])]
    )
}

#[test]
fn a_hyper_link_goes_before_a_slash_link() {
    let input = "http:// /nope";
    let blocks: Vec<Block> = parse(input.as_ref()).unwrap().collect();

    assert_eq!(
        blocks,
        vec![Block::Paragraph(vec![
            Entity::HyperLink(SharedString::from_str("http://").unwrap()),
            Entity::EmptySpace(SharedString::from_str(" ").unwrap()),
            Entity::SlashLink(SharedString::from_str("/nope").unwrap())
        ])]
    )
}

#[test]
fn the_content_of_a_link_is_the_link() {
    let input = "/foo/bar";
    let blocks: Vec<Block> = parse(input.as_ref()).unwrap().collect();
    let block = blocks.first().unwrap();

    assert_eq!(block.to_text_content(), "/foo/bar");
    assert_eq!(block.to_content_entities().len(), 1);
    assert_eq!(block.to_bytes(), b"/foo/bar".to_vec());
}

#[test]
fn the_content_of_a_header_leaves_out_sigil_and_space() {
    let input = "#  See /foo now";
    let blocks: Vec<Block> = parse(input.as_ref()).unwrap().collect();
    let block = blocks.first().unwrap();
    let content: Vec<String> = block
        .to_content_entities()
        .iter()
        .map(|entity| entity.to_string())
        .collect();

    assert_eq!(content, vec!["See ", "/foo", " now"]);
    assert_eq!(block.to_text_content(), "See /foo now");
    assert_eq!(block.to_string(), "#  See /foo now");
}
