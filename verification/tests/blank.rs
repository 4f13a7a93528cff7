use subtext::block::Block;
use subtext::parse;

#[test]
fn it_dissolves_a_terminating_newline() {
    let input = r#"Hello,
World!"#;

    let blocks: Vec<Block> = parse(input.as_ref()).unwrap().collect();

    match blocks.as_slice() {
        [Block::Paragraph(hello), Block::Paragraph(world)] => {
            assert_eq!(hello.first().unwrap().to_string(), "Hello,");
            assert_eq!(world.first().unwrap().to_string(), "World!");
        }
        _ => panic!("Unexpected block(s) or primitive(s): {:#?}", blocks),
    }
}

#[test]
fn it_captures_extra_empty_space_in_a_blank() {
    let input = r#"Hello,
  
World!"#;

    let blocks: Vec<Block> = parse(input.as_ref()).unwrap().collect();

    match blocks.as_slice() {
        [Block::Paragraph(hello), Block::Blank(empty), Block::Paragraph(world)] => {
            assert_eq!(hello.first().unwrap().to_string(), "Hello,");
            assert_eq!(empty.to_string(), "  ");
            assert_eq!(world.first().unwrap().to_string(), "World!");
        }
        _ => panic!("Unexpected block(s) or primitive(s): {:#?}", blocks),
    }
}

#[test]
fn it_recognizes_zero_length_lines_as_blanks() {
    let input = r#"Hello,
  

     
World!"#;

    let blocks: Vec<Block> = parse(input.as_ref()).unwrap().collect();

    match blocks.as_slice() {
        [Block::Paragraph(hello), Block::Blank(empty_one), Block::Blank(empty_two), Block::Blank(empty_three), Block::Paragraph(world)] =>
        {
            assert_eq!(hello.first().unwrap().to_string(), "Hello,");
            assert_eq!(empty_one.to_string(), "  ");
            assert_eq!(empty_two.to_string(), "");
            assert_eq!(empty_three.to_string(), "     ");
            assert_eq!(world.first().unwrap().to_string(), "World!");
        }
        _ => panic!("Unexpected block(s) or primitive(s): {:#?}", blocks),
    }
}

#[test]
fn it_does_not_absorb_leading_whitespace_into_a_preceding_blank() {
    let input = r#"Hello,

 - World!"#;

    let blocks: Vec<Block> = parse(input.as_ref()).unwrap().collect();

    match blocks.as_slice() {
        [Block::Paragraph(hello), Block::Blank(empty), world @ Block::Paragraph(world_entities)] => {
            assert_eq!(hello.first().unwrap().to_string(), "Hello,");
            assert_eq!(empty.to_string(), "");
            assert_eq!(world_entities.first().unwrap().to_string(), " ");
            assert_eq!(world.to_string(), " - World!");
        }
        _ => panic!("Unexpected block(s) or primitive(s): {:#?}", blocks),
    }
}

#[test]
fn it_takes_a_carriage_return_for_white_space() {
    let blocks: Vec<Block> = parse(b"a\r\n\r\n \r\t\n/foo\r\n\rb").unwrap().collect();

    assert_eq!(blocks.len(), 5);
    match blocks.as_slice() {
        [Block::Paragraph(first), Block::Blank(second), Block::Blank(third), Block::Paragraph(fourth), Block::Paragraph(fifth)] =>
        {
            assert_eq!(first.len(), 1);
            assert_eq!(first[0].to_string(), "a\r");
            assert_eq!(second.to_string(), "\r");
            assert_eq!(third.to_string(), " \r\t");
            assert_eq!(fourth.len(), 2);
            assert_eq!(fourth[0].to_string(), "/foo");
            assert_eq!(fourth[1].kind(), subtext::primitive::Kind::EmptySpace);
            assert_eq!(fourth[1].to_string(), "\r");
            assert_eq!(fifth.len(), 2);
            assert_eq!(fifth[0].kind(), subtext::primitive::Kind::EmptySpace);
            assert_eq!(fifth[0].to_string(), "\r");
            assert_eq!(fifth[1].to_string(), "b");
        }
        _ => panic!("Unexpected block(s) or primitive(s): {:#?}", blocks),
    }
}

#[test]
fn it_takes_an_empty_text_for_a_blank() {
    let (block, steps) = subtext::block::parse(subtext::SharedString::from_str("").unwrap()).unwrap();

    assert_eq!(steps, 0);
    assert_eq!(block.kind(), subtext::block::BlockKind::Blank);
    assert_eq!(block.to_string(), "");

    let blocks: Vec<Block> = parse(b"").unwrap().collect();

    assert_eq!(blocks.len(), 0);
}
