use subtext::block::Block;
use subtext::parse;
use subtext::primitive::Entity;
use subtext::faithful::is_faithful;
use subtext::stream::{parse_one, stream, StreamAdapter};
use subtext::ParseError;
use subtext::SharedString;

fn chunks(parts: &[&str]) -> Vec<String> {
    parts.iter().map(|part| part.to_string()).collect()
}

fn shared(text: &str) -> SharedString {
    SharedString::from_str(text).unwrap()
}

#[test]
fn it_parses_a_stream_of_chunks() {
    let blocks = stream(&chunks(&[
        "# the title",
        "\n\n",
        "The first part... /foo-",
        "bar-baz ... the second part",
        "\n\nFin",
    ]))
    .unwrap();

    assert_eq!(
        blocks,
        vec![
            Block::Header(vec![
                Entity::Sigil(shared("#")),
                Entity::EmptySpace(shared(" ")),
                Entity::TextSpan(shared("the title")),
            ]),
            Block::Blank(Entity::EmptySpace(shared(""))),
            Block::Paragraph(vec![
                Entity::TextSpan(shared("The first part... ")),
                Entity::SlashLink(shared("/foo-bar-baz")),
                Entity::TextSpan(shared(" ... the second part")),
            ]),
            Block::Blank(Entity::EmptySpace(shared(""))),
            Block::Paragraph(vec![Entity::TextSpan(shared("Fin"))]),
        ]
    );
}

#[test]
fn it_does_not_matter_where_the_chunks_are_cut() {
    let text = "# Title\n\nSee /foo and [[bar]] \u{2603}\n\n  https://example.com\n\nend";
    let whole = stream(&chunks(&[text])).unwrap();

    for first in 0..=text.len() {
        if !text.is_char_boundary(first) {
            continue;
        }
        for second in first..=text.len() {
            if !text.is_char_boundary(second) {
                continue;
            }
            let cut = stream(&chunks(&[
                &text[..first],
                &text[first..second],
                &text[second..],
            ]))
            .unwrap();
            assert_eq!(cut, whole);
        }
    }
}

#[test]
fn it_streams_what_the_buffer_parses_where_blank_lines_part_the_blocks() {
    let text = "# Title\n\nSee /foo and [[bar]]\n\nhttps://example.com\n\n";
    let streamed = stream(&chunks(&[text])).unwrap();
    let buffered: Vec<Block> = parse(text.as_bytes()).unwrap().collect();

    assert_eq!(streamed.len(), 6);
    assert_eq!(streamed, buffered);
}

#[test]
fn it_streams_a_line_as_the_buffer_parses_it() {
    for text in ["", "  ", "# Title", "  /foo bar", "http://example.com"] {
        let streamed = stream(&chunks(&[text])).unwrap();
        let buffered: Vec<Block> = parse(text.as_bytes()).unwrap().collect();

        assert_eq!(streamed, buffered);
    }
}

#[test]
fn it_flushes_the_white_space_of_a_line_break_as_a_block() {
    let streamed = stream(&chunks(&["a\nb"])).unwrap();

    assert_eq!(
        streamed,
        vec![
            Block::Paragraph(vec![Entity::TextSpan(shared("a"))]),
            Block::Blank(Entity::EmptySpace(shared(""))),
            Block::Paragraph(vec![Entity::TextSpan(shared("b"))]),
        ]
    );

    let buffered: Vec<Block> = parse(b"a\nb").unwrap().collect();

    assert_eq!(buffered.len(), 2);
}

#[test]
fn it_takes_one_character_at_a_time() {
    let mut adapter = StreamAdapter::new();

    assert!(adapter.has_room());
    assert_eq!(adapter.push(' '), Ok(None));
    assert_eq!(adapter.push('a'), Ok(None));
    assert_eq!(adapter.push(' '), Ok(None));
    assert_eq!(
        adapter.push('\r'),
        Ok(Some(Block::Paragraph(vec![
            Entity::EmptySpace(shared(" ")),
            Entity::TextSpan(shared("a ")),
        ])))
    );
    assert_eq!(adapter.push('\n'), Ok(None));
    assert_eq!(adapter.push(' '), Ok(None));
    assert_eq!(
        adapter.push('b'),
        Ok(Some(Block::Blank(Entity::EmptySpace(shared("\r")))))
    );
    assert_eq!(
        adapter.finish(),
        Ok(vec![Block::Paragraph(vec![Entity::TextSpan(shared("b"))])])
    );
}

#[test]
fn it_hands_out_nothing_for_an_empty_source() {
    assert_eq!(stream(&chunks(&[])), Ok(vec![]));
    assert_eq!(stream(&chunks(&["", ""])), Ok(vec![]));
    assert_eq!(StreamAdapter::new().finish(), Ok(vec![]));
}

#[test]
fn it_parses_one_block() {
    assert_eq!(
        parse_one(b"# one\n# two"),
        Ok(Block::Header(vec![
            Entity::Sigil(shared("#")),
            Entity::EmptySpace(shared(" ")),
            Entity::TextSpan(shared("one")),
        ]))
    );
    assert_eq!(parse_one(b""), Err(ParseError::EmptyStreamClosed));
    assert_eq!(parse_one(&[0x66, 0xff]), Err(ParseError::InvalidEncoding));
}

#[test]
fn it_refuses_bytes_that_are_not_utf8() {
    assert!(matches!(parse(&[0xc3, 0x28]), Err(ParseError::InvalidEncoding)));
    assert!(matches!(parse(&[0xe2, 0x98]), Err(ParseError::InvalidEncoding)));
    assert!(parse("\u{2603}".as_bytes()).is_ok());
    assert_eq!(
        ParseError::InvalidEncoding.to_string(),
        "Could not interpret bytes as UTF-8"
    );
    assert_eq!(
        ParseError::SliceOutOfBounds.to_string(),
        "A span does not lie inside its buffer"
    );
    assert_eq!(ParseError::EmptyStreamClosed.to_string(), "No block found in input");
}

#[test]
fn it_streams_what_the_buffer_parses_on_faithful_texts_and_on_no_others() {
    let alphabet = ['a', ' ', '\t', '\n', '\r', '/', '#'];
    let mut texts = vec![String::new()];
    let mut faithful = 0;

    for _ in 0..=6 {
        let mut longer = Vec::new();
        for text in &texts {
            let streamed = stream(&chunks(&[text])).unwrap();
            let buffered: Vec<Block> = parse(text.as_bytes()).unwrap().collect();

            assert_eq!(is_faithful(text), streamed == buffered, "{:?}", text);
            if is_faithful(text) {
                faithful += 1;
            }
            if text.len() < 6 {
                for character in alphabet {
                    let mut next = text.clone();
                    next.push(character);
                    longer.push(next);
                }
            }
        }
        texts = longer;
    }

    assert!(faithful > 1000);
}

#[test]
fn it_tells_the_faithful_texts() {
    for text in ["", "a", " a", "a\n\nb", "\na", "\r \r\na", "\r\t", "a\n\n", "a b\n\nc"] {
        assert!(is_faithful(text), "{:?}", text);
    }
    for text in ["a\nb", "a\n", "\n\na", "a\r\n\r\nb", "a\n\n b", "\ra", "a\n\n\nb"] {
        assert!(!is_faithful(text), "{:?}", text);
    }
}
