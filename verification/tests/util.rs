use subtext::block::Block;
use subtext::primitive::{Entity, Kind};
use subtext::slug::slugify;
use subtext::util::{assert_round_trip, cut, join_blocks, to_slug};
use subtext::{parse, ParseError, SharedString};

#[test]
fn it_makes_a_slug_of_a_title() {
    assert_eq!(to_slug("  /Hello World\n").unwrap(), "hello-world");
    assert_eq!(to_slug("Foo/Bar baz").unwrap(), "foo/bar-baz");
    assert_eq!(to_slug("a \t\n b").unwrap(), "a-b");
    assert_eq!(to_slug("//a//b/").unwrap(), "a/b");
    assert_eq!(to_slug("What's up, Doc?").unwrap(), "whats-up-doc");
    assert_eq!(to_slug("snake_case-and-42").unwrap(), "snake_case-and-42");
    assert_eq!(to_slug("").unwrap(), "");
    assert_eq!(to_slug(" / ").unwrap(), "");
}

#[test]
fn it_keeps_the_place_of_a_word_that_loses_all_its_characters() {
    assert_eq!(to_slug("\u{e9} x").unwrap(), "-x");
    assert_eq!(to_slug("a ! b").unwrap(), "a--b");
}

#[test]
fn it_cuts_a_slug_at_two_hundred_characters() {
    let long = "ab ".repeat(100);
    let slug = to_slug(&long).unwrap();

    assert_eq!(slug.len(), 200);
    assert_eq!(slug, "ab-".repeat(67)[..200]);
}

#[test]
fn it_makes_a_slug_of_text_as_it_stands() {
    assert_eq!(slugify("Hello World"), "Hello-World");
    assert_eq!(slugify("a/b /c"), "a/b-/c");
}

#[test]
fn it_cuts_a_text_at_a_byte() {
    let text = SharedString::from_str("caf\u{e9} au lait").unwrap();

    assert_eq!(cut(&text, 0).unwrap(), text);
    assert_eq!(cut(&text, 5).unwrap(), SharedString::from_str(" au lait").unwrap());
    assert_eq!(cut(&text, 13).unwrap(), SharedString::from_str("").unwrap());
    assert_eq!(cut(&text, 4), Err(ParseError::SliceOutOfBounds));
    assert_eq!(cut(&text, 14), Err(ParseError::SliceOutOfBounds));
    assert_eq!(text.len(), 13);
    assert_eq!(text.len32(), 13);
    assert_eq!(text.clone().to_string(), "caf\u{e9} au lait");
    assert_eq!(text.as_bytes(), "caf\u{e9} au lait".as_bytes());
}

#[test]
fn it_comes_back_unless_it_ends_with_a_line_feed() {
    assert!(assert_round_trip(""));
    assert!(assert_round_trip("one\n\ntwo \u{2603}\n  three /four\r\n- [[five"));
    assert!(!assert_round_trip("one\n"));
    assert!(!assert_round_trip("\n"));

    for text in ["one\n", "\n", "one\n\n", "# a\n> b\n- c\n"] {
        let blocks = parse(text.as_bytes()).unwrap().collect();
        assert_eq!(join_blocks(&blocks) + "\n", text);
    }
}

#[test]
fn the_blocks_take_all_of_the_text() {
    let text = "# Title\n\n  See /foo and [[bar]] \u{2603}\nhttps://example.com\r\n\n- x\n";
    let mut rest = SharedString::from_str(text).unwrap();
    let mut taken = 0;
    let mut lines = Vec::new();

    while rest.len() > 0 {
        let (block, steps) = subtext::block::parse(rest.clone()).unwrap();
        assert!(steps > 0);
        lines.push(block.to_bytes());
        taken += steps;
        rest = cut(&rest, steps).unwrap();
    }

    assert_eq!(taken, text.len());
    assert_eq!(lines.len(), 6);
    assert_eq!(lines.join(&b'\n'), text.as_bytes()[..text.len() - 1].to_vec());
}

#[test]
fn every_short_text_is_taken_apart_without_loss() {
    let alphabet = ['a', '/', '[', ']', ' ', '\t', '\n', '\r', '#'];
    let mut texts = vec![String::new()];

    for _ in 0..=5 {
        let mut longer = Vec::new();
        for text in &texts {
            let blocks: Vec<Block> = parse(text.as_bytes()).unwrap().collect();
            let mut joined = join_blocks(&blocks);
            if text.ends_with('\n') {
                joined.push('\n');
            }
            assert_eq!(&joined, text);

            for block in &blocks {
                let entities: Vec<&Entity> = match block {
                    Block::Header(entities)
                    | Block::Paragraph(entities)
                    | Block::Quote(entities)
                    | Block::List(entities) => entities.iter().collect(),
                    Block::Link(entity) => vec![entity],
                    Block::Blank(entity) => {
                        assert_eq!(entity.kind(), Kind::EmptySpace);
                        assert!(entity.to_string().chars().all(|c| " \t\r".contains(c)));
                        vec![]
                    }
                };
                assert!(!block.to_string().contains('\n'));
                for entity in entities {
                    let span = entity.to_string();
                    assert!(!span.is_empty(), "{:?}", text);
                    match entity.kind() {
                        Kind::Sigil => assert!(span == "#" || span == ">" || span == "-"),
                        Kind::EmptySpace => assert!(span.chars().all(|c| " \t\r".contains(c))),
                        Kind::TextSpan => assert!(span.chars().any(|c| !" \t\r".contains(c))),
                        Kind::SlashLink => {
                            assert!(span.starts_with('/'));
                            assert!(!span.contains(' ') && !span.contains('\t'));
                        }
                        Kind::HyperLink => unreachable!(),
                        Kind::WikiLink => assert!(span.starts_with("[[")),
                    }
                }
            }

            if text.len() < 5 {
                for character in alphabet {
                    let mut next = text.clone();
                    next.push(character);
                    longer.push(next);
                }
            }
        }
        texts = longer;
    }
}

#[test]
fn a_slug_stays_as_it_is() {
    for text in ["Hello World", "  //Foo/Bar baz", "a ! b", "\u{e9} x", "snake_case-and-42", ""] {
        let slug = to_slug(text).unwrap();

        assert_eq!(to_slug(&slug).unwrap(), slug);
    }
}

#[test]
fn a_slug_cut_behind_a_slash_loses_the_slash() {
    let text = "a".repeat(199) + "/b";
    let slug = to_slug(&text).unwrap();

    assert_eq!(slug, "a".repeat(199) + "/");
    assert_eq!(to_slug(&slug).unwrap(), "a".repeat(199));
}
