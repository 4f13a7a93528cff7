use subtext::primitive::{
    parse_empty_space, parse_hyper_link, parse_slash_link, parse_text, parse_until,
    parse_wiki_link, Entity, Kind,
};
use subtext::predicate::{
    sequence_to_predicate, tab_or_space_predicate, white_space_predicate,
    wiki_link_delimiter_predicate,
};
use subtext::sequence::Sequence;
use subtext::{ParseError, SharedString};

#[test]
fn it_parses_a_slash_link_blap() {
    let input = SharedString::try_from_byte_slice(b"/foo").unwrap();
    let (entity, steps) = parse_slash_link(input).unwrap();

    assert_eq!(steps, 4);
    assert_eq!(entity.to_string(), "/foo");
}

#[test]
fn it_parses_a_wiki_link() {
    let input = SharedString::try_from_byte_slice(b"[[foo bar baz]]").unwrap();
    let (entity, steps) = parse_wiki_link(input).unwrap();

    assert_eq!(steps, 15);
    assert_eq!(entity.to_string(), "[[foo bar baz]]");
}

#[test]
fn it_parses_a_text_span() {
    let input = SharedString::try_from_byte_slice(b"foo bar baz").unwrap();
    let (entities, steps) = parse_text(input).unwrap();

    assert_eq!(steps, 11);
    assert_eq!(entities.len(), 1);
    assert_eq!(entities.get(0).unwrap().to_string(), "foo bar baz");
}

#[test]
fn it_parses_a_text_span_delimited_by_a_newline() {
    let input = SharedString::try_from_byte_slice(b"foo bar baz\n").unwrap();
    let (entities, steps) = parse_text(input).unwrap();

    assert_eq!(steps, 11);
    assert_eq!(entities.len(), 1);
    assert_eq!(entities.get(0).unwrap().to_string(), "foo bar baz");
}

#[test]
fn it_parses_a_slash_link_in_a_text_span() {
    let input = SharedString::try_from_byte_slice(b"foo /bar baz").unwrap();
    let (entities, steps) = parse_text(input).unwrap();

    assert_eq!(steps, 12);
    assert_eq!(entities.len(), 3);
    assert_eq!(entities.get(0).unwrap().to_string(), "foo ");
    assert_eq!(entities.get(1).unwrap().to_string(), "/bar");
    assert_eq!(entities.get(2).unwrap().to_string(), " baz");
}

#[test]
fn it_parses_a_wiki_link_in_a_text_span() {
    let input = SharedString::try_from_byte_slice(b"foo [[bar]] baz").unwrap();
    let (entities, steps) = parse_text(input).unwrap();

    assert_eq!(steps, 15);
    assert_eq!(entities.len(), 3);
    assert_eq!(entities.get(0).unwrap().to_string(), "foo ");
    assert_eq!(entities.get(1).unwrap().to_string(), "[[bar]]");
    assert_eq!(entities.get(2).unwrap().to_string(), " baz");
}

#[test]
fn it_parses_a_slash_link_following_a_text_span() {
    let input = SharedString::try_from_byte_slice(b"foo bar /baz").unwrap();
    let (entities, steps) = parse_text(input).unwrap();

    assert_eq!(steps, 12);
    assert_eq!(entities.len(), 2);
    assert_eq!(entities.get(0).unwrap().to_string(), "foo bar ");
    assert_eq!(entities.get(1).unwrap().to_string(), "/baz");
}

#[test]
fn a_link_ends_in_front_of_white_space() {
    let input = SharedString::from_str("http://example.com\tand more").unwrap();
    let (entity, steps) = parse_hyper_link(input).unwrap();

    assert_eq!(steps, 18);
    assert_eq!(entity, Entity::HyperLink(SharedString::from_str("http://example.com").unwrap()));
    assert_eq!(entity.kind(), Kind::HyperLink);
    assert_eq!(entity.as_bytes(), b"http://example.com");
}

#[test]
fn a_link_ends_in_front_of_a_carriage_return_and_its_line_feed() {
    let input = SharedString::from_str("/foo\r\nbar").unwrap();
    let (entity, steps) = parse_slash_link(input).unwrap();

    assert_eq!(steps, 4);
    assert_eq!(entity.to_string(), "/foo");
}

#[test]
fn a_wiki_link_ends_at_the_end_of_the_line() {
    let input = SharedString::from_str("[[foo bar\nbaz]]").unwrap();
    let (entity, steps) = parse_wiki_link(input).unwrap();

    assert_eq!(steps, 9);
    assert_eq!(entity.to_string(), "[[foo bar");
}

#[test]
fn steps_are_counted_in_bytes() {
    let input = SharedString::from_str("/caf\u{e9}\u{1f600} next").unwrap();
    let (entity, steps) = parse_slash_link(input).unwrap();

    assert_eq!(steps, 10);
    assert_eq!(entity.to_string(), "/caf\u{e9}\u{1f600}");

    let input = SharedString::from_str("na\u{ef}ve /caf\u{e9} \u{2603}").unwrap();
    let (entities, steps) = parse_text(input).unwrap();

    assert_eq!(steps, 17);
    assert_eq!(
        entities,
        vec![
            Entity::TextSpan(SharedString::from_str("na\u{ef}ve ").unwrap()),
            Entity::SlashLink(SharedString::from_str("/caf\u{e9}").unwrap()),
            Entity::TextSpan(SharedString::from_str(" \u{2603}").unwrap()),
        ]
    );
}

#[test]
fn white_space_behind_a_link_at_the_end_is_kept() {
    let input = SharedString::from_str("/foo ").unwrap();
    let (entities, steps) = parse_text(input).unwrap();

    assert_eq!(steps, 5);
    assert_eq!(
        entities,
        vec![
            Entity::SlashLink(SharedString::from_str("/foo").unwrap()),
            Entity::EmptySpace(SharedString::from_str(" ").unwrap()),
        ]
    );
}

#[test]
fn a_link_wants_a_space_in_front() {
    let input = SharedString::from_str("a/b [[c]]/d\thttp://e").unwrap();
    let (entities, steps) = parse_text(input).unwrap();

    assert_eq!(steps, 20);
    assert_eq!(
        entities,
        vec![
            Entity::TextSpan(SharedString::from_str("a/b ").unwrap()),
            Entity::WikiLink(SharedString::from_str("[[c]]").unwrap()),
            Entity::TextSpan(SharedString::from_str("/d\thttp://e").unwrap()),
        ]
    );
}

#[test]
fn it_parses_a_run_of_empty_space() {
    let input = SharedString::from_str(" \t\r\n  x ").unwrap();
    let (entity, steps) = parse_empty_space(input).unwrap();

    assert_eq!(steps, 6);
    assert_eq!(entity, Entity::EmptySpace(SharedString::from_str(" \t\r\n  ").unwrap()));

    let input = SharedString::from_str("x").unwrap();
    let (entity, steps) = parse_empty_space(input).unwrap();

    assert_eq!(steps, 0);
    assert_eq!(entity, Entity::EmptySpace(SharedString::from_str("").unwrap()));
}

#[test]
fn it_parses_until_a_boundary_or_through_a_delimiter() {
    let input = SharedString::from_str("one two").unwrap();
    let (value, steps) = parse_until(input, tab_or_space_predicate()).unwrap();

    assert_eq!(steps, 3);
    assert_eq!(value.to_string(), "one");

    let input = SharedString::from_str("one END two").unwrap();
    let end = ['E', 'N', 'D'];
    let (value, steps) =
        parse_until(input, sequence_to_predicate(Sequence::new(&end, None))).unwrap();

    assert_eq!(steps, 8);
    assert_eq!(value.to_string(), "one END ");

    let input = SharedString::from_str("one two").unwrap();
    let (value, steps) =
        parse_until(input, sequence_to_predicate(Sequence::new(&end, None))).unwrap();

    assert_eq!(steps, 7);
    assert_eq!(value.to_string(), "one two");
}

#[test]
fn it_cuts_in_front_of_a_match_of_one_character() {
    let mark = ['x'];
    let input = SharedString::from_str("abxcd").unwrap();
    let (value, steps) =
        parse_until(input, sequence_to_predicate(Sequence::new(&mark, None))).unwrap();

    assert_eq!(steps, 2);
    assert_eq!(value.to_string(), "ab");

    let input = SharedString::from_str("xabc").unwrap();
    let (value, steps) =
        parse_until(input, sequence_to_predicate(Sequence::new(&mark, None))).unwrap();

    assert_eq!(steps, 0);
    assert_eq!(value.to_string(), "");
}

#[test]
fn it_cuts_by_the_length_of_the_match_in_bytes() {
    let end = ['E', 'N', 'D'];
    let input = SharedString::from_str("x\u{e9}END z").unwrap();
    let (value, steps) =
        parse_until(input, sequence_to_predicate(Sequence::new(&end, None))).unwrap();

    assert_eq!(steps, 7);
    assert_eq!(value.to_string(), "x\u{e9}END ");

    let pair = ['a', '\n'];
    let input = SharedString::from_str("xa\ny").unwrap();
    let (value, steps) =
        parse_until(input, sequence_to_predicate(Sequence::new(&pair, None))).unwrap();

    assert_eq!(steps, 3);
    assert_eq!(value.to_string(), "xa\n");

    let input = SharedString::from_str("ENDab").unwrap();
    let (value, steps) =
        parse_until(input, sequence_to_predicate(Sequence::new(&end, None))).unwrap();

    assert_eq!(steps, 4);
    assert_eq!(value.to_string(), "ENDa");
}

#[test]
fn it_refuses_a_cut_beyond_the_text() {
    let end = ['E', 'N', 'D'];
    let input = SharedString::from_str("one END").unwrap();
    let parsed = parse_until(input, sequence_to_predicate(Sequence::new(&end, None)));

    assert!(matches!(parsed, Err(ParseError::SliceOutOfBounds)));

    let input = SharedString::from_str("one END!").unwrap();
    let (value, steps) =
        parse_until(input, sequence_to_predicate(Sequence::new(&end, None))).unwrap();

    assert_eq!(steps, 8);
    assert_eq!(value.to_string(), "one END!");
}

#[test]
fn it_refuses_a_cut_inside_a_character() {
    let end = ['E', 'N', 'D'];
    let input = SharedString::from_str("END\u{e9}").unwrap();
    let parsed = parse_until(input, sequence_to_predicate(Sequence::new(&end, None)));

    assert!(matches!(parsed, Err(ParseError::SliceOutOfBounds)));

    let input = SharedString::from_str("END\u{20ac}x").unwrap();
    let parsed = parse_until(input, sequence_to_predicate(Sequence::new(&end, None)));

    assert!(matches!(parsed, Err(ParseError::SliceOutOfBounds)));

    let input = SharedString::from_str("ENDa\u{e9}").unwrap();
    let (value, steps) =
        parse_until(input, sequence_to_predicate(Sequence::new(&end, None))).unwrap();

    assert_eq!(steps, 4);
    assert_eq!(value.to_string(), "ENDa");

    let input = SharedString::from_str("EN\u{20ac}D\u{e9}z").unwrap();
    let delimiter = ['\u{20ac}', 'D'];
    let (value, steps) =
        parse_until(input, sequence_to_predicate(Sequence::new(&delimiter, None))).unwrap();

    assert_eq!(steps, 6);
    assert_eq!(value.to_string(), "EN\u{20ac}D");
}

#[test]
fn it_keeps_a_line_break_of_two_characters_out_of_a_link() {
    let input = SharedString::from_str("/ab\r\ncd").unwrap();
    let (value, steps) = parse_until(input, white_space_predicate()).unwrap();

    assert_eq!(steps, 3);
    assert_eq!(value.to_string(), "/ab");

    let input = SharedString::from_str("[[ab\r\ncd").unwrap();
    let (value, steps) = parse_until(input, wiki_link_delimiter_predicate()).unwrap();

    assert_eq!(steps, 4);
    assert_eq!(value.to_string(), "[[ab");

    let input = SharedString::from_str("[[ab]]cd").unwrap();
    let (value, steps) = parse_until(input, wiki_link_delimiter_predicate()).unwrap();

    assert_eq!(steps, 6);
    assert_eq!(value.to_string(), "[[ab]]");

    let input = SharedString::from_str("/ab\ncd").unwrap();
    let (value, steps) = parse_until(input, white_space_predicate()).unwrap();

    assert_eq!(steps, 3);
    assert_eq!(value.to_string(), "/ab");
}

#[test]
fn it_counts_the_steps_to_the_last_character_where_nothing_matches() {
    let end = ['E', 'N', 'D'];
    let input = SharedString::from_str("caf\u{e9}").unwrap();
    let (value, steps) =
        parse_until(input, sequence_to_predicate(Sequence::new(&end, None))).unwrap();

    assert_eq!(steps, 4);
    assert_eq!(value.to_string(), "caf\u{e9}");

    let input = SharedString::from_str("").unwrap();
    let (value, steps) =
        parse_until(input, sequence_to_predicate(Sequence::new(&end, None))).unwrap();

    assert_eq!(steps, 1);
    assert_eq!(value.to_string(), "");
}

#[test]
fn a_link_is_as_long_as_its_bytes() {
    let input = SharedString::from_str("/caf\u{e9}").unwrap();
    let (entity, steps) = parse_slash_link(input).unwrap();

    assert_eq!(steps, 6);
    assert_eq!(entity.to_string(), "/caf\u{e9}");

    let input = SharedString::from_str("https://caf\u{e9} au lait").unwrap();
    let (entity, steps) = parse_hyper_link(input).unwrap();

    assert_eq!(steps, 13);
    assert_eq!(entity.to_string(), "https://caf\u{e9}");

    let input = SharedString::from_str("[[caf\u{e9}").unwrap();
    let (entity, steps) = parse_wiki_link(input).unwrap();

    assert_eq!(steps, 7);
    assert_eq!(entity.to_string(), "[[caf\u{e9}");
}
