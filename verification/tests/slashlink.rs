use std::str::FromStr;

use subtext::slashlink::{Peer, Slashlink};

#[test]
fn it_can_parse_a_basic_slashlink() {
    let slashlink = Slashlink::from_str("/foo-bar").unwrap();

    assert_eq!(slashlink.peer, Peer::Nobody);
    assert_eq!(slashlink.slug, Some("foo-bar".into()));
}

#[test]
fn it_can_parse_a_basic_slashlink_with_a_short_peer_name() {
    let slashlink = Slashlink::from_str("@ben/foo-bar").unwrap();

    assert_eq!(slashlink.peer, Peer::Name(vec!["ben".into()]));
    assert_eq!(slashlink.slug, Some("foo-bar".into()));
}

#[test]
fn it_can_parse_a_basic_slashlink_with_a_peer_name() {
    let slashlink = Slashlink::from_str("@cdata/foo-bar").unwrap();

    assert_eq!(slashlink.peer, Peer::Name(vec!["cdata".into()]));
    assert_eq!(slashlink.slug, Some("foo-bar".into()));
}

#[test]
fn it_can_parse_a_slashlink_with_a_peer_did() {
    let slashlink = Slashlink::from_str("@did:test:alice/foo-bar").unwrap();
    assert_eq!(slashlink.peer, Peer::Did("did:test:alice".into()));
    assert_eq!(slashlink.slug, Some("foo-bar".into()));
}

#[test]
fn it_can_parse_a_slashlink_with_a_peer_name_chain() {
    let slashlink = Slashlink::from_str("@jordan.gordon.morgon/foo-bar").unwrap();

    assert_eq!(
        slashlink.peer,
        Peer::Name(vec!["jordan".into(), "gordon".into(), "morgon".into()])
    );
    assert_eq!(slashlink.slug, Some("foo-bar".into()));
}

#[test]
fn it_can_parse_a_slashlink_with_only_a_peer() {
    let slashlink = Slashlink::from_str("@cdata").unwrap();
    assert_eq!(slashlink.peer, Peer::Name(vec!["cdata".into()]));
    assert_eq!(slashlink.slug, None);
}

#[test]
fn it_can_parse_a_slashlink_with_only_a_peer_did() {
    let slashlink = Slashlink::from_str("@did:test:alice").unwrap();

    assert_eq!(slashlink.peer, Peer::Did("did:test:alice".into()));
    assert_eq!(slashlink.slug, None);
}

#[test]
fn it_can_parse_a_slashlink_with_only_a_peer_name_chain() {
    let slashlink = Slashlink::from_str("@jordan.gordon.morgon").unwrap();

    assert_eq!(
        slashlink.peer,
        Peer::Name(vec!["jordan".into(), "gordon".into(), "morgon".into()])
    );
    assert_eq!(slashlink.slug, None);
}

#[test]
fn it_will_not_parse_a_non_slashlink() {
    let non_slashlinks = vec!["cdata", "@", "/", "@/", "foo/bar"];
    for test_case in non_slashlinks {
        println!("Checking {}", test_case);
        assert!(Slashlink::from_str(test_case).is_err())
    }
}

#[test]
fn it_names_the_error_of_a_non_slashlink() {
    assert_eq!(
        Slashlink::from_str(""),
        Err(subtext::ParseError::NotASlashlink)
    );
    assert_eq!(
        subtext::ParseError::NotASlashlink.to_string(),
        "Could not parse text as a slashlink"
    );
}

#[test]
fn it_takes_the_slug_from_the_first_slash_on() {
    let slashlink = Slashlink::from_str("@a.b/c/d@e").unwrap();

    assert_eq!(slashlink.peer, Peer::Name(vec!["a".into(), "b".into()]));
    assert_eq!(slashlink.slug, Some("c/d@e".into()));

    let slashlink = Slashlink::from_str("@/c").unwrap();

    assert_eq!(slashlink.peer, Peer::Nobody);
    assert_eq!(slashlink.slug, Some("c".into()));

    let slashlink = Slashlink::from_str("@a..b.").unwrap();

    assert_eq!(
        slashlink.peer,
        Peer::Name(vec!["a".into(), "".into(), "b".into(), "".into()])
    );
}

#[test]
fn it_writes_a_slashlink_as_it_was_read() {
    for text in [
        "/foo-bar",
        "@cdata",
        "@cdata/foo-bar",
        "@did:test:alice/foo-bar",
        "@jordan.gordon.morgon/foo-bar",
        "@a..b.",
    ] {
        assert_eq!(Slashlink::from_str(text).unwrap().to_string(), text);
    }
}
