//! Slashlinks: references to content in a sphere, made of a peer and a
//! slug. With just the slug a slashlink looks like `/foo`, with just the
//! peer like `@cdata`, and with both like `@cdata/foo`.

use crate::error::ParseError;
use std::str::Chars;
use vstd::prelude::*;
use vstd::std_specs::iter::IteratorSpec;
use vstd::string::StringExecFns;

verus! {

/// The various forms that the peer of a slashlink may take.
#[derive(Debug, PartialEq, Clone)]
pub enum Peer {
    /// A chain of names, written with dots between them.
    Name(Vec<String>),
    /// A decentralized identifier, which begins with `did:`.
    Did(String),
    /// No peer.
    Nobody,
}

/// What a `Peer` is, as plain values.
pub enum PeerView {
    Name(Seq<Seq<char>>),
    Did(Seq<char>),
    Nobody,
}

/// The characters of each of `names`, in order.
pub open spec fn names_of(names: Seq<String>) -> Seq<Seq<char>> {
    Seq::new(names.len(), |index: int| names[index]@)
}

impl View for Peer {
    type V = PeerView;

    open spec fn view(&self) -> PeerView {
        match self {
            Peer::Name(names) => PeerView::Name(names_of(names@)),
            Peer::Did(did) => PeerView::Did(did@),
            Peer::Nobody => PeerView::Nobody,
        }
    }
}

/// A slashlink, taken apart into its peer and its slug.
#[derive(Debug, PartialEq, Clone)]
pub struct Slashlink {
    pub peer: Peer,
    pub slug: Option<String>,
}

/// What a `Slashlink` is, as plain values.
pub struct SlashlinkView {
    pub peer: PeerView,
    pub slug: Option<Seq<char>>,
}

impl View for Slashlink {
    type V = SlashlinkView;

    open spec fn view(&self) -> SlashlinkView {
        SlashlinkView {
            peer: self.peer@,
            slug: match self.slug {
                Some(slug) => Some(slug@),
                None => None,
            },
        }
    }
}

/// The position of the first `token` in `text` at or behind `from`, or
/// the length of `text` if there is none.
pub open spec fn index_of(text: Seq<char>, token: char, from: int) -> int
    decreases text.len() - from,
{
    if from < 0 || from >= text.len() {
        text.len() as int
    } else if text[from] == token {
        from
    } else {
        index_of(text, token, from + 1)
    }
}

/// An index found lies at or behind where the search began and not
/// behind the end.
pub proof fn lemma_index_of(text: Seq<char>, token: char, from: int)
    requires
        0 <= from <= text.len(),
    ensures
        from <= index_of(text, token, from) <= text.len(),
    decreases text.len() - from,
{
    if from < text.len() && text[from] != token {
        lemma_index_of(text, token, from + 1);
    }
}

/// The parts of `text` from `from` on that lie between one `separator`
/// and the next.
pub open spec fn split_from(text: Seq<char>, separator: char, from: int) -> Seq<Seq<char>>
    decreases text.len() - from,
{
    let at = index_of(text, separator, from);
    if from < 0 || at >= text.len() || at < from {
        seq![text.subrange(from, text.len() as int)]
    } else {
        seq![text.subrange(from, at)] + split_from(text, separator, at + 1)
    }
}

/// The parts of `text` that lie between one `separator` and the next.
pub open spec fn split(text: Seq<char>, separator: char) -> Seq<Seq<char>> {
    split_from(text, separator, 0)
}

/// Whether `text` begins with `did:`.
pub open spec fn is_did(text: Seq<char>) -> bool {
    text.len() >= 4 && text[0] == 'd' && text[1] == 'i' && text[2] == 'd' && text[3] == ':'
}

/// The peer that `raw`, the characters between `@` and `/`, names.
pub open spec fn peer_of(raw: Seq<char>) -> PeerView {
    if raw.len() == 0 {
        PeerView::Nobody
    } else if is_did(raw) {
        PeerView::Did(raw)
    } else {
        PeerView::Name(split(raw, '.'))
    }
}

/// The characters of `text` behind position `from`, if there are any.
pub open spec fn rest_of(text: Seq<char>, from: int) -> Option<Seq<char>> {
    if from < text.len() {
        Some(text.skip(from))
    } else {
        None
    }
}

/// The slashlink that `text` is, if it is one. A text that begins with
/// `@` names a peer up to its first slash and a slug behind it; a text
/// that begins with a slash names a slug; a peer or a slug that is empty
/// is none, and a text that names neither is no slashlink.
pub open spec fn slashlink_of(text: Seq<char>) -> Option<SlashlinkView> {
    if text.len() == 0 {
        None
    } else {
        let link = if text[0] == '@' {
            let stop = index_of(text, '/', 1);
            SlashlinkView {
                peer: peer_of(text.subrange(1, stop)),
                slug: rest_of(text, stop + 1),
            }
        } else if text[0] == '/' {
            SlashlinkView { peer: PeerView::Nobody, slug: rest_of(text, 1) }
        } else {
            SlashlinkView { peer: PeerView::Nobody, slug: None }
        };
        if link.peer is Nobody && link.slug is None {
            None
        } else {
            Some(link)
        }
    }
}

/// The characters up to the next `token`, which is taken too, or up to
/// the end; and whether the token was there.
fn take_until(
    rest: &mut Chars<'_>,
    token: char,
    Ghost(text): Ghost<Seq<char>>,
    Ghost(from): Ghost<int>,
) -> (taken: (String, bool))
    requires
        0 <= from <= text.len(),
        (*old(rest)).remaining() == text.skip(from),
    ensures
        from <= index_of(text, token, from) <= text.len(),
        taken.0@ == text.subrange(from, index_of(text, token, from)),
        taken.1 == (index_of(text, token, from) < text.len()),
        taken.1 ==> (*final(rest)).remaining() == text.skip(index_of(text, token, from) + 1),
{
    let mut part = String::new();
    let mut found = false;
    let ghost mut at = from;
    proof {
        assert(text.subrange(from, from) =~= Seq::<char>::empty());
        lemma_index_of(text, token, from);
    }
    loop
        invariant_except_break
            index_of(text, token, from) == index_of(text, token, at),
            !found,
            (*rest).remaining() == text.skip(at),
        invariant
            0 <= from <= at <= text.len(),
            part@ == text.subrange(from, at),
        ensures
            at == index_of(text, token, from),
            found == (at < text.len()),
            found ==> (*rest).remaining() == text.skip(at + 1),
        decreases text.len() - at,
    {
        match rest.next() {
            Some(character) => {
                proof {
                    assert(text.skip(at)[0] == text[at]);
                    assert(text.skip(at).drop_first() =~= text.skip(at + 1));
                }
                if character == token {
                    found = true;
                    break ;
                }
                part.push(character);
                proof {
                    assert(text.subrange(from, at + 1) =~= text.subrange(from, at).push(
                        character,
                    ));
                    at = at + 1;
                }
            },
            None => {
                break ;
            },
        }
    }
    (part, found)
}

/// The characters that are left, if there are any.
fn take_rest(rest: &mut Chars<'_>, Ghost(text): Ghost<Seq<char>>, Ghost(from): Ghost<int>) -> (taken:
    Option<String>)
    requires
        0 <= from <= text.len(),
        (*old(rest)).remaining() == text.skip(from),
    ensures
        match taken {
            Some(taken) => rest_of(text, from) == Some(taken@),
            None => rest_of(text, from) is None,
        },
{
    let mut all = String::new();
    let ghost mut at: int = from;
    proof {
        assert(text.subrange(from, from) =~= Seq::<char>::empty());
    }
    loop
        invariant
            0 <= from <= at <= text.len(),
            (*rest).remaining() == text.skip(at),
            all@ == text.subrange(from, at),
        ensures
            all@ == text.skip(from),
        decreases text.len() - at,
    {
        match rest.next() {
            Some(character) => {
                all.push(character);
                proof {
                    assert(text.skip(at)[0] == text[at]);
                    assert(text.skip(at).drop_first() =~= text.skip(at + 1));
                    assert(text.subrange(from, at + 1) =~= text.subrange(from, at).push(
                        character,
                    ));
                    at = at + 1;
                }
            },
            None => {
                proof {
                    assert(text.subrange(from, at) =~= text.skip(from));
                }
                break ;
            },
        }
    }
    if all.as_str().unicode_len() > 0 {
        Some(all)
    } else {
        None
    }
}

/// The parts of `raw` that lie between one dot and the next.
fn split_names(raw: &String) -> (names: Vec<String>)
    ensures
        names_of(names@) == split(raw@, '.'),
{
    let ghost text = raw@;
    let mut names: Vec<String> = Vec::new();
    let mut rest = raw.as_str().chars();
    let ghost mut from: int = 0;
    proof {
        assert(text.skip(0) =~= text);
        assert(names_of(names@) =~= Seq::<Seq<char>>::empty());
        assert(Seq::<Seq<char>>::empty() + split(text, '.') =~= split(text, '.'));
    }
    loop
        invariant_except_break
            rest.remaining() == text.skip(from),
            split(text, '.') == names_of(names@) + split_from(text, '.', from),
        invariant
            0 <= from <= text.len(),
        ensures
            names_of(names@) == split(text, '.'),
        decreases text.len() - from,
    {
        let ghost found = names_of(names@);
        let (name, more) = take_until(&mut rest, '.', Ghost(text), Ghost(from));
        proof {
            lemma_index_of(text, '.', from);
        }
        let ghost part = name@;
        names.push(name);
        proof {
            assert(names_of(names@) =~= found + seq![part]);
        }
        if !more {
            proof {
                assert(text.subrange(from, index_of(text, '.', from)) =~= text.subrange(
                    from,
                    text.len() as int,
                ));
            }
            break ;
        }
        proof {
            let at = index_of(text, '.', from);
            assert(found + (seq![part] + split_from(text, '.', at + 1)) =~= (found + seq![part])
                + split_from(text, '.', at + 1));
            from = at + 1;
        }
    }
    names
}

/// Whether `raw` begins with `did:`.
fn begins_did(raw: &String) -> (did: bool)
    ensures
        did == is_did(raw@),
{
    let slice = raw.as_str();
    slice.unicode_len() >= 4 && slice.get_char(0) == 'd' && slice.get_char(1) == 'i'
        && slice.get_char(2) == 'd' && slice.get_char(3) == ':'
}

impl std::str::FromStr for Slashlink {
    type Err = ParseError;

    /// Reads a slashlink from its text.
    fn from_str(s: &str) -> (parsed: Result<Self, Self::Err>)
        ensures
            match parsed {
                Ok(link) => slashlink_of(s@) == Some(link@),
                Err(error) => error == ParseError::NotASlashlink && slashlink_of(s@) is None,
            },
    {
        let ghost all = s@;
        let mut rest = s.chars();
        let mut raw_peer = String::new();
        let mut slug: Option<String> = None;
        match rest.next() {
            Some('@') => {
                proof {
                    assert(all.drop_first() =~= all.skip(1));
                    lemma_index_of(all, '/', 1);
                }
                let (raw, more) = take_until(&mut rest, '/', Ghost(all), Ghost(1));
                raw_peer = raw;
                if more {
                    slug = take_rest(&mut rest, Ghost(all), Ghost(index_of(all, '/', 1) + 1));
                }
            },
            Some('/') => {
                proof {
                    assert(all.drop_first() =~= all.skip(1));
                }
                slug = take_rest(&mut rest, Ghost(all), Ghost(1));
            },
            _ => {},
        }
        let peer = if raw_peer.as_str().unicode_len() > 0 {
            if begins_did(&raw_peer) {
                Peer::Did(raw_peer)
            } else {
                Peer::Name(split_names(&raw_peer))
            }
        } else {
            Peer::Nobody
        };
        let nameless = match peer {
            Peer::Nobody => true,
            _ => false,
        };
        if nameless && slug.is_none() {
            Err(ParseError::NotASlashlink)
        } else {
            Ok(Slashlink { peer, slug })
        }
    }
}

/// The texts in `parts`, with `separator` between one and the next.
pub open spec fn join(parts: Seq<Seq<char>>, separator: char) -> Seq<char>
    decreases parts.len(),
{
    if parts.len() == 0 {
        seq![]
    } else if parts.len() == 1 {
        parts[0]
    } else {
        join(parts.drop_last(), separator) + seq![separator] + parts.last()
    }
}

/// The text of a peer: `@` and its names with dots between them, or `@`
/// and its identifier; nothing where there is no peer.
pub open spec fn peer_text(peer: PeerView) -> Seq<char> {
    match peer {
        PeerView::Name(names) => seq!['@'] + join(names, '.'),
        PeerView::Did(did) => seq!['@'] + did,
        PeerView::Nobody => seq![],
    }
}

/// The text of a slashlink: the text of its peer, then a slash and its
/// slug if it has one.
pub open spec fn slashlink_text(link: SlashlinkView) -> Seq<char> {
    peer_text(link.peer) + match link.slug {
        Some(slug) => seq!['/'] + slug,
        None => seq![],
    }
}

/// The parts of a text, put together again with the separator between
/// them, are the text.
pub proof fn lemma_join_split(text: Seq<char>, separator: char)
    ensures
        join(split(text, separator), separator) == text,
{
    lemma_join_split_from(text, separator, 0);
    assert(text.subrange(0, text.len() as int) =~= text);
}

/// The parts of a text from a position on, put together again, are the
/// text from that position on; and there is one part at least.
proof fn lemma_join_split_from(text: Seq<char>, separator: char, from: int)
    requires
        0 <= from <= text.len(),
    ensures
        join(split_from(text, separator, from), separator) == text.subrange(
            from,
            text.len() as int,
        ),
        split_from(text, separator, from).len() >= 1,
    decreases text.len() - from,
{
    let at = index_of(text, separator, from);
    lemma_index_of(text, separator, from);
    if at < text.len() {
        lemma_index_found(text, separator, from);
        lemma_join_split_from(text, separator, at + 1);
        let first = text.subrange(from, at);
        let others = split_from(text, separator, at + 1);
        lemma_join_front(first, others, separator);
        assert(first + seq![separator] + text.subrange(at + 1, text.len() as int)
            =~= text.subrange(from, text.len() as int));
    }
}

/// Where an index is found, the token is.
proof fn lemma_index_found(text: Seq<char>, token: char, from: int)
    requires
        0 <= from <= text.len(),
        index_of(text, token, from) < text.len(),
    ensures
        text[index_of(text, token, from)] == token,
    decreases text.len() - from,
{
    if from < text.len() && text[from] != token {
        lemma_index_found(text, token, from + 1);
    }
}

/// A part in front of others joins them with a separator.
pub proof fn lemma_join_front(first: Seq<char>, others: Seq<Seq<char>>, separator: char)
    requires
        others.len() >= 1,
    ensures
        join(seq![first] + others, separator) == first + seq![separator] + join(others, separator),
    decreases others.len(),
{
    let all = seq![first] + others;
    reveal_with_fuel(join, 3);
    if others.len() == 1 {
        assert(all.drop_last() =~= seq![first]);
        assert(all.last() == others[0]);
    } else {
        lemma_join_front(first, others.drop_last(), separator);
        assert(all.drop_last() =~= seq![first] + others.drop_last());
        assert(all.last() == others.last());
        assert(join(all, separator) =~= first + seq![separator] + join(others, separator));
    }
}

impl Slashlink {
    /// The text of the slashlink.
    pub fn to_string(&self) -> (text: String)
        ensures
            text@ == slashlink_text(self@),
    {
        let mut text = String::new();
        match &self.peer {
            Peer::Name(names) => {
                text.push('@');
                let ghost parts = names_of(names@);
                let mut index: usize = 0;
                proof {
                    assert(parts.take(0) =~= Seq::<Seq<char>>::empty());
                    assert(seq!['@'] + join(parts.take(0), '.') =~= seq!['@']);
                    assert(Seq::<char>::empty().push('@') =~= seq!['@']);
                }
                while index < names.len()
                    invariant
                        index <= names@.len(),
                        parts == names_of(names@),
                        text@ == seq!['@'] + join(parts.take(index as int), '.'),
                    decreases names@.len() - index,
                {
                    let ghost before = join(parts.take(index as int), '.');
                    if index > 0 {
                        text.push('.');
                    }
                    text.append(names[index].as_str());
                    proof {
                        let taken = parts.take(index + 1);
                        reveal_with_fuel(join, 2);
                        assert(taken.drop_last() =~= parts.take(index as int));
                        assert(taken.last() == names@[index as int]@);
                        if index > 0 {
                            assert(text@ =~= seq!['@'] + (before + seq!['.'] + taken.last()));
                        } else {
                            assert(text@ =~= seq!['@'] + taken.last());
                        }
                    }
                    index = index + 1;
                }
                proof {
                    assert(parts.take(index as int) =~= parts);
                }
            },
            Peer::Did(did) => {
                text.push('@');
                text.append(did.as_str());
                proof {
                    assert(Seq::<char>::empty().push('@') =~= seq!['@']);
                }
            },
            Peer::Nobody => {},
        }
        let ghost peer = text@;
        match &self.slug {
            Some(slug) => {
                text.push('/');
                text.append(slug.as_str());
                proof {
                    assert(text@ =~= peer + (seq!['/'] + slug@));
                }
            },
            None => {
                proof {
                    assert(peer + Seq::<char>::empty() =~= peer);
                }
            },
        }
        text
    }
}

} // verus!
