//! The spans that a line of subtext is made of, and the scanner that finds
//! them.

use crate::error::ParseError;
use crate::predicate::{
    is_tab_or_space, link_initial, link_predicate, new_line_initial, white_space_predicate,
    wiki_link_delimiter_initial, wiki_link_delimiter_predicate, LinkState, ParseLinkAs, Predicate,
    WhiteSpacePredicate, WikiLinkDelimiterPredicate, WikiLinkDelimiterState,
    CARRIAGE_RETURN_NEW_LINE_SEQUENCE, WIKI_LINK_CLOSE_SEQUENCE,
};
use crate::sequence::{lemma_go_to_wf, SequenceState};
use crate::text::{
    byte_offset, lemma_byte_len_push, lemma_byte_offset_grows, lemma_byte_offset_one_to_one,
    lemma_byte_offset_skip, Reader, SharedString, MAX_LEN,
};
use vstd::prelude::*;
use vstd::std_specs::iter::IteratorSpec;
use vstd::utf8::encode_utf8;

verus! {

/// The kinds of span.
#[derive(Debug, Clone, Copy, PartialEq, Eq, Structural)]
pub enum Kind {
    /// The character that marks the kind of a block: `#`, `>` or `-`.
    Sigil,
    /// Ordinary prose.
    TextSpan,
    /// A run of white space.
    EmptySpace,
    /// A reference of the form `/path`.
    SlashLink,
    /// A reference that begins with `http://`, `https://` or `ipfs://`.
    HyperLink,
    /// A reference of the form `[[...]]`.
    WikiLink,
}

/// What an `Entity` is, as plain values: a kind and the characters spanned.
pub struct Primitive {
    pub kind: Kind,
    pub text: Seq<char>,
}

/// A typed span of the input. It shares the buffer of the text it was cut
/// from.
#[derive(Debug, Clone, PartialEq)]
pub enum Entity {
    Sigil(SharedString),
    TextSpan(SharedString),
    EmptySpace(SharedString),
    SlashLink(SharedString),
    HyperLink(SharedString),
    WikiLink(SharedString),
}

impl View for Entity {
    type V = Primitive;

    open spec fn view(&self) -> Primitive {
        match self {
            Entity::Sigil(text) => Primitive { kind: Kind::Sigil, text: text@ },
            Entity::TextSpan(text) => Primitive { kind: Kind::TextSpan, text: text@ },
            Entity::EmptySpace(text) => Primitive { kind: Kind::EmptySpace, text: text@ },
            Entity::SlashLink(text) => Primitive { kind: Kind::SlashLink, text: text@ },
            Entity::HyperLink(text) => Primitive { kind: Kind::HyperLink, text: text@ },
            Entity::WikiLink(text) => Primitive { kind: Kind::WikiLink, text: text@ },
        }
    }
}

impl Entity {
    /// The span of the given kind over `text`.
    pub fn new(kind: Kind, text: SharedString) -> (entity: Entity)
        ensures
            entity@ == (Primitive { kind, text: text@ }),
    {
        match kind {
            Kind::Sigil => Entity::Sigil(text),
            Kind::TextSpan => Entity::TextSpan(text),
            Kind::EmptySpace => Entity::EmptySpace(text),
            Kind::SlashLink => Entity::SlashLink(text),
            Kind::HyperLink => Entity::HyperLink(text),
            Kind::WikiLink => Entity::WikiLink(text),
        }
    }

    /// The kind of the span.
    pub fn kind(&self) -> (kind: Kind)
        ensures
            kind == self@.kind,
    {
        match self {
            Entity::Sigil(_) => Kind::Sigil,
            Entity::TextSpan(_) => Kind::TextSpan,
            Entity::EmptySpace(_) => Kind::EmptySpace,
            Entity::SlashLink(_) => Kind::SlashLink,
            Entity::HyperLink(_) => Kind::HyperLink,
            Entity::WikiLink(_) => Kind::WikiLink,
        }
    }

    /// The text of the span.
    pub fn text(&self) -> (text: &SharedString)
        ensures
            text@ == self@.text,
    {
        match self {
            Entity::Sigil(text)
            | Entity::TextSpan(text)
            | Entity::EmptySpace(text)
            | Entity::SlashLink(text)
            | Entity::HyperLink(text)
            | Entity::WikiLink(text) => text,
        }
    }

    /// The characters of the span, as a string of their own.
    pub fn to_string(&self) -> (string: String)
        ensures
            string@ == self@.text,
    {
        self.text().to_string()
    }

    /// The bytes of the span.
    pub fn as_bytes(&self) -> (bytes: &[u8])
        ensures
            bytes@ == encode_utf8(self@.text),
    {
        self.text().as_bytes()
    }
}

/// The views of `entities`, in order.
pub open spec fn primitives_of(entities: Seq<Entity>) -> Seq<Primitive> {
    Seq::new(entities.len(), |index: int| entities[index]@)
}

/// The characters of `primitives`, one span after the other.
pub open spec fn flatten(primitives: Seq<Primitive>) -> Seq<char>
    decreases primitives.len(),
{
    if primitives.len() == 0 {
        seq![]
    } else {
        flatten(primitives.drop_last()) + primitives.last().text
    }
}

/// The characters of two runs of spans in a row are the characters of the
/// one and then of the other.
pub proof fn lemma_flatten_concat(front: Seq<Primitive>, back: Seq<Primitive>)
    ensures
        flatten(front + back) == flatten(front) + flatten(back),
    decreases back.len(),
{
    if back.len() == 0 {
        assert(front + back =~= front);
        assert(flatten(front) + flatten(back) =~= flatten(front));
    } else {
        lemma_flatten_concat(front, back.drop_last());
        assert((front + back).drop_last() =~= front + back.drop_last());
        assert(flatten(front + back) =~= flatten(front) + flatten(back));
    }
}

/// The characters of a single span are its text.
pub proof fn lemma_flatten_one(primitive: Primitive)
    ensures
        flatten(seq![primitive]) == primitive.text,
{
    reveal_with_fuel(flatten, 2);
    assert(seq![primitive].drop_last() =~= Seq::<Primitive>::empty());
    assert(flatten(seq![primitive]) =~= primitive.text);
}

/// Whether `token` is white space that can stand in a line: a space, a tab
/// or a carriage return.
pub open spec fn is_blank(token: char) -> bool {
    is_tab_or_space(token) || token == '\r'
}

/// Whether `token` is white space: a space, a tab, a carriage return or a
/// line feed.
pub open spec fn is_empty_space(token: char) -> bool {
    token == '\r' || token == '\n' || token == '\t' || token == ' '
}

/// The length of the run of white space with which `text` begins, counted
/// from `from`.
pub open spec fn empty_space_end(text: Seq<char>, from: int) -> int
    decreases text.len() - from,
{
    if 0 <= from < text.len() && is_empty_space(text[from]) {
        empty_space_end(text, from + 1)
    } else {
        from
    }
}

/// The run of white space with which `input` begins, as one span, and its
/// length in bytes.
pub fn parse_empty_space(input: SharedString) -> (parsed: Result<(Entity, usize), ParseError>)
    ensures
        parsed is Ok,
        parsed->Ok_0.0@ == (Primitive {
            kind: Kind::EmptySpace,
            text: input@.take(empty_space_end(input@, 0)),
        }),
        parsed->Ok_0.1 == byte_offset(input@, empty_space_end(input@, 0)),
{
    let (mut reader, mut rest) = Reader::new(&input);
    let mut end: usize = 0;
    loop
        invariant_except_break
            end == reader.position(),
            empty_space_end(input@, 0) == empty_space_end(input@, end as int),
        invariant
            reader.wf(),
            reader.text() == input@,
            rest.remaining() == input@.skip(reader.position() as int),
            end <= reader.position(),
        ensures
            reader.wf(),
            reader.text() == input@,
            end <= reader.position(),
            end == empty_space_end(input@, 0),
        decreases input@.len() - reader.position(),
    {
        match reader.next(&mut rest) {
            Some(token) => match token {
                '\r' | '\n' | '\t' | ' ' => {
                    end = end + 1;
                },
                _ => {
                    break ;
                },
            },
            None => {
                break ;
            },
        }
    }
    let steps = reader.offset(end);
    match reader.cut(&input, 0, end) {
        Ok(text) => {
            proof {
                assert(input@.subrange(0, end as int) =~= input@.take(end as int));
            }
            Ok((Entity::EmptySpace(text), steps))
        },
        Err(error) => Err(error),
    }
}

/// The first match of a predicate in `text`, looked for from position
/// `from` on with the predicate in `state`: where the match ends, and its
/// length.
pub open spec fn first_match<P: Predicate>(text: Seq<char>, state: P::V, from: int) -> Option<
    (int, usize),
>
    decreases text.len() - from,
{
    if from < 0 || from >= text.len() {
        None
    } else {
        match P::outcome(state, text[from]) {
            Some(length) => Some((from, length)),
            None => first_match::<P>(text, P::after(state, text[from]), from + 1),
        }
    }
}

/// Whether `token` is a boundary, which stays outside of the link that it
/// ends: the end of a line, a space or a tab.
pub open spec fn is_boundary(token: char) -> bool {
    token == '\n' || is_tab_or_space(token)
}

/// Where a link ends that is read from position `from` on with the
/// predicate for what ends it in `state`: at the first match of the
/// predicate. A match that ends with a boundary stays outside of the link,
/// as far back as it reaches, which is one character at least and no
/// further than the beginning; any other match closes the link and
/// belongs to it. Without a match the link ends with `text`.
pub open spec fn link_end_in<P: Predicate>(text: Seq<char>, state: P::V, from: int) -> int {
    match first_match::<P>(text, state, from) {
        None => text.len() as int,
        Some((index, length)) => if is_boundary(text[index]) {
            if length == 0 {
                index
            } else if length <= index + 1 {
                index + 1 - length
            } else {
                0
            }
        } else {
            index + 1
        },
    }
}

/// Where a link ends that begins with `text`.
pub open spec fn link_end<P: Predicate>(text: Seq<char>, state: P::V) -> int {
    link_end_in::<P>(text, state, 0)
}

/// The position in `text` of the character that begins at byte `bytes`,
/// or the length of `text` where `text` ends at that byte; none where no
/// character of `text` begins at that byte and `text` does not end there.
pub open spec fn position_at(text: Seq<char>, bytes: int) -> Option<int> {
    if exists|index: int| 0 <= index <= text.len() && #[trigger] byte_offset(text, index) == bytes {
        Some(
            choose|index: int|
                0 <= index <= text.len() && #[trigger] byte_offset(text, index) == bytes,
        )
    } else {
        None
    }
}

/// Whether the match that ends at `index` with the given length is a line
/// feed together with the carriage return in front of it.
pub open spec fn is_line_break(text: Seq<char>, index: int, length: int) -> bool {
    length == 2 && index >= 1 && text[index] == '\n' && text[index - 1] == '\r'
}

/// The number of characters that `parse_until` cuts off, if it cuts any:
/// all of `text` where the predicate matches nowhere, and otherwise what
/// lies in front of the cut that the first match makes. The cut lies as
/// many bytes behind the beginning of the character that ends the match
/// as the match is long, less one: in front of that character for a match
/// of length one, and behind it for a match of two characters of which it
/// takes one byte. Only a carriage return and its line feed, matched as
/// two, are left out together: the cut lies in front of the two. There is
/// no cut where no character begins at the byte of the cut and the text
/// does not end there.
pub open spec fn until<P: Predicate>(text: Seq<char>, state: P::V) -> Option<int> {
    match first_match::<P>(text, state, 0) {
        None => Some(text.len() as int),
        Some((index, length)) => if is_line_break(text, index, length as int) {
            Some(index - 1)
        } else {
            position_at(text, byte_offset(text, index) + length - 1)
        },
    }
}

/// The steps that `parse_until` counts to its cut: the bytes in front of
/// the cut that a match makes. Where the predicate matches nowhere it
/// has stepped to the last character and one byte on, so the steps are
/// one more than the byte at which the last character of `text` begins:
/// the length of `text` in bytes where that character takes one byte.
/// For an empty text it is the one step.
pub open spec fn steps_until<P: Predicate>(text: Seq<char>, state: P::V) -> int {
    match first_match::<P>(text, state, 0) {
        None => if text.len() == 0 {
            1
        } else {
            byte_offset(text, text.len() - 1) as int + 1
        },
        Some(_) => match until::<P>(text, state) {
            Some(cut) => byte_offset(text, cut) as int,
            None => 0,
        },
    }
}

/// The character at a position begins at the byte offset of the position,
/// and no other character does.
pub proof fn lemma_position_at(text: Seq<char>, index: int)
    requires
        0 <= index <= text.len(),
    ensures
        position_at(text, byte_offset(text, index) as int) == Some(index),
{
    let bytes = byte_offset(text, index) as int;
    let found = choose|other: int|
        0 <= other <= text.len() && #[trigger] byte_offset(text, other) == bytes;
    lemma_byte_offset_one_to_one(text, found, index);
}

/// No character begins at a byte that lies inside the character at
/// `index`, in front of the text or behind its end.
pub proof fn lemma_no_position(text: Seq<char>, index: int, bytes: int)
    requires
        0 <= index <= text.len(),
        bytes < 0 || (byte_offset(text, index) < bytes && (index == text.len() || bytes
            < byte_offset(text, index + 1))),
    ensures
        position_at(text, bytes) is None,
{
    assert forall|other: int| 0 <= other <= text.len() implies #[trigger] byte_offset(text, other)
        != bytes by {
        if other <= index {
            lemma_byte_offset_grows(text, other, index);
        } else {
            lemma_byte_offset_grows(text, index + 1, other);
        }
    }
}

/// A first match lies in the text, at or behind the position from which it
/// was looked for.
pub proof fn lemma_first_match_bounds<P: Predicate>(text: Seq<char>, state: P::V, from: int)
    requires
        0 <= from,
    ensures
        first_match::<P>(text, state, from) is Some ==> from <= first_match::<P>(
            text,
            state,
            from,
        )->Some_0.0 < text.len(),
    decreases text.len() - from,
{
    if from < text.len() && P::outcome(state, text[from]) is None {
        lemma_first_match_bounds::<P>(text, P::after(state, text[from]), from + 1);
    }
}

/// A link ends in the text.
pub proof fn lemma_link_end_bounds<P: Predicate>(text: Seq<char>, state: P::V)
    ensures
        0 <= link_end::<P>(text, state) <= text.len(),
{
    lemma_first_match_bounds::<P>(text, state, 0);
}

/// The part of `input` in front of the cut that the first match of
/// `predicate` makes, and the steps to the cut, which are its length in
/// bytes; where the predicate matches nowhere, all of `input`, and the
/// steps as `steps_until` counts them. The predicate is fed the
/// characters of `input` in order up to the one that ends the match, and
/// no other. A cut that does not lie in `input` between two characters is
/// refused as out of bounds.
pub fn parse_until<P: Predicate>(input: SharedString, predicate: P) -> (parsed: Result<
    (SharedString, usize),
    ParseError,
>)
    ensures
        match parsed {
            Ok((slice, steps)) => {
                &&& until::<P>(input@, predicate@) is Some
                &&& slice@ == input@.take(until::<P>(input@, predicate@)->Some_0)
                &&& steps == steps_until::<P>(input@, predicate@)
            },
            Err(error) => error == ParseError::SliceOutOfBounds && until::<P>(
                input@,
                predicate@,
            ) is None,
        },
{
    let ghost initial = predicate@;
    let mut matcher = predicate;
    let (mut reader, mut rest) = Reader::new(&input);
    let mut found: Option<(usize, char, usize)> = None;
    let mut returned = false;
    loop
        invariant_except_break
            found is None,
            first_match::<P>(input@, initial, 0) == first_match::<P>(
                input@,
                matcher@,
                reader.position() as int,
            ),
            returned == (reader.position() >= 1 && input@[reader.position() - 1] == '\r'),
        invariant
            reader.wf(),
            reader.text() == input@,
            rest.remaining() == input@.skip(reader.position() as int),
        ensures
            reader.wf(),
            reader.text() == input@,
            rest.remaining() == input@.skip(reader.position() as int),
            match found {
                Some((index, token, length)) => {
                    &&& first_match::<P>(input@, initial, 0) == Some((index as int, length))
                    &&& index < input@.len()
                    &&& token == input@[index as int]
                    &&& reader.position() == index + 1
                    &&& returned == (index >= 1 && input@[index - 1] == '\r')
                },
                None => first_match::<P>(input@, initial, 0) is None && reader.position()
                    == input@.len(),
            },
        decreases input@.len() - reader.position(),
    {
        let index = reader.index();
        match reader.next(&mut rest) {
            Some(token) => {
                if let Some(length) = matcher.test(&token) {
                    found = Some((index, token, length));
                    break ;
                }
                returned = token == '\r';
            },
            None => {
                break ;
            },
        }
    }
    let ghost text = input@;
    let end = match found {
        None => reader.index(),
        Some((index, token, length)) => {
            if returned && token == '\n' && length == 2 {
                index - 1
            } else if length == 0 {
                let at = reader.offset(index);
                proof {
                    if index >= 1 {
                        lemma_byte_offset_grows(text, index - 1, index as int);
                    }
                }
                if index >= 1 && reader.offset(index - 1) + 1 == at {
                    proof {
                        lemma_position_at(text, index - 1);
                    }
                    index - 1
                } else {
                    proof {
                        if index >= 1 {
                            lemma_no_position(text, index - 1, at - 1);
                        } else {
                            lemma_byte_offset_grows(text, 0, 0);
                            lemma_no_position(text, 0, -1);
                        }
                    }
                    return Err(ParseError::SliceOutOfBounds);
                }
            } else {
                let at = reader.offset(index);
                let more = length - 1;
                proof {
                    lemma_byte_offset_grows(text, text.len() as int, text.len() as int);
                }
                if more > MAX_LEN - at {
                    proof {
                        lemma_no_position(text, text.len() as int, at + more);
                    }
                    return Err(ParseError::SliceOutOfBounds);
                }
                let target = at + more;
                let mut end = index;
                while reader.offset(end) < target
                    invariant
                        reader.wf(),
                        text == input@,
                        initial == predicate@,
                        reader.text() == text,
                        rest.remaining() == text.skip(reader.position() as int),
                        index <= end <= reader.position() <= text.len(),
                        reader.position() >= index + 1,
                        length >= 1,
                        target == byte_offset(text, index as int) + length - 1,
                        until::<P>(text, initial) == position_at(text, target as int),
                        end > index ==> byte_offset(text, end - 1) < target,
                    decreases text.len() - end,
                {
                    if end == reader.index() {
                        match reader.next(&mut rest) {
                            Some(_) => {},
                            None => {
                                proof {
                                    lemma_no_position(text, text.len() as int, target as int);
                                }
                                return Err(ParseError::SliceOutOfBounds);
                            },
                        }
                    }
                    end = end + 1;
                }
                if reader.offset(end) != target {
                    proof {
                        lemma_no_position(text, end - 1, target as int);
                    }
                    return Err(ParseError::SliceOutOfBounds);
                }
                proof {
                    lemma_position_at(text, end as int);
                }
                end
            }
        },
    };
    let steps = if found.is_some() {
        reader.offset(end)
    } else if end == 0 {
        1
    } else {
        proof {
            lemma_byte_offset_grows(text, end - 1, end as int);
        }
        reader.offset(end - 1) + 1
    };
    match reader.cut(&input, 0, end) {
        Ok(slice) => {
            proof {
                assert(input@.subrange(0, end as int) =~= input@.take(end as int));
            }
            Ok((slice, steps))
        },
        Err(error) => Err(error),
    }
}

/// How far a slash link or a hyper link at the beginning of `text` reaches:
/// up to the first white space. A carriage return and its line feed are
/// white space together.
pub open spec fn plain_link_len(text: Seq<char>) -> int {
    link_end::<WhiteSpacePredicate>(text, new_line_initial())
}

/// How far a wiki link at the beginning of `text` reaches: through the
/// closing brackets, or up to the end of the line.
pub open spec fn wiki_link_len(text: Seq<char>) -> int {
    link_end::<WikiLinkDelimiterPredicate>(text, wiki_link_delimiter_initial())
}

/// Whether `state` is a state of the predicate for white space: its
/// machine looks for a carriage return and its line feed.
pub open spec fn ends_plain_link(state: SequenceState) -> bool {
    state.states == CARRIAGE_RETURN_NEW_LINE_SEQUENCE@ && state.wf()
}

/// Whether `state` is a state of the predicate for what ends a wiki link.
pub open spec fn ends_wiki_link(state: WikiLinkDelimiterState) -> bool {
    &&& ends_plain_link(state.new_line)
    &&& state.wiki_link_close.states == WIKI_LINK_CLOSE_SEQUENCE@
    &&& state.wiki_link_close.wf()
}

/// The first match of white space is a space, a tab or a line feed, as a
/// match of length one, or a line feed as a match of length two.
proof fn lemma_plain_link_match(text: Seq<char>, state: SequenceState, from: int)
    requires
        0 <= from,
        ends_plain_link(state),
        state.next_state == 1 ==> from >= 1 && text[from - 1] == '\r',
    ensures
        match first_match::<WhiteSpacePredicate>(text, state, from) {
            Some((index, length)) => {
                &&& from <= index < text.len()
                &&& (length == 1 && is_boundary(text[index])) || is_line_break(
                    text,
                    index,
                    length as int,
                )
            },
            None => true,
        },
    decreases text.len() - from,
{
    if from < text.len() {
        lemma_go_to_wf(state, text[from]);
        assert(CARRIAGE_RETURN_NEW_LINE_SEQUENCE@ =~= seq!['\r', '\n']);
        if WhiteSpacePredicate::outcome(state, text[from]) is None {
            lemma_plain_link_match(text, state.go_to(text[from]), from + 1);
        }
    }
}

/// The first match of what ends a wiki link is a line feed, as a match of
/// length one or two, or a closing bracket as a match of length two.
proof fn lemma_wiki_link_match(text: Seq<char>, state: WikiLinkDelimiterState, from: int)
    requires
        0 <= from,
        ends_wiki_link(state),
        state.new_line.next_state == 1 ==> from >= 1 && text[from - 1] == '\r',
    ensures
        match first_match::<WikiLinkDelimiterPredicate>(text, state, from) {
            Some((index, length)) => {
                &&& from <= index < text.len()
                &&& (length == 1 && text[index] == '\n') || (length == 2 && text[index] == ']')
                    || is_line_break(text, index, length as int)
            },
            None => true,
        },
    decreases text.len() - from,
{
    if from < text.len() {
        lemma_go_to_wf(state.new_line, text[from]);
        lemma_go_to_wf(state.wiki_link_close, text[from]);
        assert(CARRIAGE_RETURN_NEW_LINE_SEQUENCE@ =~= seq!['\r', '\n']);
        assert(WIKI_LINK_CLOSE_SEQUENCE@ =~= seq![']', ']']);
        if WikiLinkDelimiterPredicate::outcome(state, text[from]) is None {
            lemma_wiki_link_match(
                text,
                WikiLinkDelimiterPredicate::after(state, text[from]),
                from + 1,
            );
        }
    }
}

/// A closing bracket takes one byte.
proof fn lemma_bracket_width(text: Seq<char>, index: int)
    requires
        0 <= index < text.len(),
        text[index] == ']',
    ensures
        byte_offset(text, index + 1) == byte_offset(text, index) + 1,
{
    assert(text.take(index + 1) =~= text.take(index).push(']'));
    lemma_byte_len_push(text.take(index), ']');
    assert(vstd::utf8::encode_scalar(']' as u32).len() == 1);
}

/// What `parse_until` cuts off with the predicate for white space, or
/// with the predicate for what ends a wiki link, is the link: the cut is
/// always there, and it lies where the link ends.
pub proof fn lemma_until_ends_link(text: Seq<char>)
    ensures
        until::<WhiteSpacePredicate>(text, new_line_initial()) == Some(plain_link_len(text)),
        until::<WikiLinkDelimiterPredicate>(text, wiki_link_delimiter_initial()) == Some(
            wiki_link_len(text),
        ),
{
    lemma_plain_link_match(text, new_line_initial(), 0);
    lemma_wiki_link_match(text, wiki_link_delimiter_initial(), 0);
    match first_match::<WhiteSpacePredicate>(text, new_line_initial(), 0) {
        Some((index, length)) => {
            lemma_position_at(text, index);
        },
        None => {},
    }
    match first_match::<WikiLinkDelimiterPredicate>(text, wiki_link_delimiter_initial(), 0) {
        Some((index, length)) => {
            if text[index] == ']' {
                lemma_bracket_width(text, index);
                lemma_position_at(text, index + 1);
            } else {
                lemma_position_at(text, index);
            }
        },
        None => {},
    }
}

/// The slash link with which `input` begins, and its length in bytes.
pub fn parse_slash_link(input: SharedString) -> (parsed: Result<(Entity, usize), ParseError>)
    ensures
        parsed is Ok,
        parsed->Ok_0.0@ == (Primitive {
            kind: Kind::SlashLink,
            text: input@.take(plain_link_len(input@)),
        }),
        parsed->Ok_0.1 == byte_offset(input@, plain_link_len(input@)),
{
    proof {
        lemma_until_ends_link(input@);
    }
    match parse_until(input, white_space_predicate()) {
        Ok((value, _)) => {
            let steps = value.len();
            Ok((Entity::SlashLink(value), steps))
        },
        Err(error) => Err(error),
    }
}

/// The hyper link with which `input` begins, and its length in bytes.
pub fn parse_hyper_link(input: SharedString) -> (parsed: Result<(Entity, usize), ParseError>)
    ensures
        parsed is Ok,
        parsed->Ok_0.0@ == (Primitive {
            kind: Kind::HyperLink,
            text: input@.take(plain_link_len(input@)),
        }),
        parsed->Ok_0.1 == byte_offset(input@, plain_link_len(input@)),
{
    proof {
        lemma_until_ends_link(input@);
    }
    match parse_until(input, white_space_predicate()) {
        Ok((value, _)) => {
            let steps = value.len();
            Ok((Entity::HyperLink(value), steps))
        },
        Err(error) => Err(error),
    }
}

/// The wiki link with which `input` begins, and its length in bytes.
pub fn parse_wiki_link(input: SharedString) -> (parsed: Result<(Entity, usize), ParseError>)
    ensures
        parsed is Ok,
        parsed->Ok_0.0@ == (Primitive {
            kind: Kind::WikiLink,
            text: input@.take(wiki_link_len(input@)),
        }),
        parsed->Ok_0.1 == byte_offset(input@, wiki_link_len(input@)),
{
    proof {
        lemma_until_ends_link(input@);
    }
    match parse_until(input, wiki_link_delimiter_predicate()) {
        Ok((value, _)) => {
            let steps = value.len();
            Ok((Entity::WikiLink(value), steps))
        },
        Err(error) => Err(error),
    }
}

/// The kind of span that a link of the given kind is.
pub open spec fn link_kind(parse_as: ParseLinkAs) -> Kind {
    match parse_as {
        ParseLinkAs::SlashLink => Kind::SlashLink,
        ParseLinkAs::HyperLink => Kind::HyperLink,
        ParseLinkAs::WikiLink => Kind::WikiLink,
    }
}

/// How far a link of the given kind at the beginning of `text` reaches.
pub open spec fn link_len(text: Seq<char>, parse_as: ParseLinkAs) -> int {
    match parse_as {
        ParseLinkAs::WikiLink => wiki_link_len(text),
        _ => plain_link_len(text),
    }
}

/// The spans that the characters of `text` from `start` up to `end` make
/// when no link is among them, where `spaces` is the end of the white
/// space with which they begin. If they are nothing but white space, they
/// are white space. If they are the beginning of the text, the white space
/// in front is white space and the rest is prose. Otherwise they are
/// prose.
pub open spec fn clip(text: Seq<char>, spaces: int, start: int, end: int) -> Seq<Primitive> {
    if end <= start {
        seq![]
    } else if spaces >= end {
        seq![Primitive { kind: Kind::EmptySpace, text: text.subrange(start, end) }]
    } else if start == 0 && spaces > 0 {
        seq![
            Primitive { kind: Kind::EmptySpace, text: text.subrange(0, spaces) },
            Primitive { kind: Kind::TextSpan, text: text.subrange(spaces, end) },
        ]
    } else {
        seq![Primitive { kind: Kind::TextSpan, text: text.subrange(start, end) }]
    }
}

/// Where the scanner stands in a text.
pub struct Scan {
    /// The position of the next character to look at.
    pub index: int,
    /// Where the characters begin that belong to no span yet.
    pub start: int,
    /// Where the white space ends with which those characters begin.
    pub spaces: int,
    /// The state of the predicate that looks for the opening of a link.
    pub links: LinkState,
    /// The spans found so far.
    pub found: Seq<Primitive>,
}

impl Scan {
    /// The scanner at the beginning of a text.
    pub open spec fn initial() -> Scan {
        Scan { index: 0, start: 0, spaces: 0, links: link_initial(), found: seq![] }
    }

    /// The scanner after it has noted whether `token`, the character at
    /// `index`, still belongs to the white space with which the characters
    /// begin that belong to no span yet.
    pub open spec fn look(self, token: char) -> Scan {
        if is_blank(token) && self.spaces == self.index {
            Scan { spaces: self.index + 1, ..self }
        } else {
            self
        }
    }

    /// The link that the character at `index` opens, if it opens one: where
    /// the link begins, where it ends, and its kind. The opening is as long
    /// as the predicate says and ends with that character. It is taken for
    /// a link only if it lies in the characters that belong to no span yet
    /// and the link reaches beyond that character.
    pub open spec fn opens_link(self, text: Seq<char>) -> Option<(int, int, ParseLinkAs)> {
        match self.links.outcome(text[self.index]) {
            Some((length, parse_as)) => {
                let opened = self.index + 1 - length;
                let closed = opened + link_len(text.skip(opened), parse_as);
                if self.start <= opened && self.index < closed {
                    Some((opened, closed, parse_as))
                } else {
                    None
                }
            },
            None => None,
        }
    }

    /// The scanner after the link from `opened` to `closed`: what lay
    /// before the link has become spans, and the link is a span.
    pub open spec fn link(self, text: Seq<char>, opened: int, closed: int, parse_as: ParseLinkAs) -> Scan {
        let link = Primitive { kind: link_kind(parse_as), text: text.subrange(opened, closed) };
        Scan {
            index: closed,
            start: closed,
            spaces: closed,
            found: self.found + clip(text, self.spaces, self.start, opened) + seq![link],
            ..self
        }
    }

    /// The result of a scan that ends at `end`: the characters that belong
    /// to no span yet become spans.
    pub open spec fn finish(self, text: Seq<char>, end: int) -> (Seq<Primitive>, int) {
        (self.found + clip(text, self.spaces, self.start, end), end)
    }
}

/// The spans of `text` and where the scan ends, for a scanner that stands
/// at `scan`.
///
/// The scanner goes through the line character by character. Where a
/// character ends the opening of a link, the link is read to its end, the
/// character behind the link is fed to the predicate for the links, and
/// the scan goes on behind that character. A line feed ends the scan and
/// is not consumed.
pub open spec fn scan_from(text: Seq<char>, scan: Scan) -> (Seq<Primitive>, int)
    decreases text.len() - scan.index,
{
    if scan.index < 0 || scan.index >= text.len() {
        scan.finish(text, text.len() as int)
    } else if text[scan.index] == '\n' {
        scan.finish(text, scan.index)
    } else {
        let token = text[scan.index];
        let seen = scan.look(token);
        match scan.opens_link(text) {
            Some((opened, closed, parse_as)) => {
                let linked = seen.link(text, opened, closed, parse_as);
                if closed >= text.len() || text[closed] == '\n' {
                    (linked.found, closed)
                } else {
                    scan_from(
                        text,
                        Scan {
                            index: closed + 1,
                            links: scan.links.after(token).after(text[closed]),
                            ..linked.look(text[closed])
                        },
                    )
                }
            },
            None => scan_from(
                text,
                Scan { index: scan.index + 1, links: scan.links.after(token), ..seen },
            ),
        }
    }
}

/// The spans of the line with which `text` begins, and the number of
/// characters scanned: up to the first line feed, or all of `text`.
pub open spec fn scan_text(text: Seq<char>) -> (Seq<Primitive>, int) {
    scan_from(text, Scan::initial())
}

/// Clips the one or two spans between `start` and `end` with awareness of
/// leading white space, and adds them to `entities`.
fn clip_into(
    entities: &mut Vec<Entity>,
    input: &SharedString,
    reader: &Reader,
    spaces: usize,
    start: usize,
    end: usize,
) -> (clipped: Result<(), ParseError>)
    requires
        reader.wf(),
        reader.text() == input@,
        start <= end <= reader.position(),
        start <= spaces,
    ensures
        clipped is Ok,
        primitives_of(final(entities)@) == primitives_of(old(entities)@) + clip(
            input@,
            spaces as int,
            start as int,
            end as int,
        ),
{
    let ghost before = primitives_of(entities@);
    if end <= start {
        proof {
            assert(before + Seq::<Primitive>::empty() =~= before);
        }
    } else if spaces >= end {
        let space = reader.cut(input, start, end)?;
        entities.push(Entity::EmptySpace(space));
    } else if start == 0 && spaces > 0 {
        let space = reader.cut(input, 0, spaces)?;
        entities.push(Entity::EmptySpace(space));
        let prose = reader.cut(input, spaces, end)?;
        entities.push(Entity::TextSpan(prose));
    } else {
        let prose = reader.cut(input, start, end)?;
        entities.push(Entity::TextSpan(prose));
    }
    proof {
        assert(primitives_of(entities@) =~= before + clip(
            input@,
            spaces as int,
            start as int,
            end as int,
        ));
    }
    Ok(())
}

/// The spans of the line with which `input` begins, and the number of
/// bytes scanned: up to the first line feed, or all of `input`.
#[verifier::rlimit(40)]
pub fn parse_text(input: SharedString) -> (parsed: Result<(Vec<Entity>, usize), ParseError>)
    ensures
        parsed is Ok,
        primitives_of(parsed->Ok_0.0@) == scan_text(input@).0,
        parsed->Ok_0.1 == byte_offset(input@, scan_text(input@).1),
{
    let (mut reader, mut rest) = Reader::new(&input);
    let mut start: usize = 0;
    let mut end: usize = 0;
    let mut entities: Vec<Entity> = Vec::new();

    let mut is_link = link_predicate();
    let mut spaces: usize = 0;

    proof {
        assert(primitives_of(entities@) =~= Seq::<Primitive>::empty());
    }

    loop
        invariant_except_break
            scan_text(input@) == scan_from(
                input@,
                Scan {
                    index: reader.position() as int,
                    start: start as int,
                    spaces: spaces as int,
                    links: is_link@,
                    found: primitives_of(entities@),
                },
            ),
        invariant
            reader.wf(),
            reader.text() == input@,
            rest.remaining() == input@.skip(reader.position() as int),
            start <= spaces <= reader.position(),
        ensures
            reader.wf(),
            reader.text() == input@,
            start <= end <= reader.position(),
            start <= spaces,
            scan_text(input@) == (
                primitives_of(entities@) + clip(input@, spaces as int, start as int, end as int),
                end as int,
            ),
        decreases input@.len() - reader.position(),
    {
        let index = reader.index();
        let ghost scan = Scan {
            index: index as int,
            start: start as int,
            spaces: spaces as int,
            links: is_link@,
            found: primitives_of(entities@),
        };
        let token = match reader.next(&mut rest) {
            Some(token) => token,
            None => {
                end = index;
                break ;
            },
        };
        if token == '\n' {
            end = index;
            break ;
        }
        let behind = reader.index();

        if (token == ' ' || token == '\t' || token == '\r') && spaces == index {
            spaces = behind;
        }
        let ghost seen = scan.look(token);

        // Check if we met the link predicate criteria; if we did, make
        // spans out of what we have seen so far and then parse the link
        if let Some((length, parse_as)) = is_link.test(&token) {
            if length <= behind - start {
                let opened = behind - length;
                let link_input = reader.rest(&input, opened)?;
                proof {
                    match parse_as {
                        ParseLinkAs::WikiLink => lemma_link_end_bounds::<WikiLinkDelimiterPredicate>(
                            link_input@,
                            wiki_link_delimiter_initial(),
                        ),
                        _ => lemma_link_end_bounds::<WhiteSpacePredicate>(
                            link_input@,
                            new_line_initial(),
                        ),
                    }
                }
                let (link_entity, steps) = match parse_as {
                    ParseLinkAs::HyperLink => parse_hyper_link(link_input)?,
                    ParseLinkAs::SlashLink => parse_slash_link(link_input)?,
                    ParseLinkAs::WikiLink => parse_wiki_link(link_input)?,
                };
                let ghost closed = opened + link_len(input@.skip(opened as int), parse_as);
                proof {
                    lemma_byte_offset_skip(
                        input@,
                        opened as int,
                        closed - opened,
                    );
                    lemma_byte_offset_grows(input@, behind as int, behind as int);
                    if closed <= index {
                        lemma_byte_offset_grows(input@, closed, behind as int);
                    } else {
                        lemma_byte_offset_grows(input@, behind as int, closed);
                    }
                    assert(input@.skip(opened as int).take(closed - opened) =~= input@.subrange(
                        opened as int,
                        closed,
                    ));
                }
                let target = reader.offset(opened) + steps;
                if target >= reader.offset(behind) {
                    assert(scan.opens_link(input@) == Some((opened as int, closed, parse_as)));
                    clip_into(&mut entities, &input, &reader, spaces, start, opened)?;
                    entities.push(link_entity);
                    proof {
                        assert(primitives_of(entities@) =~= seen.link(
                            input@,
                            opened as int,
                            closed,
                            parse_as,
                        ).found);
                    }
                    while reader.offset(reader.index()) < target
                        invariant
                            reader.wf(),
                            reader.text() == input@,
                            rest.remaining() == input@.skip(reader.position() as int),
                            reader.position() <= closed <= input@.len(),
                            target == byte_offset(input@, closed),
                        decreases closed - reader.position(),
                    {
                        proof {
                            if reader.position() == closed {
                                assert(false);
                            }
                        }
                        reader.next(&mut rest);
                    }
                    proof {
                        lemma_byte_offset_grows(
                            input@,
                            reader.position() as int,
                            closed,
                        );
                        lemma_byte_offset_one_to_one(
                            input@,
                            reader.position() as int,
                            closed,
                        );
                    }
                    start = reader.index();
                    spaces = start;
                    end = start;
                    match reader.next(&mut rest) {
                        Some('\n') => {
                            break ;
                        },
                        Some(any) => {
                            if any == ' ' || any == '\t' || any == '\r' {
                                spaces = reader.index();
                            }
                            is_link.test(&any);
                            continue ;
                        },
                        None => {
                            break ;
                        },
                    }
                }
            }
        }
        assert(scan.opens_link(input@) is None);
    }

    clip_into(&mut entities, &input, &reader, spaces, start, end)?;
    let steps = reader.offset(end);
    Ok((entities, steps))
}

/// A scan ends in the text, at or behind the position from which it was
/// taken up, and where it ends before the end of the text it ends at a
/// line feed.
pub proof fn lemma_scan_end(text: Seq<char>, scan: Scan)
    requires
        0 <= scan.start,
        0 <= scan.index <= text.len(),
    ensures
        scan.index <= scan_from(text, scan).1 <= text.len(),
        scan_from(text, scan).1 < text.len() ==> text[scan_from(text, scan).1] == '\n',
    decreases text.len() - scan.index,
{
    if scan.index < text.len() && text[scan.index] != '\n' {
        let token = text[scan.index];
        let seen = scan.look(token);
        match scan.opens_link(text) {
            Some((opened, closed, parse_as)) => {
                match parse_as {
                    ParseLinkAs::WikiLink => lemma_link_end_bounds::<WikiLinkDelimiterPredicate>(
                        text.skip(opened),
                        wiki_link_delimiter_initial(),
                    ),
                    _ => lemma_link_end_bounds::<WhiteSpacePredicate>(
                        text.skip(opened),
                        new_line_initial(),
                    ),
                }
                let linked = seen.link(text, opened, closed, parse_as);
                if !(closed >= text.len() || text[closed] == '\n') {
                    lemma_scan_end(
                        text,
                        Scan {
                            index: closed + 1,
                            links: scan.links.after(token).after(text[closed]),
                            ..linked.look(text[closed])
                        },
                    );
                }
            },
            None => {
                lemma_scan_end(
                    text,
                    Scan { index: scan.index + 1, links: scan.links.after(token), ..seen },
                );
            },
        }
    }
}

/// The spans that `clip` makes of the characters from `start` up to `end`
/// are those characters.
pub proof fn lemma_clip_flatten(text: Seq<char>, spaces: int, start: int, end: int)
    requires
        0 <= start <= end <= text.len(),
        start <= spaces,
    ensures
        flatten(clip(text, spaces, start, end)) == text.subrange(start, end),
{
    reveal_with_fuel(flatten, 3);
    let clipped = clip(text, spaces, start, end);
    if end <= start {
        assert(flatten(clipped) =~= text.subrange(start, end));
    } else if spaces >= end {
        lemma_flatten_one(clipped[0]);
    } else if start == 0 && spaces > 0 {
        assert(clipped.drop_last() =~= seq![clipped[0]]);
        lemma_flatten_one(clipped[0]);
        assert(flatten(clipped) =~= text.subrange(0, spaces) + text.subrange(spaces, end));
        assert(text.subrange(0, spaces) + text.subrange(spaces, end) =~= text.subrange(0, end));
    } else {
        lemma_flatten_one(clipped[0]);
    }
}

/// The spans that a scan finds are the characters scanned: if the spans
/// found so far are the characters up to `start`, the spans found in the
/// end are the characters up to where the scan ends.
pub proof fn lemma_scan_round_trip(text: Seq<char>, scan: Scan)
    requires
        0 <= scan.start <= scan.spaces <= scan.index <= text.len(),
        flatten(scan.found) == text.take(scan.start),
    ensures
        flatten(scan_from(text, scan).0) == text.take(scan_from(text, scan).1),
    decreases text.len() - scan.index,
{
    lemma_scan_end(text, scan);
    if scan.index >= text.len() {
        lemma_finish_round_trip(text, scan, text.len() as int);
    } else if text[scan.index] == '\n' {
        lemma_finish_round_trip(text, scan, scan.index);
    } else {
        let token = text[scan.index];
        let seen = scan.look(token);
        match scan.opens_link(text) {
            Some((opened, closed, parse_as)) => {
                match parse_as {
                    ParseLinkAs::WikiLink => lemma_link_end_bounds::<WikiLinkDelimiterPredicate>(
                        text.skip(opened),
                        wiki_link_delimiter_initial(),
                    ),
                    _ => lemma_link_end_bounds::<WhiteSpacePredicate>(
                        text.skip(opened),
                        new_line_initial(),
                    ),
                }
                let linked = seen.link(text, opened, closed, parse_as);
                let link = Primitive {
                    kind: link_kind(parse_as),
                    text: text.subrange(opened, closed),
                };
                lemma_clip_flatten(text, seen.spaces, seen.start, opened);
                lemma_flatten_concat(seen.found, clip(text, seen.spaces, seen.start, opened));
                lemma_flatten_concat(
                    seen.found + clip(text, seen.spaces, seen.start, opened),
                    seq![link],
                );
                lemma_flatten_one(link);
                assert(flatten(linked.found) =~= text.take(closed));
                if !(closed >= text.len() || text[closed] == '\n') {
                    lemma_scan_round_trip(
                        text,
                        Scan {
                            index: closed + 1,
                            links: scan.links.after(token).after(text[closed]),
                            ..linked.look(text[closed])
                        },
                    );
                }
            },
            None => {
                lemma_scan_round_trip(
                    text,
                    Scan { index: scan.index + 1, links: scan.links.after(token), ..seen },
                );
            },
        }
    }
}

/// The spans with which a scan ends at `end` are the characters up to
/// `end`, if the spans found before are the characters up to `start`.
proof fn lemma_finish_round_trip(text: Seq<char>, scan: Scan, end: int)
    requires
        0 <= scan.start <= scan.spaces,
        scan.start <= end <= text.len(),
        flatten(scan.found) == text.take(scan.start),
    ensures
        flatten(scan.finish(text, end).0) == text.take(end),
{
    lemma_clip_flatten(text, scan.spaces, scan.start, end);
    lemma_flatten_concat(scan.found, clip(text, scan.spaces, scan.start, end));
    assert(text.take(scan.start) + text.subrange(scan.start, end) =~= text.take(end));
}

/// The spans of a line are the characters scanned.
pub proof fn lemma_scan_text_round_trip(text: Seq<char>)
    ensures
        flatten(scan_text(text).0) == text.take(scan_text(text).1),
        0 <= scan_text(text).1 <= text.len(),
        scan_text(text).1 < text.len() ==> text[scan_text(text).1] == '\n',
{
    assert(text.take(0) =~= Seq::<char>::empty());
    lemma_scan_round_trip(text, Scan::initial());
    lemma_scan_end(text, Scan::initial());
}

/// No line feed lies in front of where a scan ends, from the position on
/// from which the scan was taken up.
pub proof fn lemma_scan_feed_free(text: Seq<char>, scan: Scan, index: int)
    requires
        0 <= scan.start <= scan.index <= index < scan_from(text, scan).1,
        scan.index <= text.len(),
    ensures
        text[index] != '\n',
    decreases text.len() - scan.index,
{
    lemma_scan_end(text, scan);
    if scan.index < text.len() && text[scan.index] != '\n' {
        let token = text[scan.index];
        let seen = scan.look(token);
        match scan.opens_link(text) {
            Some((opened, closed, parse_as)) => {
                let linked = seen.link(text, opened, closed, parse_as);
                lemma_link_feed_free(text.skip(opened), parse_as, index - opened);
                if index > closed {
                    lemma_scan_feed_free(
                        text,
                        Scan {
                            index: closed + 1,
                            links: scan.links.after(token).after(text[closed]),
                            ..linked.look(text[closed])
                        },
                        index,
                    );
                }
            },
            None => {
                if index > scan.index {
                    lemma_scan_feed_free(
                        text,
                        Scan { index: scan.index + 1, links: scan.links.after(token), ..seen },
                        index,
                    );
                }
            },
        }
    }
}

/// No line feed lies in a link.
pub proof fn lemma_link_feed_free(text: Seq<char>, parse_as: ParseLinkAs, index: int)
    ensures
        0 <= index < link_len(text, parse_as) ==> text[index] != '\n',
{
    match parse_as {
        ParseLinkAs::WikiLink => {
            lemma_link_end_boundary_free::<WikiLinkDelimiterPredicate>(
                text,
                wiki_link_delimiter_initial(),
                index,
                '\n',
            );
        },
        _ => {
            lemma_link_end_boundary_free::<WhiteSpacePredicate>(
                text,
                new_line_initial(),
                index,
                '\n',
            );
        },
    }
}

/// No space, no tab and no line feed lies in a slash link or a hyper
/// link.
pub proof fn lemma_plain_link_boundary_free(text: Seq<char>, index: int)
    ensures
        0 <= index < plain_link_len(text) ==> !is_boundary(text[index]),
{
    lemma_link_end_boundary_free::<WhiteSpacePredicate>(text, new_line_initial(), index, '\n');
    lemma_link_end_boundary_free::<WhiteSpacePredicate>(text, new_line_initial(), index, ' ');
    lemma_link_end_boundary_free::<WhiteSpacePredicate>(text, new_line_initial(), index, '\t');
}

/// A boundary that a predicate matches in every state stays out of the
/// link that the predicate ends.
pub proof fn lemma_link_end_boundary_free<P: Predicate>(
    text: Seq<char>,
    state: P::V,
    index: int,
    token: char,
)
    requires
        is_boundary(token),
        forall|any: P::V| #[trigger] P::outcome(any, token) is Some,
    ensures
        0 <= index < link_end::<P>(text, state) ==> text[index] != token,
{
    lemma_first_match_bounds::<P>(text, state, 0);
    lemma_first_match_is_first::<P>(text, state, 0, index, token);
    if 0 <= index < link_end::<P>(text, state) && text[index] == token {
        let found = first_match::<P>(text, state, 0);
        assert(found is Some);
        let (at, length) = found->Some_0;
        assert(at <= index);
        if is_boundary(text[at]) {
            assert(link_end::<P>(text, state) <= at);
        } else {
            assert(link_end::<P>(text, state) == at + 1);
        }
        assert(false);
    }
}

/// In front of the first match there is no character that the predicate
/// matches in every state.
proof fn lemma_first_match_is_first<P: Predicate>(
    text: Seq<char>,
    state: P::V,
    from: int,
    index: int,
    token: char,
)
    requires
        0 <= from,
        forall|any: P::V| #[trigger] P::outcome(any, token) is Some,
    ensures
        from <= index < text.len() && text[index] == token ==> first_match::<P>(text, state, from)
            is Some && first_match::<P>(text, state, from)->Some_0.0 <= index,
    decreases text.len() - from,
{
    if from < text.len() && P::outcome(state, text[from]) is None {
        lemma_first_match_is_first::<P>(text, P::after(state, text[from]), from + 1, index, token);
    }
}

} // verus!
