//! What holds of every scan because the predicate for links follows the
//! text. Every opening of a link that the predicate reports is taken for
//! a link: it lies in the characters that belong to no span yet, and the
//! link reaches beyond it. And the spans that come of it are sound: none
//! is empty, white space is nothing but white space, prose is more than
//! white space, and every link begins with the opening of its kind.

use crate::block::{
    lemma_leading_space_end, leading_space_end, parse_block, sigil_kind, BlockKind, BlockView,
};
use crate::predicate::{
    first_after, first_outcome, lemma_first_after_len, link_initial, new_line_initial,
    wiki_link_delimiter_initial, LinkState, ParseLinkAs, Predicate, SequencePredicate,
    WhiteSpacePredicate, WikiLinkDelimiterPredicate, WikiLinkDelimiterState,
    CARRIAGE_RETURN_NEW_LINE_SEQUENCE, HTTPS_LINK_SEQUENCE, HTTP_LINK_SEQUENCE,
    IPFS_LINK_SEQUENCE, SLASH_LINK_SEQUENCE, WIKI_LINK_CLOSE_SEQUENCE, WIKI_LINK_OPEN_SEQUENCE,
};
use crate::primitive::{
    clip, first_match, is_blank, is_boundary, lemma_first_match_bounds,
    lemma_plain_link_boundary_free, lemma_link_end_bounds, link_kind, link_len, scan_from,
    scan_text, link_end_in, Kind, Primitive, Scan,
};
use crate::sequence::{lemma_go_to_wf, SequenceState};
use vstd::prelude::*;

verus! {

/// The sequence that the machine at place `which` of the predicate for
/// links looks for.
pub open spec fn pattern(which: int) -> Seq<char> {
    if which == 0 {
        HTTP_LINK_SEQUENCE@
    } else if which == 1 {
        HTTPS_LINK_SEQUENCE@
    } else if which == 2 {
        IPFS_LINK_SEQUENCE@
    } else if which == 3 {
        SLASH_LINK_SEQUENCE@
    } else {
        WIKI_LINK_OPEN_SEQUENCE@
    }
}

/// The machine at place `which` of the predicate for links, in the order
/// in which they are fed.
pub open spec fn machine(links: LinkState, which: int) -> SequenceState {
    if 0 <= which < 3 {
        links.hyper_link[which]
    } else if which == 3 {
        links.slash_link
    } else {
        links.wiki_link_open
    }
}

/// Whether the machine `state` for `sequence` stands as the characters of
/// `text` in front of position `index` have left it, in a scan that took
/// up the characters from `start` on: it is not complete, the characters
/// that it has gone through are the last in front of `index` and lie
/// behind `start`, and it waits for its reset signal unless the last
/// character was one.
pub open spec fn follows(
    state: SequenceState,
    sequence: Seq<char>,
    text: Seq<char>,
    start: int,
    index: int,
) -> bool {
    &&& state.states == sequence
    &&& state.reset_signal == Some(' ')
    &&& state.wf()
    &&& state.next_state < sequence.len()
    &&& state.next_state <= index - start
    &&& forall|gone: int|
        0 <= gone < state.next_state ==> text[index - state.next_state + gone] == sequence[gone]
    &&& state.sent_to_state == (index > 0 && text[index - 1] != ' ')
}

/// What holds of the machines together: the two that begin alike go along
/// with each other as long as they agree, and no other two are under way
/// at once.
pub open spec fn apart(links: LinkState) -> bool {
    let http = links.hyper_link[0].next_state;
    let https = links.hyper_link[1].next_state;
    let ipfs = links.hyper_link[2].next_state;
    let wiki = links.wiki_link_open.next_state;
    &&& (http == https && http <= 4) || http == 0 || https == 0
    &&& ipfs >= 1 ==> http == 0 && https == 0
    &&& wiki >= 1 ==> http == 0 && https == 0 && ipfs == 0
}

/// Whether the predicate for links stands as a scan has left it that took
/// up the characters of `text` from `start` on and has come to `index`.
pub open spec fn settled(links: LinkState, text: Seq<char>, start: int, index: int) -> bool {
    &&& 0 <= start <= index <= text.len()
    &&& links.hyper_link.len() == 3
    &&& forall|which: int|
        0 <= which < 5 ==> follows(#[trigger] machine(links, which), pattern(which), text, start, index)
    &&& apart(links)
}

/// What a character does to the predicate for links, machine by machine:
/// the machines are fed in order, and those behind the first that is
/// completed are not fed.
proof fn lemma_link_step(links: LinkState, token: char)
    requires
        links.hyper_link.len() == 3,
    ensures
        ({
            let http = links.hyper_link[0].go_to(token).is_complete();
            let https = links.hyper_link[1].go_to(token).is_complete();
            let ipfs = links.hyper_link[2].go_to(token).is_complete();
            let slash = links.slash_link.go_to(token).is_complete();
            let wiki = links.wiki_link_open.go_to(token).is_complete();
            let after = links.after(token);
            &&& after.hyper_link.len() == 3
            &&& after.hyper_link[0] == links.hyper_link[0].go_to(token)
            &&& after.hyper_link[1] == if http {
                links.hyper_link[1]
            } else {
                links.hyper_link[1].go_to(token)
            }
            &&& after.hyper_link[2] == if http || https {
                links.hyper_link[2]
            } else {
                links.hyper_link[2].go_to(token)
            }
            &&& after.slash_link == if http || https || ipfs {
                links.slash_link
            } else {
                links.slash_link.go_to(token)
            }
            &&& after.wiki_link_open == if http || https || ipfs || slash {
                links.wiki_link_open
            } else {
                links.wiki_link_open.go_to(token)
            }
            &&& links.outcome(token) == if http {
                Some((links.hyper_link[0].states.len() as usize, ParseLinkAs::HyperLink))
            } else if https {
                Some((links.hyper_link[1].states.len() as usize, ParseLinkAs::HyperLink))
            } else if ipfs {
                Some((links.hyper_link[2].states.len() as usize, ParseLinkAs::HyperLink))
            } else if slash {
                Some((links.slash_link.states.len() as usize, ParseLinkAs::SlashLink))
            } else if wiki {
                Some((links.wiki_link_open.states.len() as usize, ParseLinkAs::WikiLink))
            } else {
                None
            }
        }),
{
    let states = links.hyper_link;
    let one = states.drop_first();
    let two = one.drop_first();
    let three = two.drop_first();
    assert(one[0] == states[1]);
    assert(two[0] == states[2]);
    assert(one[1] == states[2]);
    assert(three.len() == 0);
    reveal_with_fuel(first_outcome, 4);
    reveal_with_fuel(first_after, 4);
    let after = first_after::<SequencePredicate>(states, token);
    lemma_first_after_len::<SequencePredicate>(states, token);
    assert(first_after::<SequencePredicate>(three, token) =~= three);
}

/// What one more character makes of a machine that stands as the text
/// has left it: it goes on by one where the character is the next of its
/// sequence and it is free to go on, and starts over otherwise; and it
/// stands again as the text has left it unless it is complete, in which
/// case its whole sequence lies in front of the next position.
proof fn lemma_machine_step(
    state: SequenceState,
    sequence: Seq<char>,
    text: Seq<char>,
    start: int,
    index: int,
)
    requires
        follows(state, sequence, text, start, index),
        0 <= start <= index < text.len(),
        forall|place: int| 0 <= place < sequence.len() ==> sequence[place] != ' ',
    ensures
        ({
            let next = state.go_to(text[index]);
            let gone = state.next_state as int;
            &&& next.next_state == if (gone > 0 || !state.sent_to_state) && text[index]
                == sequence[gone] {
                gone + 1
            } else {
                0
            }
            &&& next.states == sequence
            &&& next.reset_signal == Some(' ')
            &&& next.wf()
            &&& next.sent_to_state == (text[index] != ' ')
            &&& !next.is_complete() ==> follows(next, sequence, text, start, index + 1)
            &&& next.is_complete() ==> {
                &&& sequence.len() <= index + 1 - start
                &&& forall|place: int|
                    0 <= place < sequence.len() ==> text[index + 1 - sequence.len() + place]
                        == sequence[place]
            }
        }),
{
    let token = text[index];
    let next = state.go_to(token);
    let gone = state.next_state as int;
    lemma_go_to_wf(state, token);
    assert(state.cursor() == gone);
    if next.next_state > 0 {
        assert(next.next_state == gone + 1);
        assert(token == sequence[gone]);
        assert forall|place: int| 0 <= place < next.next_state implies text[index + 1
            - next.next_state + place] == sequence[place] by {
            if place < gone {
                assert(text[index - gone + place] == sequence[place]);
            }
        }
    }
}

/// A character that completes no machine leaves the predicate for links
/// as the text leaves it.
proof fn lemma_quiet_step(links: LinkState, text: Seq<char>, start: int, index: int)
    requires
        settled(links, text, start, index),
        index < text.len(),
        links.outcome(text[index]) is None,
    ensures
        settled(links.after(text[index]), text, start, index + 1),
{
    let token = text[index];
    let after = links.after(token);
    lemma_link_step(links, token);
    lemma_patterns();
    assert forall|which: int| 0 <= which < 5 implies follows(
        #[trigger] machine(after, which),
        pattern(which),
        text,
        start,
        index + 1,
    ) by {
        assert(follows(machine(links, which), pattern(which), text, start, index));
        lemma_machine_step(machine(links, which), pattern(which), text, start, index);
    }
    assert(follows(machine(links, 0), pattern(0), text, start, index));
    assert(follows(machine(links, 1), pattern(1), text, start, index));
    assert(follows(machine(links, 2), pattern(2), text, start, index));
    assert(follows(machine(links, 4), pattern(4), text, start, index));
    lemma_machine_step(machine(links, 0), pattern(0), text, start, index);
    lemma_machine_step(machine(links, 1), pattern(1), text, start, index);
    lemma_machine_step(machine(links, 2), pattern(2), text, start, index);
    lemma_machine_step(machine(links, 4), pattern(4), text, start, index);
}

/// The sequences that the machines look for, character by character.
proof fn lemma_patterns()
    ensures
        pattern(0) == seq!['h', 't', 't', 'p', ':', '/', '/'],
        pattern(1) == seq!['h', 't', 't', 'p', 's', ':', '/', '/'],
        pattern(2) == seq!['i', 'p', 'f', 's', ':', '/', '/'],
        pattern(3) == seq!['/'],
        pattern(4) == seq!['[', '['],
        forall|which: int, place: int|
            0 <= which < 5 && 0 <= place < pattern(which).len() ==> (#[trigger] pattern(
                which,
            )[place]) != ' ',
{
    assert(pattern(0) =~= seq!['h', 't', 't', 'p', ':', '/', '/']);
    assert(pattern(1) =~= seq!['h', 't', 't', 'p', 's', ':', '/', '/']);
    assert(pattern(2) =~= seq!['i', 'p', 'f', 's', ':', '/', '/']);
    assert(pattern(3) =~= seq!['/']);
    assert(pattern(4) =~= seq!['[', '[']);
}

/// Whether the predicate for links stands as the opening of a link has
/// left it: the machine that was completed is complete, every other
/// machine has gone through nothing, and the machine for the slash waits
/// for its reset signal.
pub open spec fn fired(links: LinkState) -> bool {
    &&& links.hyper_link.len() == 3
    &&& forall|which: int|
        0 <= which < 5 ==> {
            let state = #[trigger] machine(links, which);
            &&& state.states == pattern(which)
            &&& state.reset_signal == Some(' ')
            &&& state.wf()
            &&& state.next_state == 0 || state.is_complete()
            &&& pattern(which).len() == 1 ==> state.sent_to_state
        }
}

/// Whether `opening` opens a link of the kind `parse_as`: a slash opens a
/// slash link, one of the three schemes a hyper link, and two brackets a
/// wiki link.
pub open spec fn is_opening(opening: Seq<char>, parse_as: ParseLinkAs) -> bool {
    match parse_as {
        ParseLinkAs::SlashLink => opening == SLASH_LINK_SEQUENCE@,
        ParseLinkAs::HyperLink => opening == HTTP_LINK_SEQUENCE@ || opening
            == HTTPS_LINK_SEQUENCE@ || opening == IPFS_LINK_SEQUENCE@,
        ParseLinkAs::WikiLink => opening == WIKI_LINK_OPEN_SEQUENCE@,
    }
}

/// Whether `token` can stand in the opening of a link: it is no white
/// space and no closing bracket.
pub open spec fn is_plain(token: char) -> bool {
    token != ' ' && token != '\t' && token != '\n' && token != '\r' && token != ']'
}

/// A character that completes a machine ends an opening that lies in the
/// characters taken up by the scan and is made of plain characters, and
/// leaves the predicate for links as an opening leaves it.
proof fn lemma_fire_step(links: LinkState, text: Seq<char>, start: int, index: int)
    requires
        settled(links, text, start, index),
        index < text.len(),
        links.outcome(text[index]) is Some,
    ensures
        ({
            let length = links.outcome(text[index])->Some_0.0 as int;
            &&& 1 <= length <= index + 1 - start
            &&& forall|place: int| index + 1 - length <= place <= index ==> is_plain(text[place])
            &&& is_opening(
                text.subrange(index + 1 - length, index + 1),
                links.outcome(text[index])->Some_0.1,
            )
            &&& fired(links.after(text[index]))
        }),
{
    let token = text[index];
    let after = links.after(token);
    lemma_link_step(links, token);
    lemma_patterns();
    assert(follows(machine(links, 0), pattern(0), text, start, index));
    assert(follows(machine(links, 1), pattern(1), text, start, index));
    assert(follows(machine(links, 2), pattern(2), text, start, index));
    assert(follows(machine(links, 3), pattern(3), text, start, index));
    assert(follows(machine(links, 4), pattern(4), text, start, index));
    lemma_machine_step(machine(links, 0), pattern(0), text, start, index);
    lemma_machine_step(machine(links, 1), pattern(1), text, start, index);
    lemma_machine_step(machine(links, 2), pattern(2), text, start, index);
    lemma_machine_step(machine(links, 3), pattern(3), text, start, index);
    lemma_machine_step(machine(links, 4), pattern(4), text, start, index);
    let which = if links.hyper_link[0].go_to(token).is_complete() {
        0int
    } else if links.hyper_link[1].go_to(token).is_complete() {
        1int
    } else if links.hyper_link[2].go_to(token).is_complete() {
        2int
    } else if links.slash_link.go_to(token).is_complete() {
        3int
    } else {
        4int
    };
    let sequence = pattern(which);
    let length = sequence.len() as int;
    assert(links.outcome(token)->Some_0.0 == length);
    assert forall|place: int| index + 1 - length <= place <= index implies is_plain(
        text[place],
    ) by {
        let gone = place - (index + 1 - length);
        assert(text[index + 1 - length + gone] == sequence[gone]);
    }
    assert(text.subrange(index + 1 - length, index + 1) =~= sequence) by {
        assert forall|place: int| 0 <= place < length implies text.subrange(
            index + 1 - length,
            index + 1,
        )[place] == sequence[place] by {
            assert(text[index + 1 - length + place] == sequence[place]);
        }
    }
    assert forall|other: int| 0 <= other < 5 implies {
        let state = #[trigger] machine(after, other);
        &&& state.states == pattern(other)
        &&& state.reset_signal == Some(' ')
        &&& state.wf()
        &&& state.next_state == 0 || state.is_complete()
        &&& pattern(other).len() == 1 ==> state.sent_to_state
    } by {
        assert(follows(machine(links, other), pattern(other), text, start, index));
    }
}

/// The character behind a link, fed to a predicate for links that stands
/// as an opening has left it, leaves the predicate as the text leaves it
/// in a scan that takes up the characters from that character on.
proof fn lemma_reprime_step(links: LinkState, text: Seq<char>, closed: int)
    requires
        fired(links),
        0 <= closed < text.len(),
    ensures
        settled(links.after(text[closed]), text, closed, closed + 1),
{
    let token = text[closed];
    let after = links.after(token);
    lemma_link_step(links, token);
    lemma_patterns();
    assert forall|which: int| 0 <= which < 5 implies follows(
        #[trigger] machine(after, which),
        pattern(which),
        text,
        closed,
        closed + 1,
    ) && machine(after, which) == machine(links, which).go_to(token) by {
        lemma_reprime_machine(machine(links, which), pattern(which), token);
        lemma_reprime_machine(machine(links, 0), pattern(0), token);
        lemma_reprime_machine(machine(links, 1), pattern(1), token);
        lemma_reprime_machine(machine(links, 2), pattern(2), token);
        lemma_reprime_machine(machine(links, 3), pattern(3), token);
        lemma_reprime_machine(machine(links, 4), pattern(4), token);
    }
    assert(machine(after, 0) == machine(links, 0).go_to(token));
    assert(machine(after, 1) == machine(links, 1).go_to(token));
    assert(machine(after, 2) == machine(links, 2).go_to(token));
    assert(machine(after, 4) == machine(links, 4).go_to(token));
    lemma_reprime_machine(machine(links, 0), pattern(0), token);
    lemma_reprime_machine(machine(links, 1), pattern(1), token);
    lemma_reprime_machine(machine(links, 2), pattern(2), token);
    lemma_reprime_machine(machine(links, 4), pattern(4), token);
}

/// What the character behind a link makes of a machine that has gone
/// through nothing or is complete: it goes through that character, if it
/// is free to go on and the character is the first of its sequence, and
/// through nothing otherwise.
proof fn lemma_reprime_machine(state: SequenceState, sequence: Seq<char>, token: char)
    requires
        state.states == sequence,
        state.reset_signal == Some(' '),
        state.wf(),
        state.next_state == 0 || state.is_complete(),
        sequence.len() >= 1,
        sequence.len() == 1 ==> state.sent_to_state,
        sequence[0] != ' ',
    ensures
        ({
            let next = state.go_to(token);
            &&& next.states == sequence
            &&& next.reset_signal == Some(' ')
            &&& next.wf()
            &&& !next.is_complete()
            &&& next.next_state <= 1
            &&& next.next_state == 1 ==> token == sequence[0]
            &&& next.sent_to_state == (token != ' ')
        }),
{
    lemma_go_to_wf(state, token);
}

/// The machine for a carriage return and its line feed is as it was made
/// after a plain character, and so is the machine for the brackets that
/// close a wiki link; and a plain character is no match of white space or
/// of what ends a wiki link.
proof fn lemma_plain_step(token: char)
    requires
        is_plain(token),
    ensures
        new_line_initial().go_to(token) == new_line_initial(),
        wiki_link_delimiter_initial().wiki_link_close.go_to(token)
            == wiki_link_delimiter_initial().wiki_link_close,
        WhiteSpacePredicate::outcome(new_line_initial(), token) is None,
        WikiLinkDelimiterPredicate::outcome(wiki_link_delimiter_initial(), token) is None,
        WikiLinkDelimiterPredicate::after(wiki_link_delimiter_initial(), token)
            == wiki_link_delimiter_initial(),
{
    assert(CARRIAGE_RETURN_NEW_LINE_SEQUENCE@ =~= seq!['\r', '\n']);
    assert(WIKI_LINK_CLOSE_SEQUENCE@ =~= seq![']', ']']);
}

/// Whether `state` is a state of the predicate for white space.
pub open spec fn is_white_space_state(state: SequenceState) -> bool {
    state.states == CARRIAGE_RETURN_NEW_LINE_SEQUENCE@
}

/// Whether `state` is a state of the predicate for what ends a wiki link.
pub open spec fn is_wiki_link_delimiter_state(state: WikiLinkDelimiterState) -> bool {
    &&& state.new_line.states == CARRIAGE_RETURN_NEW_LINE_SEQUENCE@
    &&& state.wiki_link_close.states == WIKI_LINK_CLOSE_SEQUENCE@
}

/// A first match of white space is one or two characters long.
proof fn lemma_white_space_lengths(text: Seq<char>, state: SequenceState, from: int)
    requires
        0 <= from,
        is_white_space_state(state),
    ensures
        first_match::<WhiteSpacePredicate>(text, state, from) is Some ==> {
            let length = first_match::<WhiteSpacePredicate>(text, state, from)->Some_0.1;
            length == 1 || length == 2
        },
    decreases text.len() - from,
{
    if from < text.len() && WhiteSpacePredicate::outcome(state, text[from]) is None {
        lemma_white_space_lengths(text, state.go_to(text[from]), from + 1);
    }
}

/// A first match of what ends a wiki link is one or two characters long.
proof fn lemma_wiki_link_delimiter_lengths(
    text: Seq<char>,
    state: WikiLinkDelimiterState,
    from: int,
)
    requires
        0 <= from,
        is_wiki_link_delimiter_state(state),
    ensures
        first_match::<WikiLinkDelimiterPredicate>(text, state, from) is Some ==> {
            let length = first_match::<WikiLinkDelimiterPredicate>(text, state, from)->Some_0.1;
            length == 1 || length == 2
        },
    decreases text.len() - from,
{
    if from < text.len() && WikiLinkDelimiterPredicate::outcome(state, text[from]) is None {
        lemma_wiki_link_delimiter_lengths(
            text,
            WikiLinkDelimiterPredicate::after(state, text[from]),
            from + 1,
        );
    }
}

/// A match that is found with the machines as they were made reaches back
/// no further than to where it was looked for: the first character looked
/// at completes no machine.
proof fn lemma_fresh_cut(text: Seq<char>, from: int)
    requires
        0 <= from <= text.len(),
    ensures
        link_end_in::<WhiteSpacePredicate>(text, new_line_initial(), from) >= from,
        link_end_in::<WikiLinkDelimiterPredicate>(text, wiki_link_delimiter_initial(), from) >= from,
{
    assert(CARRIAGE_RETURN_NEW_LINE_SEQUENCE@ =~= seq!['\r', '\n']);
    assert(WIKI_LINK_CLOSE_SEQUENCE@ =~= seq![']', ']']);
    lemma_first_match_bounds::<WhiteSpacePredicate>(text, new_line_initial(), from);
    lemma_first_match_bounds::<WikiLinkDelimiterPredicate>(
        text,
        wiki_link_delimiter_initial(),
        from,
    );
    lemma_white_space_lengths(text, new_line_initial(), from);
    lemma_wiki_link_delimiter_lengths(text, wiki_link_delimiter_initial(), from);
    if from < text.len() {
        let token = text[from];
        let fresh = wiki_link_delimiter_initial();
        lemma_go_to_wf(new_line_initial(), token);
        lemma_go_to_wf(fresh.wiki_link_close, token);
        if WhiteSpacePredicate::outcome(new_line_initial(), token) is None {
            lemma_first_match_bounds::<WhiteSpacePredicate>(
                text,
                new_line_initial().go_to(token),
                from + 1,
            );
        }
        if WikiLinkDelimiterPredicate::outcome(fresh, token) is None {
            lemma_first_match_bounds::<WikiLinkDelimiterPredicate>(
                text,
                WikiLinkDelimiterPredicate::after(fresh, token),
                from + 1,
            );
        } else {
            assert(!fresh.new_line.go_to(token).is_complete());
            assert(!fresh.wiki_link_close.go_to(token).is_complete());
        }
    }
}

/// A link that opens with plain characters reaches beyond them.
proof fn lemma_link_beyond_opening(text: Seq<char>, parse_as: ParseLinkAs, from: int, to: int)
    requires
        0 <= from <= to <= text.len(),
        forall|place: int| from <= place < to ==> is_plain(text[place]),
    ensures
        link_end_in::<WhiteSpacePredicate>(text, new_line_initial(), from) >= to,
        link_end_in::<WikiLinkDelimiterPredicate>(text, wiki_link_delimiter_initial(), from) >= to,
    decreases to - from,
{
    if from < to {
        lemma_plain_step(text[from]);
        lemma_link_beyond_opening(text, parse_as, from + 1, to);
    } else {
        lemma_fresh_cut(text, from);
    }
}

/// Whether every opening of a link that the predicate for links reports
/// in the scan of `text` from `scan` on is taken for a link.
pub open spec fn takes_openings(text: Seq<char>, scan: Scan) -> bool
    decreases text.len() - scan.index,
{
    if scan.index < 0 || scan.index >= text.len() || text[scan.index] == '\n' {
        true
    } else {
        let token = text[scan.index];
        let seen = scan.look(token);
        match scan.opens_link(text) {
            Some((opened, closed, parse_as)) => {
                let linked = seen.link(text, opened, closed, parse_as);
                closed >= text.len() || text[closed] == '\n' || takes_openings(
                    text,
                    Scan {
                        index: closed + 1,
                        links: scan.links.after(token).after(text[closed]),
                        ..linked.look(text[closed])
                    },
                )
            },
            None => scan.links.outcome(token) is None && takes_openings(
                text,
                Scan { index: scan.index + 1, links: scan.links.after(token), ..seen },
            ),
        }
    }
}

/// A scan whose predicate for links stands as the text has left it takes
/// every opening that the predicate reports.
proof fn lemma_takes_openings(text: Seq<char>, scan: Scan)
    requires
        settled(scan.links, text, scan.start, scan.index),
    ensures
        takes_openings(text, scan),
    decreases text.len() - scan.index,
{
    if scan.index < text.len() && text[scan.index] != '\n' {
        let token = text[scan.index];
        let seen = scan.look(token);
        match scan.links.outcome(token) {
            Some((length, parse_as)) => {
                lemma_fire_step(scan.links, text, scan.start, scan.index);
                let opened = scan.index + 1 - length;
                let link = text.skip(opened);
                assert forall|place: int| 0 <= place < length implies is_plain(link[place]) by {
                    assert(link[place] == text[opened + place]);
                }
                lemma_link_beyond_opening(link, parse_as, 0, length as int);
                match parse_as {
                    ParseLinkAs::WikiLink => lemma_link_end_bounds::<WikiLinkDelimiterPredicate>(
                        link,
                        wiki_link_delimiter_initial(),
                    ),
                    _ => lemma_link_end_bounds::<WhiteSpacePredicate>(link, new_line_initial()),
                }
                let closed = opened + link_len(link, parse_as);
                assert(scan.opens_link(text) == Some((opened, closed, parse_as)));
                if closed < text.len() && text[closed] != '\n' {
                    let linked = seen.link(text, opened, closed, parse_as);
                    lemma_reprime_step(scan.links.after(token), text, closed);
                    lemma_takes_openings(
                        text,
                        Scan {
                            index: closed + 1,
                            links: scan.links.after(token).after(text[closed]),
                            ..linked.look(text[closed])
                        },
                    );
                }
            },
            None => {
                lemma_quiet_step(scan.links, text, scan.start, scan.index);
                lemma_takes_openings(
                    text,
                    Scan { index: scan.index + 1, links: scan.links.after(token), ..seen },
                );
            },
        }
    }
}

/// Every opening of a link that the predicate for links reports in the
/// scan of a line is taken for a link: it lies in the characters that
/// belong to no span yet, and the link reaches beyond it.
pub proof fn lemma_openings_are_taken(text: Seq<char>)
    ensures
        takes_openings(text, Scan::initial()),
{
    lemma_patterns();
    let links = link_initial();
    assert forall|which: int| 0 <= which < 5 implies follows(
        #[trigger] machine(links, which),
        pattern(which),
        text,
        0,
        0,
    ) by {}
    lemma_takes_openings(text, Scan::initial());
}

/// Whether `text` begins with `opening`.
pub open spec fn begins_with(text: Seq<char>, opening: Seq<char>) -> bool {
    opening.len() <= text.len() && text.take(opening.len() as int) == opening
}

/// Whether `primitive` is as the parser makes its spans: it holds a
/// character; a sigil is one of the three sigils; white space is nothing
/// but white space; prose holds a character that is no white space; a
/// link begins with the opening of its kind; and a slash link or a hyper
/// link holds no space, no tab and no line feed.
pub open spec fn is_sound(primitive: Primitive) -> bool {
    &&& primitive.text.len() > 0
    &&& match primitive.kind {
        Kind::Sigil => primitive.text.len() == 1 && sigil_kind(primitive.text[0]) is Some,
        Kind::EmptySpace => forall|index: int|
            0 <= index < primitive.text.len() ==> is_blank(primitive.text[index]),
        Kind::TextSpan => exists|index: int|
            0 <= index < primitive.text.len() && !is_blank(#[trigger] primitive.text[index]),
        Kind::SlashLink => begins_with(primitive.text, SLASH_LINK_SEQUENCE@) && is_unbroken(
            primitive.text,
        ),
        Kind::HyperLink => (begins_with(primitive.text, HTTP_LINK_SEQUENCE@) || begins_with(
            primitive.text,
            HTTPS_LINK_SEQUENCE@,
        ) || begins_with(primitive.text, IPFS_LINK_SEQUENCE@)) && is_unbroken(primitive.text),
        Kind::WikiLink => begins_with(primitive.text, WIKI_LINK_OPEN_SEQUENCE@),
    }
}

/// Whether `text` holds no space, no tab and no line feed.
pub open spec fn is_unbroken(text: Seq<char>) -> bool {
    forall|index: int| 0 <= index < text.len() ==> !is_boundary(text[index])
}

/// Whether each of `primitives` is sound.
pub open spec fn all_sound(primitives: Seq<Primitive>) -> bool {
    forall|index: int| 0 <= index < primitives.len() ==> is_sound(#[trigger] primitives[index])
}

/// Whether none of `primitives` is a sigil.
pub open spec fn is_sigil_free(primitives: Seq<Primitive>) -> bool {
    forall|index: int|
        0 <= index < primitives.len() ==> (#[trigger] primitives[index]).kind != Kind::Sigil
}

/// Whether `spaces` is where the white space ends that begins at `start`,
/// as far as a scan that has come to `index` can tell.
pub open spec fn is_space_run(text: Seq<char>, start: int, spaces: int, index: int) -> bool {
    &&& start <= spaces <= index
    &&& forall|place: int| start <= place < spaces ==> is_blank(text[place])
    &&& spaces < index ==> !is_blank(text[spaces])
}

/// What is clipped is sound, and no sigil.
proof fn lemma_clip_sound(text: Seq<char>, spaces: int, start: int, end: int, index: int)
    requires
        0 <= start <= end <= index <= text.len(),
        is_space_run(text, start, spaces, index),
    ensures
        all_sound(clip(text, spaces, start, end)),
        is_sigil_free(clip(text, spaces, start, end)),
{
    let clipped = clip(text, spaces, start, end);
    if end <= start {
    } else if spaces >= end {
        assert forall|place: int| 0 <= place < end - start implies is_blank(
            text.subrange(start, end)[place],
        ) by {
            assert(text.subrange(start, end)[place] == text[start + place]);
        }
    } else if start == 0 && spaces > 0 {
        assert forall|place: int| 0 <= place < spaces implies is_blank(
            text.subrange(0, spaces)[place],
        ) by {
            assert(text.subrange(0, spaces)[place] == text[place]);
        }
        assert(!is_blank(text.subrange(spaces, end)[0]));
    } else {
        assert(!is_blank(text.subrange(start, end)[spaces - start]));
    }
}

/// The spans that a scan finds are sound, and none is a sigil, if that
/// holds of those found before.
proof fn lemma_scan_sound(text: Seq<char>, scan: Scan)
    requires
        settled(scan.links, text, scan.start, scan.index),
        is_space_run(text, scan.start, scan.spaces, scan.index),
        all_sound(scan.found),
        is_sigil_free(scan.found),
    ensures
        all_sound(scan_from(text, scan).0),
        is_sigil_free(scan_from(text, scan).0),
    decreases text.len() - scan.index,
{
    if scan.index >= text.len() {
        lemma_clip_sound(text, scan.spaces, scan.start, text.len() as int, scan.index);
    } else if text[scan.index] == '\n' {
        lemma_clip_sound(text, scan.spaces, scan.start, scan.index, scan.index);
    } else {
        let token = text[scan.index];
        let seen = scan.look(token);
        assert(is_space_run(text, seen.start, seen.spaces, scan.index + 1));
        match scan.opens_link(text) {
            Some((opened, closed, parse_as)) => {
                lemma_fire_step(scan.links, text, scan.start, scan.index);
                match parse_as {
                    ParseLinkAs::WikiLink => lemma_link_end_bounds::<WikiLinkDelimiterPredicate>(
                        text.skip(opened),
                        wiki_link_delimiter_initial(),
                    ),
                    _ => lemma_link_end_bounds::<WhiteSpacePredicate>(
                        text.skip(opened),
                        new_line_initial(),
                    ),
                }
                lemma_clip_sound(text, seen.spaces, seen.start, opened, scan.index + 1);
                let linked = seen.link(text, opened, closed, parse_as);
                let link = Primitive {
                    kind: link_kind(parse_as),
                    text: text.subrange(opened, closed),
                };
                assert(is_sound(link)) by {
                    let length = scan.index + 1 - opened;
                    assert(link.text.take(length) =~= text.subrange(opened, scan.index + 1));
                    if parse_as != ParseLinkAs::WikiLink {
                        assert forall|place: int| 0 <= place < link.text.len() implies !is_boundary(
                            link.text[place],
                        ) by {
                            lemma_plain_link_boundary_free(text.skip(opened), place);
                            assert(link.text[place] == text.skip(opened)[place]);
                        }
                    }
                }
                if closed < text.len() && text[closed] != '\n' {
                    lemma_reprime_step(scan.links.after(token), text, closed);
                    lemma_scan_sound(
                        text,
                        Scan {
                            index: closed + 1,
                            links: scan.links.after(token).after(text[closed]),
                            ..linked.look(text[closed])
                        },
                    );
                }
            },
            None => {
                lemma_takes_openings(text, scan);
                lemma_quiet_step(scan.links, text, scan.start, scan.index);
                lemma_scan_sound(
                    text,
                    Scan { index: scan.index + 1, links: scan.links.after(token), ..seen },
                );
            },
        }
    }
}

/// The spans of a line are sound: none is empty, none is a sigil, white
/// space is nothing but white space, prose holds a character that is no
/// white space, every link begins with the opening of its kind, and no
/// slash link or hyper link holds a space, a tab or a line feed.
pub proof fn lemma_spans_are_sound(text: Seq<char>)
    ensures
        all_sound(scan_text(text).0),
        is_sigil_free(scan_text(text).0),
{
    lemma_patterns();
    let links = link_initial();
    assert forall|which: int| 0 <= which < 5 implies follows(
        #[trigger] machine(links, which),
        pattern(which),
        text,
        0,
        0,
    ) by {}
    lemma_scan_sound(text, Scan::initial());
}

/// The white space in front of a text is nothing but white space.
proof fn lemma_leading_space_blank(text: Seq<char>, from: int, index: int)
    requires
        0 <= from <= index < leading_space_end(text, from),
    ensures
        is_blank(text[index]),
    decreases text.len() - from,
{
    if from < text.len() && is_blank(text[from]) {
        if index > from {
            lemma_leading_space_blank(text, from + 1, index);
        }
    }
}

/// Whether a sigil stands in `block` only as the first span of a header,
/// a quote or a list item.
pub open spec fn has_sigil_in_front_only(block: BlockView) -> bool {
    forall|index: int|
        0 <= index < block.primitives.len() && (#[trigger] block.primitives[index]).kind
            == Kind::Sigil ==> index == 0 && (block.kind == BlockKind::Header || block.kind
            == BlockKind::Quote || block.kind == BlockKind::List)
}

/// The spans of a block are sound: none is empty, but the span of a
/// blank that is an empty line; a sigil is one of the three sigils, and
/// stands only in front of a header, a quote or a list item; white space
/// is nothing but white space; prose holds a character that is no white
/// space; every link begins with the opening of its kind; and no slash
/// link or hyper link holds a space, a tab or a line feed.
pub proof fn lemma_block_spans_are_sound(text: Seq<char>)
    ensures
        ({
            let block = parse_block(text).0;
            if block.kind == BlockKind::Blank {
                block.primitives.len() == 1 && block.primitives[0].kind == Kind::EmptySpace
                    && forall|index: int|
                    0 <= index < block.primitives[0].text.len() ==> is_blank(
                        block.primitives[0].text[index],
                    )
            } else {
                all_sound(block.primitives)
            }
        }),
        has_sigil_in_front_only(parse_block(text).0),
{
    let lead = leading_space_end(text, 0);
    lemma_leading_space_end(text, 0);
    assert forall|index: int| 0 <= index < lead implies is_blank(text.take(lead)[index]) by {
        lemma_leading_space_blank(text, 0, index);
    }
    if lead >= text.len() || text[lead] == '\n' {
    } else if lead == 0 && sigil_kind(text[0]) is Some {
        lemma_spans_are_sound(text.skip(1));
    } else {
        lemma_spans_are_sound(text.skip(lead));
    }
}

} // verus!
