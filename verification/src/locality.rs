//! A block is a matter of its line alone: what stands behind the line
//! feed that ends the line makes no difference to the block, and a line
//! without a carriage return makes the same block whether a line feed
//! ends it or the text does.

use crate::block::{leading_space_end, parse_block, sigil_kind, with_line_feed};
use crate::predicate::{
    new_line_initial, wiki_link_delimiter_initial, ParseLinkAs, Predicate,
    WhiteSpacePredicate, WikiLinkDelimiterPredicate, WikiLinkDelimiterState,
    CARRIAGE_RETURN_NEW_LINE_SEQUENCE,
};
use crate::primitive::{clip, is_blank, link_len, scan_from, link_end_in, Scan};
use crate::sequence::{lemma_go_to_wf, SequenceState};
use vstd::prelude::*;

verus! {

/// Two texts have the same line in front: they are the same up to
/// position `end`, and there each of them ends or has a line feed. Where
/// one of them ends and the other goes on, the line holds no carriage
/// return, which could make one line break with the line feed.
pub open spec fn same_line(one: Seq<char>, other: Seq<char>, end: int) -> bool {
    &&& 0 <= end <= one.len()
    &&& end <= other.len()
    &&& one.take(end) == other.take(end)
    &&& forall|index: int| 0 <= index < end ==> one[index] != '\n'
    &&& end < one.len() ==> one[end] == '\n'
    &&& end < other.len() ==> other[end] == '\n'
    &&& (end < one.len()) != (end < other.len()) ==> forall|index: int|
        0 <= index < end ==> one[index] != '\r'
}

/// What is left of two texts with the same line in front behind a
/// position in the line has the same line in front.
proof fn lemma_same_line_skip(one: Seq<char>, other: Seq<char>, end: int, from: int)
    requires
        same_line(one, other, end),
        0 <= from <= end,
    ensures
        same_line(one.skip(from), other.skip(from), end - from),
{
    assert(one.skip(from).take(end - from) =~= one.take(end).skip(from));
    assert(other.skip(from).take(end - from) =~= other.take(end).skip(from));
    assert forall|index: int| 0 <= index < end - from implies one.skip(from)[index] != '\n' by {
        assert(one.skip(from)[index] == one[index + from]);
    }
    if (end < one.len()) != (end < other.len()) {
        assert forall|index: int| 0 <= index < end - from implies one.skip(from)[index]
            != '\r' by {
            assert(one.skip(from)[index] == one[index + from]);
        }
    }
}

/// Texts with the same line in front have the same characters in it.
proof fn lemma_same_line_index(one: Seq<char>, other: Seq<char>, end: int, index: int)
    requires
        same_line(one, other, end),
        0 <= index < end,
    ensures
        one[index] == other[index],
{
    assert(one[index] == one.take(end)[index]);
    assert(other[index] == other.take(end)[index]);
}

/// The machine for a carriage return and its line feed is as it was made
/// after every character that it does not begin with, unless that
/// character completes it.
proof fn lemma_new_line_stays(state: SequenceState, token: char)
    requires
        state.states == CARRIAGE_RETURN_NEW_LINE_SEQUENCE@,
        state.reset_signal is None,
        state.wf(),
        token != '\r',
        !state.go_to(token).is_complete(),
    ensures
        state.go_to(token) == new_line_initial(),
{
}

/// Whether `state` is a state of the machine for a carriage return and
/// its line feed.
pub open spec fn is_new_line_state(state: SequenceState) -> bool {
    &&& state.states == CARRIAGE_RETURN_NEW_LINE_SEQUENCE@
    &&& state.reset_signal is None
    &&& state.wf()
}

/// The first match of white space is the same in two texts with the same
/// line in front, as far as the line goes; and where a text goes on behind
/// the line, the line feed is a match.
proof fn lemma_white_space_match(
    one: Seq<char>,
    other: Seq<char>,
    end: int,
    state: SequenceState,
    from: int,
)
    requires
        same_line(one, other, end),
        0 <= from <= end,
        is_new_line_state(state),
        (end < one.len()) != (end < other.len()) ==> state.next_state == 0,
    ensures
        link_end_in::<WhiteSpacePredicate>(one, state, from) == link_end_in::<WhiteSpacePredicate>(
            other,
            state,
            from,
        ),
        link_end_in::<WhiteSpacePredicate>(one, state, from) <= end,
    decreases end - from,
{
    lemma_go_to_wf(state, if from < one.len() {
        one[from]
    } else {
        ' '
    });
    if from < end {
        lemma_same_line_index(one, other, end, from);
        let token = one[from];
        if WhiteSpacePredicate::outcome(state, token) is None {
            if (end < one.len()) != (end < other.len()) {
                lemma_new_line_stays(state, token);
            }
            lemma_white_space_match(one, other, end, state.go_to(token), from + 1);
        }
    } else {
        if end < one.len() && end < other.len() {
        } else if end < one.len() {
            assert(!state.go_to('\n').is_complete());
        } else if end < other.len() {
            assert(!state.go_to('\n').is_complete());
        }
    }
}

/// The first match of what ends a wiki link is the same in two texts with
/// the same line in front, as far as the line goes.
proof fn lemma_wiki_link_match(
    one: Seq<char>,
    other: Seq<char>,
    end: int,
    state: WikiLinkDelimiterState,
    from: int,
)
    requires
        same_line(one, other, end),
        0 <= from <= end,
        is_new_line_state(state.new_line),
        (end < one.len()) != (end < other.len()) ==> state.new_line.next_state == 0,
    ensures
        link_end_in::<WikiLinkDelimiterPredicate>(one, state, from) == link_end_in::<
            WikiLinkDelimiterPredicate,
        >(other, state, from),
        link_end_in::<WikiLinkDelimiterPredicate>(one, state, from) <= end,
    decreases end - from,
{
    lemma_go_to_wf(state.new_line, if from < one.len() {
        one[from]
    } else {
        ' '
    });
    if from < end {
        lemma_same_line_index(one, other, end, from);
        let token = one[from];
        if WikiLinkDelimiterPredicate::outcome(state, token) is None {
            if (end < one.len()) != (end < other.len()) {
                lemma_new_line_stays(state.new_line, token);
            }
            lemma_wiki_link_match(
                one,
                other,
                end,
                WikiLinkDelimiterPredicate::after(state, token),
                from + 1,
            );
        }
    } else {
        if end < one.len() && end < other.len() {
        } else if end < one.len() {
            assert(!state.new_line.go_to('\n').is_complete());
        } else if end < other.len() {
            assert(!state.new_line.go_to('\n').is_complete());
        }
    }
}

/// A link reaches as far in one of two texts with the same line in front
/// as in the other, and no further than the line.
proof fn lemma_link_len_local(
    one: Seq<char>,
    other: Seq<char>,
    end: int,
    opened: int,
    parse_as: ParseLinkAs,
)
    requires
        same_line(one, other, end),
        0 <= opened <= end,
    ensures
        link_len(one.skip(opened), parse_as) == link_len(other.skip(opened), parse_as),
        opened + link_len(one.skip(opened), parse_as) <= end,
{
    lemma_same_line_skip(one, other, end, opened);
    match parse_as {
        ParseLinkAs::WikiLink => {
            lemma_wiki_link_match(
                one.skip(opened),
                other.skip(opened),
                end - opened,
                wiki_link_delimiter_initial(),
                0,
            );
        },
        _ => {
            lemma_white_space_match(
                one.skip(opened),
                other.skip(opened),
                end - opened,
                new_line_initial(),
                0,
            );
        },
    }
}

/// What is clipped from the line is the same in two texts with the same
/// line in front.
proof fn lemma_clip_local(
    one: Seq<char>,
    other: Seq<char>,
    end: int,
    spaces: int,
    start: int,
    to: int,
)
    requires
        same_line(one, other, end),
        0 <= start <= spaces,
        start <= to <= end,
    ensures
        clip(one, spaces, start, to) == clip(other, spaces, start, to),
{
    assert(one.subrange(start, to) =~= one.take(end).subrange(start, to));
    assert(other.subrange(start, to) =~= other.take(end).subrange(start, to));
    if start == 0 && 0 < spaces < to {
        assert(one.subrange(0, spaces) =~= one.take(end).subrange(0, spaces));
        assert(other.subrange(0, spaces) =~= other.take(end).subrange(0, spaces));
        assert(one.subrange(spaces, to) =~= one.take(end).subrange(spaces, to));
        assert(other.subrange(spaces, to) =~= other.take(end).subrange(spaces, to));
    }
}

/// A scan of the line finds the same in two texts with the same line in
/// front, and ends where the line ends.
pub proof fn lemma_scan_local(one: Seq<char>, other: Seq<char>, end: int, scan: Scan)
    requires
        same_line(one, other, end),
        0 <= scan.start <= scan.spaces <= scan.index <= end,
    ensures
        scan_from(one, scan) == scan_from(other, scan),
        scan_from(one, scan).1 == end,
    decreases end - scan.index,
{
    if scan.index >= end {
        lemma_clip_local(one, other, end, scan.spaces, scan.start, end);
    } else {
        lemma_same_line_index(one, other, end, scan.index);
        let token = one[scan.index];
        let seen = scan.look(token);
        match scan.links.outcome(token) {
            Some((length, parse_as)) => {
                let opened = scan.index + 1 - length;
                if scan.start <= opened {
                    lemma_link_len_local(one, other, end, opened, parse_as);
                }
            },
            None => {},
        }
        match scan.opens_link(one) {
            Some((opened, closed, parse_as)) => {
                assert(scan.opens_link(other) == Some((opened, closed, parse_as)));
                lemma_clip_local(one, other, end, seen.spaces, seen.start, opened);
                assert(one.subrange(opened, closed) =~= one.take(end).subrange(opened, closed));
                assert(other.subrange(opened, closed) =~= other.take(end).subrange(
                    opened,
                    closed,
                ));
                let linked = seen.link(one, opened, closed, parse_as);
                assert(linked == seen.link(other, opened, closed, parse_as));
                if closed < end {
                    lemma_same_line_index(one, other, end, closed);
                    lemma_scan_local(
                        one,
                        other,
                        end,
                        Scan {
                            index: closed + 1,
                            links: scan.links.after(token).after(one[closed]),
                            ..linked.look(one[closed])
                        },
                    );
                }
            },
            None => {
                assert(scan.opens_link(other) is None);
                lemma_scan_local(
                    one,
                    other,
                    end,
                    Scan { index: scan.index + 1, links: scan.links.after(token), ..seen },
                );
            },
        }
    }
}

/// The white space in front ends at the same place in two texts with the
/// same line in front, and in the line.
proof fn lemma_leading_space_local(one: Seq<char>, other: Seq<char>, end: int, from: int)
    requires
        same_line(one, other, end),
        0 <= from <= end,
    ensures
        leading_space_end(one, from) == leading_space_end(other, from),
        from <= leading_space_end(one, from) <= end,
    decreases end - from,
{
    if from < end {
        lemma_same_line_index(one, other, end, from);
        if is_blank(one[from]) {
            lemma_leading_space_local(one, other, end, from + 1);
        }
    }
}

/// A block is a matter of its line alone: two texts with the same line
/// in front begin with the same block, which takes the line and the line
/// feed behind it.
pub proof fn lemma_block_local(one: Seq<char>, other: Seq<char>, end: int)
    requires
        same_line(one, other, end),
    ensures
        parse_block(one).0 == parse_block(other).0,
        parse_block(one).1 == with_line_feed(one, end),
        parse_block(other).1 == with_line_feed(other, end),
{
    let lead = leading_space_end(one, 0);
    lemma_leading_space_local(one, other, end, 0);
    if lead < end {
        lemma_same_line_index(one, other, end, lead);
    }
    assert(one.take(lead) =~= one.take(end).take(lead));
    assert(other.take(lead) =~= other.take(end).take(lead));
    if lead >= one.len() || one[lead] == '\n' {
        assert(lead == end);
    } else if lead == 0 && sigil_kind(one[0]) is Some {
        assert(one.take(1) =~= one.take(end).take(1));
        assert(other.take(1) =~= other.take(end).take(1));
        lemma_same_line_skip(one, other, end, 1);
        lemma_scan_local(one.skip(1), other.skip(1), end - 1, Scan::initial());
    } else {
        lemma_same_line_skip(one, other, end, lead);
        lemma_scan_local(one.skip(lead), other.skip(lead), end - lead, Scan::initial());
    }
}

} // verus!
