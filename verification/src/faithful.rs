//! The texts that are streamed as they are parsed: for which an adapter
//! hands out, whatever the chunks in which they arrive, the blocks that
//! the iterator over a buffer yields.
//!
//! An adapter flushes its content at every line break and its white space
//! at the first character of content behind it, and makes one block of
//! each flush. The iterator makes one block of each line. The two agree
//! where every flush is one line and every line one flush.

use crate::block::{lemma_block_round_trip, parse_block, BlockView};
use crate::locality::lemma_block_local;
use crate::parse::{lemma_block_feed_free, lemma_block_size, parse_document};
use crate::predicate::is_tab_or_space;
use crate::primitive::is_blank;
use crate::stream::{
    blocks_from, concat, feed_chunks, is_break, lemma_chunks_make_no_difference,
    lemma_feed_concat, runs_of_chunks, stream_blocks, stream_from, StreamState,
};
use crate::text::chars_of;
use vstd::prelude::*;

verus! {

/// The position of the first line break in `text` at or behind `from`,
/// or the length of `text` if there is none.
pub open spec fn break_index(text: Seq<char>, from: int) -> int
    decreases text.len() - from,
{
    if from < 0 || from >= text.len() {
        text.len() as int
    } else if is_break(text[from]) {
        from
    } else {
        break_index(text, from + 1)
    }
}

/// Where the carriage returns, tabs and spaces end that stand in `text`
/// from `from` on.
pub open spec fn return_run_end(text: Seq<char>, from: int) -> int
    decreases text.len() - from,
{
    if 0 <= from < text.len() && is_blank(text[from]) {
        return_run_end(text, from + 1)
    } else {
        from
    }
}

/// Whether the line that begins at `from` is the last of `text` or has an
/// empty line behind it, behind which `text` goes on in the same way with
/// lines that begin with neither a tab nor a space.
pub open spec fn parted_behind(text: Seq<char>, from: int) -> bool
    decreases text.len() - from, 0int,
{
    let end = break_index(text, from);
    end >= text.len() || (end + 1 < text.len() && from <= end && text[end] == '\n' && text[end + 1]
        == '\n' && parted(text, end + 2))
}

/// Whether `text` is, from `from` on, made of lines with an empty line
/// between one and the next, none of which begins with a tab or a space
/// or holds a carriage return.
pub open spec fn parted(text: Seq<char>, from: int) -> bool
    decreases text.len() - from, 1int,
{
    if from < 0 || from >= text.len() {
        true
    } else if is_break(text[from]) || is_tab_or_space(text[from]) {
        false
    } else {
        parted_behind(text, from)
    }
}

/// The texts for which an adapter hands out the blocks that the iterator
/// over a buffer yields. They are made of lines with an empty line
/// between one and the next, and the line feeds of the empty lines are
/// their only line breaks, but that in front of the first line there may
/// stand a line feed or a line of carriage returns, tabs and spaces;
/// only the first line may begin with a tab or a space, and only if it
/// is the beginning of the text. A text in which one line follows
/// another with a single line feed between the two is not among them.
pub open spec fn faithful(text: Seq<char>) -> bool {
    if text.len() == 0 {
        true
    } else if text[0] == '\n' {
        parted(text, 1)
    } else if text[0] == '\r' {
        let end = return_run_end(text, 0);
        end >= text.len() || (text[end] == '\n' && parted(text, end + 1))
    } else {
        parted_behind(text, 0)
    }
}

/// The position of the first line break at or behind `from`.
fn find_break(text: &Vec<char>, from: usize) -> (end: usize)
    requires
        from <= text@.len(),
    ensures
        end == break_index(text@, from as int),
        from <= end <= text@.len(),
{
    let mut end = from;
    while end < text.len() && text[end] != '\n' && text[end] != '\r'
        invariant
            from <= end <= text@.len(),
            break_index(text@, from as int) == break_index(text@, end as int),
        decreases text@.len() - end,
    {
        end = end + 1;
    }
    end
}

/// Whether `text` is, from `from` on, made of lines with an empty line
/// between one and the next, none of which begins with a tab or a space
/// or holds a carriage return.
fn is_parted(text: &Vec<char>, start: usize) -> (answer: bool)
    requires
        start <= text@.len(),
    ensures
        answer == parted(text@, start as int),
{
    let mut from = start;
    loop
        invariant
            from <= text@.len(),
            parted(text@, start as int) == parted(text@, from as int),
        decreases text@.len() - from,
    {
        if from >= text.len() {
            return true;
        }
        let token = text[from];
        if token == '\n' || token == '\r' || token == ' ' || token == '\t' {
            return false;
        }
        let end = find_break(text, from);
        if end >= text.len() {
            return true;
        }
        if !(end + 1 < text.len() && text[end] == '\n' && text[end + 1] == '\n') {
            return false;
        }
        from = end + 2;
    }
}

/// Whether `text` is faithful: whether an adapter hands out for it the
/// blocks that the iterator over a buffer yields.
pub fn is_faithful(text: &str) -> (answer: bool)
    ensures
        answer == faithful(text@),
{
    let text = chars_of(text);
    if text.len() == 0 {
        return true;
    }
    let first = text[0];
    if first == '\n' {
        is_parted(&text, 1)
    } else if first == '\r' {
        let mut end: usize = 0;
        while end < text.len() && (text[end] == '\r' || text[end] == ' ' || text[end] == '\t')
            invariant
                end <= text@.len(),
                return_run_end(text@, 0) == return_run_end(text@, end as int),
            decreases text@.len() - end,
        {
            end = end + 1;
        }
        end >= text.len() || (text[end] == '\n' && is_parted(&text, end + 1))
    } else {
        let end = find_break(&text, 0);
        end >= text.len() || (end + 1 < text.len() && text[end] == '\n' && text[end + 1] == '\n'
            && is_parted(&text, end + 2))
    }
}

/// The first line break stands at or behind where it was looked for, and
/// no line break stands in front of it.
proof fn lemma_break_index(text: Seq<char>, from: int)
    requires
        0 <= from <= text.len(),
    ensures
        from <= break_index(text, from) <= text.len(),
        forall|index: int| from <= index < break_index(text, from) ==> !is_break(text[index]),
        break_index(text, from) < text.len() ==> is_break(text[break_index(text, from)]),
    decreases text.len() - from,
{
    if from < text.len() && !is_break(text[from]) {
        lemma_break_index(text, from + 1);
    }
}

/// The carriage returns, tabs and spaces end at or behind where they were
/// looked for, and nothing else stands among them.
proof fn lemma_return_run_end(text: Seq<char>, from: int)
    requires
        0 <= from <= text.len(),
    ensures
        from <= return_run_end(text, from) <= text.len(),
        forall|index: int| from <= index < return_run_end(text, from) ==> is_blank(text[index]),
        return_run_end(text, from) < text.len() ==> !is_blank(text[return_run_end(text, from)]),
    decreases text.len() - from,
{
    if from < text.len() && is_blank(text[from]) {
        lemma_return_run_end(text, from + 1);
    }
}

/// The blocks of runs in a row are the blocks of the ones and then the
/// blocks of the others.
proof fn lemma_blocks_from_concat(front: Seq<Seq<char>>, back: Seq<Seq<char>>)
    ensures
        blocks_from(front + back) == blocks_from(front) + blocks_from(back),
{
    assert(blocks_from(front + back) =~= blocks_from(front) + blocks_from(back));
}

/// What an adapter hands out for a text is what it hands out for the
/// front of the text and then, in the state that the front leaves, for
/// the rest.
proof fn lemma_stream_from_concat(state: StreamState, front: Seq<char>, back: Seq<char>)
    ensures
        stream_from(state, front + back) == blocks_from(state.runs(front)) + stream_from(
            state.feed(front),
            back,
        ),
{
    lemma_feed_concat(state, front, back);
    let behind = state.feed(front);
    assert(state.runs(front) + behind.runs(back) + behind.feed(back).rest() =~= state.runs(front)
        + (behind.runs(back) + behind.feed(back).rest()));
    lemma_blocks_from_concat(state.runs(front), behind.runs(back) + behind.feed(back).rest());
}

/// Characters that break no line go to the content and flush nothing
/// where no white space is open.
proof fn lemma_feed_line(state: StreamState, line: Seq<char>)
    requires
        state.space.len() == 0,
        forall|index: int| 0 <= index < line.len() ==> !is_break(line[index]),
    ensures
        state.feed(line) == (StreamState { content: state.content + line, space: seq![] }),
        state.runs(line) == Seq::<Seq<char>>::empty(),
    decreases line.len(),
{
    if line.len() == 0 {
        assert(state.content + line =~= state.content);
        assert(state.space =~= Seq::<char>::empty());
    } else {
        let next = state.push(line[0]);
        assert(next.space =~= Seq::<char>::empty());
        assert forall|index: int| 0 <= index < line.drop_first().len() implies !is_break(
            line.drop_first()[index],
        ) by {
            assert(line.drop_first()[index] == line[index + 1]);
        }
        lemma_feed_line(next, line.drop_first());
        assert(state.content.push(line[0]) + line.drop_first() =~= state.content + line);
        assert(state.flushed(line[0]) is None);
        assert(Seq::<Seq<char>>::empty() + next.runs(line.drop_first())
            =~= Seq::<Seq<char>>::empty());
    }
}

/// Line breaks, and tabs and spaces behind a line break, go to the white
/// space and flush nothing where no content is open.
proof fn lemma_feed_space(state: StreamState, run: Seq<char>)
    requires
        state.content.len() == 0,
        state.space.len() > 0 || (run.len() > 0 && is_break(run[0])),
        forall|index: int|
            0 <= index < run.len() ==> is_break(run[index]) || is_tab_or_space(run[index]),
    ensures
        state.feed(run) == (StreamState { content: seq![], space: state.space + run }),
        state.runs(run) == Seq::<Seq<char>>::empty(),
    decreases run.len(),
{
    if run.len() == 0 {
        assert(state.space + run =~= state.space);
        assert(state.content =~= Seq::<char>::empty());
    } else {
        let next = state.push(run[0]);
        assert(next.content =~= Seq::<char>::empty());
        assert forall|index: int| 0 <= index < run.drop_first().len() implies is_break(
            run.drop_first()[index],
        ) || is_tab_or_space(run.drop_first()[index]) by {
            assert(run.drop_first()[index] == run[index + 1]);
        }
        lemma_feed_space(next, run.drop_first());
        assert(state.space.push(run[0]) + run.drop_first() =~= state.space + run);
        assert(state.flushed(run[0]) is None);
        assert(Seq::<Seq<char>>::empty() + next.runs(run.drop_first())
            =~= Seq::<Seq<char>>::empty());
    }
}

/// A text without a line feed is one block.
proof fn lemma_document_of_line(line: Seq<char>)
    requires
        line.len() > 0,
        forall|index: int| 0 <= index < line.len() ==> line[index] != '\n',
    ensures
        parse_document(line) == seq![parse_block(line).0],
{
    lemma_block_local(line, line, line.len() as int);
    let rest = line.skip(line.len() as int);
    assert(rest =~= Seq::<char>::empty());
    assert(parse_document(rest) =~= Seq::<BlockView>::empty());
    assert(parse_document(line) =~= seq![parse_block(line).0] + parse_document(rest));
    assert(seq![parse_block(line).0] + Seq::<BlockView>::empty() =~= seq![parse_block(line).0]);
}

/// The iterator over a buffer yields, for a line with an empty line
/// behind it, the block of the line and a blank, and goes on behind the
/// empty line.
proof fn lemma_document_parted(text: Seq<char>, line: Seq<char>, rest: Seq<char>)
    requires
        line.len() > 0,
        forall|index: int| 0 <= index < line.len() ==> !is_break(line[index]),
        text == line + seq!['\n', '\n'] + rest,
    ensures
        parse_document(text) == seq![parse_block(line).0, parse_block(seq!['\n', '\n']).0]
            + parse_document(rest),
{
    let end = line.len() as int;
    assert(text.take(end) =~= line);
    assert(line.take(end) =~= line);
    assert forall|index: int| 0 <= index < end implies text[index] != '\n' && text[index]
        != '\r' by {
        assert(text[index] == line[index]);
    }
    lemma_block_local(text, line, end);
    let behind = text.skip(end + 1);
    assert(behind =~= seq!['\n'] + rest);
    let empty = seq!['\n', '\n'];
    assert(behind.take(0) =~= empty.take(0));
    lemma_block_local(behind, empty, 0);
    assert(behind.skip(1) =~= rest);
    assert(parse_document(behind) =~= seq![parse_block(empty).0] + parse_document(rest));
    assert(parse_document(text) =~= seq![parse_block(line).0] + parse_document(behind));
    assert(seq![parse_block(line).0] + (seq![parse_block(empty).0] + parse_document(rest))
        =~= seq![parse_block(line).0, parse_block(empty).0] + parse_document(rest));
}

/// An adapter that has the beginning of a line as its content hands out,
/// for the rest of the line and an empty line behind it, the block of
/// the line, and goes on behind the empty line with the two line feeds
/// as its white space.
proof fn lemma_stream_parted_line(state: StreamState, more: Seq<char>, rest: Seq<char>)
    requires
        state.space.len() == 0,
        state.content.len() + more.len() > 0,
        forall|index: int| 0 <= index < more.len() ==> !is_break(more[index]),
    ensures
        stream_from(state, more + seq!['\n', '\n'] + rest) == seq![
            parse_block(state.content + more).0,
        ] + stream_from(StreamState { content: seq![], space: seq!['\n', '\n'] }, rest),
        stream_from(state, more) == seq![parse_block(state.content + more).0],
{
    let line = state.content + more;
    let full = StreamState { content: line, space: seq![] };
    lemma_feed_line(state, more);
    // The line alone: the end of the source flushes it.
    assert(full.rest() =~= seq![line]);
    assert(Seq::<Seq<char>>::empty() + full.rest() =~= seq![line]);
    assert(blocks_from(seq![line]) =~= seq![parse_block(line).0]);
    // The line and the empty line behind it.
    let feeds = seq!['\n', '\n'];
    let one = StreamState { content: seq![], space: seq!['\n'] };
    let two = StreamState { content: seq![], space: feeds };
    assert(full.push('\n') == one) by {
        assert(full.space.push('\n') =~= seq!['\n']);
    }
    assert(one.push('\n') == two) by {
        assert(one.space.push('\n') =~= feeds);
    }
    assert(full.feed(feeds) == two && full.runs(feeds) =~= seq![line]) by {
        reveal_with_fuel(StreamState::feed, 3);
        reveal_with_fuel(StreamState::runs, 3);
        assert(feeds.drop_first() =~= seq!['\n']);
        assert(feeds.drop_first().drop_first() =~= Seq::<char>::empty());
    }
    lemma_stream_from_concat(state, more, feeds + rest);
    lemma_stream_from_concat(full, feeds, rest);
    assert(more + feeds + rest =~= more + (feeds + rest));
    assert(blocks_from(Seq::<Seq<char>>::empty()) =~= Seq::<BlockView>::empty());
    assert(Seq::<BlockView>::empty() + (blocks_from(seq![line]) + stream_from(two, rest))
        =~= seq![parse_block(line).0] + stream_from(two, rest));
}

/// An adapter with open white space hands out, for lines with an empty
/// line between one and the next, the block of the white space and then
/// the blocks that the iterator over a buffer yields.
proof fn lemma_stream_parted(text: Seq<char>, from: int, space: Seq<char>)
    requires
        0 <= from <= text.len(),
        parted(text, from),
        space.len() > 0,
    ensures
        stream_from(StreamState { content: seq![], space }, text.skip(from)) == seq![
            parse_block(space).0,
        ] + parse_document(text.skip(from)),
    decreases text.len() - from,
{
    let state = StreamState { content: seq![], space };
    let left = text.skip(from);
    if from == text.len() {
        assert(left =~= Seq::<char>::empty());
        assert(state.rest() =~= seq![space]);
        assert(Seq::<Seq<char>>::empty() + state.rest() =~= seq![space]);
        assert(blocks_from(seq![space]) =~= seq![parse_block(space).0]);
        assert(seq![parse_block(space).0] + Seq::<BlockView>::empty() =~= seq![
            parse_block(space).0,
        ]);
    } else {
        let end = break_index(text, from);
        lemma_break_index(text, from);
        let first = text[from];
        let more = text.subrange(from + 1, end);
        let line = text.subrange(from, end);
        let begun = StreamState { content: seq![first], space: seq![] };
        assert(state.push(first) == begun) by {
            assert(state.content.push(first) =~= seq![first]);
        }
        assert(state.flushed(first) == Some(space));
        assert(seq![first] + more =~= line);
        assert forall|index: int| 0 <= index < more.len() implies !is_break(more[index]) by {
            assert(more[index] == text[from + 1 + index]);
        }
        assert forall|index: int| 0 <= index < line.len() implies !is_break(line[index]) by {
            assert(line[index] == text[from + index]);
        }
        assert(left.drop_first() =~= text.skip(from + 1));
        assert(left[0] == first);
        let behind = text.skip(from + 1);
        // After the first character of the line, which flushes the white
        // space, the adapter has the beginning of the line as its content.
        assert(stream_from(state, left) =~= seq![parse_block(space).0] + stream_from(
            begun,
            behind,
        )) by {
            assert(state.runs(left) =~= seq![space] + begun.runs(behind));
            assert(state.feed(left) == begun.feed(behind));
            assert(state.runs(left) + state.feed(left).rest() =~= seq![space] + (begun.runs(
                behind,
            ) + begun.feed(behind).rest()));
            lemma_blocks_from_concat(
                seq![space],
                begun.runs(behind) + begun.feed(behind).rest(),
            );
            assert(blocks_from(seq![space]) =~= seq![parse_block(space).0]);
        }
        if end >= text.len() {
            assert(behind =~= more);
            assert(left =~= line);
            lemma_stream_parted_line(begun, more, Seq::<char>::empty());
            assert forall|index: int| 0 <= index < line.len() implies line[index] != '\n' by {
                assert(!is_break(line[index]));
            }
            lemma_document_of_line(line);
        } else {
            let rest = text.skip(end + 2);
            assert(behind =~= more + seq!['\n', '\n'] + rest);
            assert(left =~= line + seq!['\n', '\n'] + rest);
            lemma_stream_parted_line(begun, more, rest);
            lemma_stream_parted(text, end + 2, seq!['\n', '\n']);
            lemma_document_parted(left, line, rest);
            assert(seq![parse_block(space).0] + (seq![parse_block(line).0] + (seq![
                parse_block(seq!['\n', '\n']).0,
            ] + parse_document(rest))) =~= seq![parse_block(space).0] + (seq![
                parse_block(line).0,
                parse_block(seq!['\n', '\n']).0,
            ] + parse_document(rest)));
        }
    }
}

/// The adapter and the iterator agree on a text that begins with a line
/// feed and goes on with lines parted by empty lines.
proof fn lemma_stream_behind_feed(text: Seq<char>)
    requires
        text.len() > 0,
        text[0] == '\n',
        parted(text, 1),
    ensures
        stream_from(StreamState::initial(), text) == parse_document(text),
{
    let initial = StreamState::initial();
    let feed = seq!['\n'];
    let rest = text.skip(1);
    assert(text =~= feed + rest);
    lemma_feed_space(initial, feed);
    assert(initial.space + feed =~= feed);
    lemma_stream_from_concat(initial, feed, rest);
    lemma_stream_parted(text, 1, feed);
    assert(blocks_from(Seq::<Seq<char>>::empty()) =~= Seq::<BlockView>::empty());
    assert(text.take(0) =~= feed.take(0));
    lemma_block_local(text, feed, 0);
    assert(parse_document(text) =~= seq![parse_block(feed).0] + parse_document(rest));
    assert(Seq::<BlockView>::empty() + (seq![parse_block(feed).0] + parse_document(rest))
        =~= seq![parse_block(feed).0] + parse_document(rest));
}

/// The adapter and the iterator agree on a text that is nothing but
/// carriage returns, tabs and spaces behind a carriage return.
proof fn lemma_stream_of_returns(text: Seq<char>)
    requires
        text.len() > 0,
        text[0] == '\r',
        return_run_end(text, 0) >= text.len(),
    ensures
        stream_from(StreamState::initial(), text) == parse_document(text),
{
    let initial = StreamState::initial();
    lemma_return_run_end(text, 0);
    lemma_feed_space(initial, text);
    assert(initial.space + text =~= text);
    let state = StreamState { content: seq![], space: text };
    assert(state.rest() =~= seq![text]);
    assert(Seq::<Seq<char>>::empty() + state.rest() =~= seq![text]);
    assert(blocks_from(seq![text]) =~= seq![parse_block(text).0]);
    lemma_document_of_line(text);
}

/// The adapter and the iterator agree on a text that begins with a line
/// of carriage returns, tabs and spaces and goes on with lines parted by
/// empty lines.
proof fn lemma_stream_behind_returns(text: Seq<char>)
    requires
        text.len() > 0,
        text[0] == '\r',
        return_run_end(text, 0) < text.len(),
        text[return_run_end(text, 0)] == '\n',
        parted(text, return_run_end(text, 0) + 1),
    ensures
        stream_from(StreamState::initial(), text) == parse_document(text),
{
    let initial = StreamState::initial();
    let end = return_run_end(text, 0);
    lemma_return_run_end(text, 0);
    let space = text.take(end + 1);
    let rest = text.skip(end + 1);
    assert(text =~= space + rest);
    assert forall|index: int| 0 <= index < space.len() implies is_break(space[index])
        || is_tab_or_space(space[index]) by {
        assert(space[index] == text[index]);
    }
    lemma_feed_space(initial, space);
    assert(initial.space + space =~= space);
    lemma_stream_from_concat(initial, space, rest);
    lemma_stream_parted(text, end + 1, space);
    assert(blocks_from(Seq::<Seq<char>>::empty()) =~= Seq::<BlockView>::empty());
    assert(text.take(end) =~= space.take(end));
    assert forall|index: int| 0 <= index < end implies text[index] != '\n' by {
        assert(is_blank(text[index]));
    }
    lemma_block_local(text, space, end);
    assert(parse_document(text) =~= seq![parse_block(space).0] + parse_document(rest));
    assert(Seq::<BlockView>::empty() + (seq![parse_block(space).0] + parse_document(rest))
        =~= seq![parse_block(space).0] + parse_document(rest));
}

/// The adapter and the iterator agree on a text that begins with a line
/// and goes on with lines parted by empty lines.
proof fn lemma_stream_of_lines(text: Seq<char>)
    requires
        text.len() > 0,
        !is_break(text[0]),
        parted_behind(text, 0),
    ensures
        stream_from(StreamState::initial(), text) == parse_document(text),
{
    let initial = StreamState::initial();
    let end = break_index(text, 0);
    lemma_break_index(text, 0);
    let line = text.take(end);
    assert forall|index: int| 0 <= index < line.len() implies !is_break(line[index]) by {
        assert(line[index] == text[index]);
    }
    assert(initial.content + line =~= line);
    if end >= text.len() {
        assert(line =~= text);
        lemma_stream_parted_line(initial, text, Seq::<char>::empty());
        assert forall|index: int| 0 <= index < text.len() implies text[index] != '\n' by {
            assert(!is_break(line[index]));
        }
        lemma_document_of_line(text);
    } else {
        let rest = text.skip(end + 2);
        let feeds = seq!['\n', '\n'];
        assert(text =~= line + feeds + rest);
        lemma_stream_parted_line(initial, line, rest);
        lemma_stream_parted(text, end + 2, feeds);
        lemma_document_parted(text, line, rest);
        assert(seq![parse_block(line).0] + (seq![parse_block(feeds).0] + parse_document(rest))
            =~= seq![parse_block(line).0, parse_block(feeds).0] + parse_document(rest));
    }
}

/// An adapter hands out for a faithful text, whatever the chunks in which
/// it arrives, the blocks that the iterator over a buffer yields for it.
pub proof fn lemma_stream_matches_buffer(text: Seq<char>)
    requires
        faithful(text),
    ensures
        stream_blocks(text) == parse_document(text),
{
    let initial = StreamState::initial();
    if text.len() == 0 {
        assert(initial.rest() =~= Seq::<Seq<char>>::empty());
        assert(stream_from(initial, text) =~= Seq::<BlockView>::empty());
    } else if text[0] == '\n' {
        lemma_stream_behind_feed(text);
    } else if text[0] == '\r' {
        if return_run_end(text, 0) >= text.len() {
            lemma_stream_of_returns(text);
        } else {
            lemma_stream_behind_returns(text);
        }
    } else {
        lemma_stream_of_lines(text);
    }
}

/// The position of the first line feed in `text` at or behind `from`, or
/// the length of `text` if there is none.
pub open spec fn feed_index(text: Seq<char>, from: int) -> int
    decreases text.len() - from,
{
    if from < 0 || from >= text.len() {
        text.len() as int
    } else if text[from] == '\n' {
        from
    } else {
        feed_index(text, from + 1)
    }
}

/// The first line feed stands where no line feed stands in front and a
/// line feed stands, or the text ends.
proof fn lemma_feed_index_is(text: Seq<char>, from: int, at: int)
    requires
        0 <= from <= at <= text.len(),
        forall|index: int| from <= index < at ==> text[index] != '\n',
        at < text.len() ==> text[at] == '\n',
    ensures
        feed_index(text, from) == at,
    decreases at - from,
{
    if from < at {
        lemma_feed_index_is(text, from + 1, at);
    }
}

/// The first line feed stands at or behind where it was looked for, and no
/// line feed stands in front of it.
proof fn lemma_feed_index(text: Seq<char>, from: int)
    requires
        0 <= from <= text.len(),
    ensures
        from <= feed_index(text, from) <= text.len(),
        forall|index: int| from <= index < feed_index(text, from) ==> text[index] != '\n',
        feed_index(text, from) < text.len() ==> text[feed_index(text, from)] == '\n',
    decreases text.len() - from,
{
    if from < text.len() && text[from] != '\n' {
        lemma_feed_index(text, from + 1);
    }
}

/// The characters of the first block of a text are its first line.
proof fn lemma_block_text(text: Seq<char>)
    ensures
        parse_block(text).0.text() == text.take(feed_index(text, 0)),
{
    let line = parse_block(text).0.text();
    lemma_block_round_trip(text);
    assert forall|index: int| 0 <= index < line.len() implies text[index] != '\n' by {
        lemma_block_feed_free(text, index);
    }
    lemma_feed_index_is(text, 0, line.len() as int);
}

/// Where the line breaks, tabs and spaces end with which `text` begins,
/// counted from `from`.
pub open spec fn space_end(text: Seq<char>, from: int) -> int
    decreases text.len() - from,
{
    if 0 <= from < text.len() && (is_break(text[from]) || is_tab_or_space(text[from])) {
        space_end(text, from + 1)
    } else {
        from
    }
}

/// The line breaks, tabs and spaces in front end in the text, and nothing
/// else stands among them.
proof fn lemma_space_end(text: Seq<char>, from: int)
    requires
        0 <= from <= text.len(),
    ensures
        from <= space_end(text, from) <= text.len(),
        forall|index: int|
            from <= index < space_end(text, from) ==> is_break(text[index]) || is_tab_or_space(
                text[index],
            ),
        space_end(text, from) < text.len() ==> !is_break(text[space_end(text, from)])
            && !is_tab_or_space(text[space_end(text, from)]),
    decreases text.len() - from,
{
    if from < text.len() && (is_break(text[from]) || is_tab_or_space(text[from])) {
        lemma_space_end(text, from + 1);
    }
}

/// What an adapter with open white space hands out first is the block of
/// the white space and of the line breaks, tabs and spaces with which the
/// text goes on; what it hands out then is what an adapter hands out that
/// has the next character as its content.
proof fn lemma_first_of_space(space: Seq<char>, text: Seq<char>)
    requires
        space.len() > 0,
    ensures
        ({
            let end = space_end(text, 0);
            let state = StreamState { content: seq![], space };
            stream_from(state, text) == seq![parse_block(space + text.take(end)).0] + if end
                < text.len() {
                stream_from(
                    StreamState { content: seq![text[end]], space: seq![] },
                    text.skip(end + 1),
                )
            } else {
                seq![]
            }
        }),
{
    let end = space_end(text, 0);
    lemma_space_end(text, 0);
    let state = StreamState { content: seq![], space };
    let run = text.take(end);
    let full = StreamState { content: seq![], space: space + run };
    assert forall|index: int| 0 <= index < run.len() implies is_break(run[index])
        || is_tab_or_space(run[index]) by {
        assert(run[index] == text[index]);
    }
    lemma_feed_space(state, run);
    assert(text =~= run + text.skip(end));
    lemma_stream_from_concat(state, run, text.skip(end));
    assert(blocks_from(Seq::<Seq<char>>::empty()) =~= Seq::<BlockView>::empty());
    assert(Seq::<BlockView>::empty() + stream_from(full, text.skip(end)) =~= stream_from(
        full,
        text.skip(end),
    ));
    if end < text.len() {
        let first = text[end];
        let left = text.skip(end);
        let begun = StreamState { content: seq![first], space: seq![] };
        assert(left[0] == first);
        assert(left.drop_first() =~= text.skip(end + 1));
        assert(full.push(first) == begun) by {
            assert(full.content.push(first) =~= seq![first]);
        }
        assert(full.flushed(first) == Some(space + run));
        assert(full.runs(left) =~= seq![space + run] + begun.runs(text.skip(end + 1)));
        assert(full.feed(left) == begun.feed(text.skip(end + 1)));
        assert(full.runs(left) + full.feed(left).rest() =~= seq![space + run] + (begun.runs(
            text.skip(end + 1),
        ) + begun.feed(text.skip(end + 1)).rest()));
        assert(stream_from(full, left) =~= seq![parse_block(space + run).0] + stream_from(
            begun,
            text.skip(end + 1),
        ));
    } else {
        assert(text.skip(end) =~= Seq::<char>::empty());
        assert(full.rest() =~= seq![space + run]);
        assert(Seq::<Seq<char>>::empty() + full.rest() =~= seq![space + run]);
        assert(stream_from(full, text.skip(end)) =~= seq![parse_block(space + run).0]);
        assert(seq![parse_block(space + run).0] + Seq::<BlockView>::empty() =~= seq![
            parse_block(space + run).0,
        ]);
    }
}

/// What an adapter with open content hands out first is the block of the
/// content and of the rest of the line; what it hands out then is what an
/// adapter hands out that has the line break behind the line as its
/// white space.
proof fn lemma_first_of_content(content: Seq<char>, text: Seq<char>)
    requires
        content.len() > 0 || (text.len() > 0 && !is_break(text[0])),
    ensures
        ({
            let end = break_index(text, 0);
            let state = StreamState { content, space: seq![] };
            stream_from(state, text) == seq![parse_block(content + text.take(end)).0] + if end
                < text.len() {
                stream_from(
                    StreamState { content: seq![], space: seq![text[end]] },
                    text.skip(end + 1),
                )
            } else {
                seq![]
            }
        }),
{
    let end = break_index(text, 0);
    lemma_break_index(text, 0);
    let state = StreamState { content, space: seq![] };
    let more = text.take(end);
    let line = content + more;
    let full = StreamState { content: line, space: seq![] };
    assert forall|index: int| 0 <= index < more.len() implies !is_break(more[index]) by {
        assert(more[index] == text[index]);
    }
    lemma_feed_line(state, more);
    assert(text =~= more + text.skip(end));
    lemma_stream_from_concat(state, more, text.skip(end));
    assert(blocks_from(Seq::<Seq<char>>::empty()) =~= Seq::<BlockView>::empty());
    assert(Seq::<BlockView>::empty() + stream_from(full, text.skip(end)) =~= stream_from(
        full,
        text.skip(end),
    ));
    assert(line.len() > 0);
    if end < text.len() {
        let first = text[end];
        let left = text.skip(end);
        let broken = StreamState { content: seq![], space: seq![first] };
        assert(left[0] == first);
        assert(left.drop_first() =~= text.skip(end + 1));
        assert(full.push(first) == broken) by {
            assert(full.space.push(first) =~= seq![first]);
        }
        assert(full.flushed(first) == Some(line));
        assert(full.runs(left) =~= seq![line] + broken.runs(text.skip(end + 1)));
        assert(full.feed(left) == broken.feed(text.skip(end + 1)));
        assert(full.runs(left) + full.feed(left).rest() =~= seq![line] + (broken.runs(
            text.skip(end + 1),
        ) + broken.feed(text.skip(end + 1)).rest()));
        assert(stream_from(full, left) =~= seq![parse_block(line).0] + stream_from(
            broken,
            text.skip(end + 1),
        ));
    } else {
        assert(text.skip(end) =~= Seq::<char>::empty());
        assert(full.rest() =~= seq![line]);
        assert(Seq::<Seq<char>>::empty() + full.rest() =~= seq![line]);
        assert(stream_from(full, text.skip(end)) =~= seq![parse_block(line).0]);
        assert(seq![parse_block(line).0] + Seq::<BlockView>::empty() =~= seq![
            parse_block(line).0,
        ]);
    }
}

/// A text that holds a character makes a block.
proof fn lemma_document_holds(text: Seq<char>)
    requires
        text.len() > 0,
    ensures
        parse_document(text).len() > 0,
        parse_document(text)[0] == parse_block(text).0,
        0 < parse_block(text).1 <= text.len(),
        parse_document(text).drop_first() == parse_document(text.skip(parse_block(text).1)),
{
    lemma_block_size(text);
    let size = parse_block(text).1;
    assert(parse_document(text) =~= seq![parse_block(text).0] + parse_document(text.skip(size)));
    assert(parse_document(text).drop_first() =~= parse_document(text.skip(size)));
}

/// The first line break behind a position is the first line break of what
/// is left behind that position.
proof fn lemma_break_index_skip(text: Seq<char>, from: int, at: int)
    requires
        0 <= from <= at <= text.len(),
    ensures
        break_index(text.skip(from), at - from) == break_index(text, at) - from,
    decreases text.len() - at,
{
    if at < text.len() {
        assert(text.skip(from)[at - from] == text[at]);
        if !is_break(text[at]) {
            lemma_break_index_skip(text, from, at + 1);
        }
    }
}

/// The block of white space that holds a line feed is the block of that
/// white space, whatever follows the white space.
proof fn lemma_block_of_space(space: Seq<char>, more: Seq<char>)
    requires
        feed_index(space, 0) < space.len(),
    ensures
        parse_block(space + more).0 == parse_block(space).0,
        parse_block(space + more).1 == feed_index(space, 0) + 1,
{
    let end = feed_index(space, 0);
    lemma_feed_index(space, 0);
    let whole = space + more;
    assert(whole.take(end) =~= space.take(end));
    assert forall|index: int| 0 <= index < end implies whole[index] != '\n' by {
        assert(whole[index] == space[index]);
    }
    assert(whole[end] == space[end]);
    lemma_block_local(whole, space, end);
}

/// The first block that an adapter with a line break as its white space
/// hands out is empty.
proof fn lemma_first_of_feed(text: Seq<char>)
    ensures
        ({
            let fed = StreamState { content: seq![], space: seq!['\n'] };
            &&& stream_from(fed, text).len() > 0
            &&& stream_from(fed, text)[0].text().len() == 0
        }),
{
    let feed = seq!['\n'];
    lemma_first_of_space(feed, text);
    lemma_feed_index_is(feed, 0, 0);
    lemma_block_of_space(feed, text.take(space_end(text, 0)));
    lemma_block_text(feed);
}

/// An adapter that has a line feed as its white space hands out other
/// blocks than the iterator yields, unless the text goes on with a line
/// feed and, behind it, with lines parted by empty lines.
proof fn lemma_fed_differs(text: Seq<char>, at: int)
    requires
        0 <= at <= text.len(),
        !(at < text.len() && text[at] == '\n' && parted(text, at + 1)),
    ensures
        stream_from(StreamState { content: seq![], space: seq!['\n'] }, text.skip(at))
            != parse_document(text.skip(at)),
    decreases text.len() - at, 0int,
{
    let fed = StreamState { content: seq![], space: seq!['\n'] };
    let behind = text.skip(at);
    let after = stream_from(fed, behind);
    lemma_first_of_feed(behind);
    if at >= text.len() {
        assert(behind =~= Seq::<char>::empty());
        assert(parse_document(behind) =~= Seq::<BlockView>::empty());
    } else if text[at] != '\n' {
        lemma_document_holds(behind);
        lemma_block_text(behind);
        lemma_feed_index(behind, 0);
        assert(behind[0] == text[at]);
        assert(parse_document(behind)[0].text().len() > 0);
    } else {
        let feeds = seq!['\n', '\n'];
        let last = text.skip(at + 1);
        let twice = StreamState { content: seq![], space: feeds };
        assert(behind[0] == '\n');
        assert(behind.drop_first() =~= last);
        assert(behind.skip(1) =~= last);
        assert(fed.push('\n') == twice) by {
            assert(fed.space.push('\n') =~= feeds);
        }
        assert(fed.flushed('\n') is None);
        assert(fed.runs(behind) =~= twice.runs(last));
        assert(fed.feed(behind) == twice.feed(last));
        assert(after == stream_from(twice, last));
        lemma_document_holds(behind);
        assert(behind.take(0) =~= feeds.take(0));
        lemma_block_local(behind, feeds, 0);
        lemma_feed_index_is(feeds, 0, 0);
        lemma_not_parted(text, at + 1, feeds);
        assert(parse_document(behind) =~= seq![parse_block(feeds).0] + parse_document(last));
    }
}

/// The line that an adapter has as its content, with the rest of it: its
/// characters break no line, it makes the first block that the adapter
/// hands out, and that block holds all its characters.
proof fn lemma_line_streamed(text: Seq<char>, from: int, content: Seq<char>)
    requires
        0 <= from <= text.len(),
        forall|index: int| 0 <= index < content.len() ==> !is_break(content[index]),
        content.len() > 0 || (from < text.len() && !is_break(text[from])),
    ensures
        ({
            let end = break_index(text, from);
            let line = content + text.subrange(from, end);
            let streamed = stream_from(StreamState { content, space: seq![] }, text.skip(from));
            &&& from <= end <= text.len()
            &&& line.len() > 0
            &&& forall|index: int| 0 <= index < line.len() ==> !is_break(line[index])
            &&& streamed.len() > 0
            &&& streamed[0] == parse_block(line).0
            &&& streamed[0].text() == line
            &&& end < text.len() ==> streamed.drop_first() == stream_from(
                StreamState { content: seq![], space: seq![text[end]] },
                text.skip(end + 1),
            )
        }),
{
    let end = break_index(text, from);
    lemma_break_index(text, from);
    lemma_break_index_skip(text, from, from);
    let left = text.skip(from);
    let more = left.take(end - from);
    let line = content + more;
    assert(more =~= text.subrange(from, end));
    assert forall|index: int| 0 <= index < line.len() implies !is_break(line[index]) by {
        if index >= content.len() {
            assert(line[index] == text[from + index - content.len()]);
        }
    }
    assert forall|index: int| 0 <= index < line.len() implies line[index] != '\n' by {
        assert(!is_break(line[index]));
    }
    lemma_first_of_content(content, left);
    lemma_block_text(line);
    lemma_feed_index_is(line, 0, line.len() as int);
    assert(line.take(line.len() as int) =~= line);
    let streamed = stream_from(StreamState { content, space: seq![] }, left);
    if end < text.len() {
        assert(left.skip(end - from + 1) =~= text.skip(end + 1));
        assert(left[end - from] == text[end]);
        assert(streamed.drop_first() =~= stream_from(
            StreamState { content: seq![], space: seq![text[end]] },
            text.skip(end + 1),
        ));
    }
}

/// The first block that the iterator yields for a line with a carriage
/// return behind it holds more than the line.
proof fn lemma_line_with_return(whole: Seq<char>, size: int)
    requires
        0 <= size < whole.len(),
        forall|index: int| 0 <= index < size ==> whole[index] != '\n',
        whole[size] == '\r',
    ensures
        parse_document(whole).len() > 0,
        parse_document(whole)[0].text().len() > size,
{
    lemma_document_holds(whole);
    lemma_block_text(whole);
    lemma_feed_index(whole, 0);
    let at = feed_index(whole, 0);
    if at <= size {
        if at < size {
            assert(whole[at] != '\n');
        }
    }
}

/// The iterator yields, for a line with a line feed behind it, the block
/// of the line and then the blocks of what stands behind the line feed.
proof fn lemma_line_with_feed(whole: Seq<char>, size: int)
    requires
        0 <= size < whole.len(),
        forall|index: int| 0 <= index < size ==> !is_break(whole[index]),
        whole[size] == '\n',
    ensures
        parse_document(whole).len() > 0,
        parse_document(whole)[0] == parse_block(whole.take(size)).0,
        parse_document(whole).drop_first() == parse_document(whole.skip(size + 1)),
{
    let line = whole.take(size);
    lemma_document_holds(whole);
    assert(line.take(size) =~= line);
    assert forall|index: int| 0 <= index < size implies whole[index] != '\n' && whole[index]
        != '\r' by {
        assert(!is_break(whole[index]));
    }
    lemma_block_local(whole, line, size);
}

/// An adapter that has a line as its content, or the beginning of one,
/// hands out other blocks than the iterator yields where the line is not
/// the last and has no empty line behind it, or where the text does not
/// go on behind the empty line with lines parted by empty lines.
proof fn lemma_line_differs(text: Seq<char>, from: int, content: Seq<char>)
    requires
        0 <= from <= text.len(),
        forall|index: int| 0 <= index < content.len() ==> !is_break(content[index]),
        content.len() > 0 || (from < text.len() && !is_break(text[from])),
        ({
            let end = break_index(text, from);
            !(end >= text.len() || (end + 1 < text.len() && text[end] == '\n' && text[end + 1]
                == '\n' && parted(text, end + 2)))
        }),
    ensures
        stream_from(StreamState { content, space: seq![] }, text.skip(from)) != parse_document(
            content + text.skip(from),
        ),
    decreases text.len() - from, 1int,
{
    let end = break_index(text, from);
    let left = text.skip(from);
    let whole = content + left;
    let line = content + text.subrange(from, end);
    let size = line.len() as int;
    lemma_break_index(text, from);
    lemma_line_streamed(text, from, content);
    let streamed = stream_from(StreamState { content, space: seq![] }, left);
    assert(whole.take(size) =~= line);
    assert(whole[size] == text[end]);
    assert forall|index: int| 0 <= index < size implies !is_break(whole[index]) by {
        assert(whole[index] == line[index]);
    }
    if text[end] == '\r' {
        lemma_line_with_return(whole, size);
        assert(streamed[0].text().len() != parse_document(whole)[0].text().len());
    } else {
        lemma_line_with_feed(whole, size);
        assert(whole.skip(size + 1) =~= text.skip(end + 1));
        lemma_fed_differs(text, end + 1);
        assert(streamed.drop_first() != parse_document(whole).drop_first());
    }
}

/// The first block of prose that an adapter hands out behind white space
/// begins with a character that is no white space.
proof fn lemma_first_behind_space(left: Seq<char>)
    requires
        space_end(left, 0) < left.len(),
    ensures
        ({
            let end = space_end(left, 0);
            let begun = StreamState { content: seq![left[end]], space: seq![] };
            let streamed = stream_from(begun, left.skip(end + 1));
            &&& streamed.len() > 0
            &&& streamed[0].text().len() > 0
            &&& streamed[0].text()[0] == left[end]
        }),
{
    let end = space_end(left, 0);
    lemma_space_end(left, 0);
    let rest = left.skip(end + 1);
    let content = seq![left[end]];
    assert(!is_break(content[0]));
    assert(rest.skip(0) =~= rest);
    lemma_line_streamed(rest, 0, content);
    let line = content + rest.subrange(0, break_index(rest, 0));
    assert(line[0] == left[end]);
}

/// An adapter with open white space that holds a line feed hands out
/// other blocks than the block of the white space and the blocks that the
/// iterator yields, where the text is not made of lines parted by empty
/// lines.
proof fn lemma_not_parted(text: Seq<char>, from: int, space: Seq<char>)
    requires
        0 <= from <= text.len(),
        !parted(text, from),
        feed_index(space, 0) < space.len(),
    ensures
        stream_from(StreamState { content: seq![], space }, text.skip(from)) != seq![
            parse_block(space).0,
        ] + parse_document(text.skip(from)),
    decreases text.len() - from, 2int,
{
    let left = text.skip(from);
    let state = StreamState { content: seq![], space };
    let streamed = stream_from(state, left);
    let parsed = parse_document(left);
    let token = text[from];
    assert(left[0] == token);
    lemma_feed_index(space, 0);
    lemma_first_of_space(space, left);
    lemma_space_end(left, 0);
    lemma_document_holds(left);
    let end = space_end(left, 0);
    let tail = streamed.drop_first();
    assert((seq![parse_block(space).0] + parsed).drop_first() =~= parsed);
    if is_break(token) || is_tab_or_space(token) {
        if end >= left.len() {
            assert(tail =~= Seq::<BlockView>::empty());
        } else {
            let begun = StreamState { content: seq![left[end]], space: seq![] };
            assert(tail =~= stream_from(begun, left.skip(end + 1)));
            lemma_first_behind_space(left);
            lemma_block_text(left);
            lemma_feed_index(left, 0);
            let first = parsed[0].text();
            if token != '\n' {
                assert(first[0] == token);
            } else {
                assert(first.len() == 0);
            }
            assert(tail[0].text() != first);
        }
    } else {
        assert(end == 0);
        let begun = StreamState { content: seq![token], space: seq![] };
        assert(tail =~= stream_from(begun, left.skip(1)));
        assert(left.skip(1) =~= text.skip(from + 1));
        assert(seq![token] + text.skip(from + 1) =~= left);
        lemma_break_index(text, from);
        assert(break_index(text, from) == break_index(text, from + 1));
        assert(!parted_behind(text, from));
        lemma_line_differs(text, from + 1, seq![token]);
    }
    assert(tail != parsed);
}

/// A text that begins with a line feed and does not go on with lines
/// parted by empty lines is streamed otherwise than it is parsed.
proof fn lemma_unfaithful_behind_feed(text: Seq<char>)
    requires
        text.len() > 0,
        text[0] == '\n',
        !parted(text, 1),
    ensures
        stream_from(StreamState::initial(), text) != parse_document(text),
{
    let initial = StreamState::initial();
    let feed = seq!['\n'];
    let rest = text.skip(1);
    let fed = StreamState { content: seq![], space: feed };
    lemma_document_holds(text);
    assert(text =~= feed + rest);
    lemma_feed_space(initial, feed);
    assert(initial.space + feed =~= feed);
    lemma_stream_from_concat(initial, feed, rest);
    assert(blocks_from(Seq::<Seq<char>>::empty()) =~= Seq::<BlockView>::empty());
    assert(text.take(0) =~= feed.take(0));
    lemma_feed_index_is(feed, 0, 0);
    lemma_block_local(text, feed, 0);
    lemma_not_parted(text, 1, feed);
    assert(parse_document(text) =~= seq![parse_block(feed).0] + parse_document(rest));
    assert(Seq::<BlockView>::empty() + stream_from(fed, rest) =~= stream_from(fed, rest));
}

/// What an adapter hands out for a text that begins with a carriage
/// return is what it hands out, with the carriage returns, tabs and
/// spaces in front as its white space, for what stands behind them.
proof fn lemma_returns_gathered(text: Seq<char>)
    requires
        text.len() > 0,
        text[0] == '\r',
    ensures
        ({
            let end = return_run_end(text, 0);
            &&& 0 < end <= text.len()
            &&& forall|index: int| 0 <= index < end ==> text[index] != '\n'
            &&& end < text.len() ==> !is_blank(text[end])
            &&& stream_from(StreamState::initial(), text) == stream_from(
                StreamState { content: seq![], space: text.take(end) },
                text.skip(end),
            )
        }),
{
    let initial = StreamState::initial();
    let end = return_run_end(text, 0);
    lemma_return_run_end(text, 0);
    let run = text.take(end);
    let left = text.skip(end);
    let gathered = StreamState { content: seq![], space: run };
    assert(text =~= run + left);
    assert forall|index: int| 0 <= index < run.len() implies is_break(run[index])
        || is_tab_or_space(run[index]) by {
        assert(run[index] == text[index]);
    }
    assert forall|index: int| 0 <= index < end implies text[index] != '\n' by {
        assert(is_blank(text[index]));
    }
    lemma_feed_space(initial, run);
    assert(initial.space + run =~= run);
    lemma_stream_from_concat(initial, run, left);
    assert(blocks_from(Seq::<Seq<char>>::empty()) =~= Seq::<BlockView>::empty());
    assert(Seq::<BlockView>::empty() + stream_from(gathered, left) =~= stream_from(
        gathered,
        left,
    ));
}

/// A text that begins with a line of carriage returns, tabs and spaces
/// and does not go on with lines parted by empty lines is streamed
/// otherwise than it is parsed.
proof fn lemma_unfaithful_behind_returns(text: Seq<char>)
    requires
        text.len() > 0,
        text[0] == '\r',
        return_run_end(text, 0) < text.len(),
        text[return_run_end(text, 0)] == '\n',
        !parted(text, return_run_end(text, 0) + 1),
    ensures
        stream_from(StreamState::initial(), text) != parse_document(text),
{
    let end = return_run_end(text, 0);
    lemma_returns_gathered(text);
    lemma_document_holds(text);
    let run = text.take(end);
    let left = text.skip(end);
    let gathered = StreamState { content: seq![], space: run };
    let space = text.take(end + 1);
    let rest = text.skip(end + 1);
    let fed = StreamState { content: seq![], space };
    assert(left[0] == '\n');
    assert(left.drop_first() =~= rest);
    assert(gathered.push('\n') == fed) by {
        assert(run.push('\n') =~= space);
    }
    assert(gathered.flushed('\n') is None);
    assert(gathered.runs(left) =~= fed.runs(rest));
    assert(gathered.feed(left) == fed.feed(rest));
    assert(stream_from(gathered, left) == stream_from(fed, rest));
    assert forall|index: int| 0 <= index < end implies space[index] != '\n' by {
        assert(space[index] == text[index]);
    }
    lemma_feed_index_is(space, 0, end);
    assert(text.take(end) =~= space.take(end));
    lemma_block_local(text, space, end);
    lemma_not_parted(text, end + 1, space);
    assert(parse_document(text) =~= seq![parse_block(space).0] + parse_document(rest));
}

/// A text that begins with carriage returns, tabs and spaces and goes on
/// in the same line is streamed otherwise than it is parsed.
proof fn lemma_unfaithful_line_of_returns(text: Seq<char>)
    requires
        text.len() > 0,
        text[0] == '\r',
        return_run_end(text, 0) < text.len(),
        text[return_run_end(text, 0)] != '\n',
    ensures
        stream_from(StreamState::initial(), text) != parse_document(text),
{
    let end = return_run_end(text, 0);
    lemma_returns_gathered(text);
    lemma_document_holds(text);
    let run = text.take(end);
    let left = text.skip(end);
    let gathered = StreamState { content: seq![], space: run };
    lemma_first_of_space(run, left);
    assert(!is_break(left[0]) && !is_tab_or_space(left[0])) by {
        assert(left[0] == text[end]);
    }
    assert(space_end(left, 0) == 0);
    assert(run + left.take(0) =~= run);
    lemma_block_text(run);
    assert forall|index: int| 0 <= index < end implies run[index] != '\n' by {
        assert(run[index] == text[index]);
    }
    lemma_feed_index_is(run, 0, end);
    assert(run.take(end) =~= run);
    lemma_block_text(text);
    lemma_feed_index(text, 0);
    assert(feed_index(text, 0) > end) by {
        let at = feed_index(text, 0);
        if at < end {
            assert(text[at] != '\n');
        }
    }
    assert(stream_from(gathered, left)[0].text().len() != parse_document(text)[0].text().len());
}

/// A text that is not faithful is streamed otherwise than it is parsed.
proof fn lemma_unfaithful(text: Seq<char>)
    requires
        !faithful(text),
    ensures
        stream_blocks(text) != parse_document(text),
{
    if text[0] == '\n' {
        lemma_unfaithful_behind_feed(text);
    } else if text[0] == '\r' {
        if text[return_run_end(text, 0)] == '\n' {
            lemma_unfaithful_behind_returns(text);
        } else {
            lemma_unfaithful_line_of_returns(text);
        }
    } else {
        assert(Seq::<char>::empty() + text =~= text);
        assert(text.skip(0) =~= text);
        lemma_break_index(text, 0);
        lemma_line_differs(text, 0, Seq::<char>::empty());
    }
}

/// An adapter hands out the blocks that the iterator over a buffer yields
/// for the faithful texts, and for no others.
pub proof fn lemma_faithful_exactly(text: Seq<char>)
    ensures
        stream_blocks(text) == parse_document(text) <==> faithful(text),
{
    if faithful(text) {
        lemma_stream_matches_buffer(text);
    } else {
        lemma_unfaithful(text);
    }
}

/// Streaming is parsing, for a faithful text: however the text is cut
/// into chunks, the blocks that an adapter hands out when it takes the
/// chunks one after the other and the source then ends are the blocks
/// that the iterator over a buffer yields for the text.
pub proof fn lemma_streaming_equivalence(chunks: Seq<Seq<char>>)
    requires
        faithful(concat(chunks)),
    ensures
        blocks_from(
            runs_of_chunks(StreamState::initial(), chunks) + feed_chunks(
                StreamState::initial(),
                chunks,
            ).rest(),
        ) == parse_document(concat(chunks)),
{
    lemma_chunks_make_no_difference(StreamState::initial(), chunks);
    lemma_stream_matches_buffer(concat(chunks));
}

} // verus!
