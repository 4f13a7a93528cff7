//! A document of subtext, read block by block from a buffer.

use crate::block::{
    lemma_block_round_trip, lemma_leading_space_end, leading_space_end, parse_block, sigil_kind,
    Block, BlockView,
};
use crate::error::ParseError;
use crate::primitive::{
    is_blank, lemma_flatten_concat, lemma_flatten_one, lemma_scan_end, lemma_scan_feed_free,
    lemma_scan_text_round_trip, scan_text, Kind, Primitive, Scan,
};
use crate::text::{
    byte_len, byte_offset, lemma_byte_offset_grows, lemma_chars_within_bytes,
    lemma_encoded_subrange, SharedString, MAX_LEN,
};
use crate::util::cut;
use vstd::prelude::*;
use vstd::utf8::{decode_utf8, encode_utf8, encode_utf8_decode_utf8, valid_utf8};

verus! {

/// The views of `blocks`, in order.
pub open spec fn blocks_of(blocks: Seq<Block>) -> Seq<BlockView> {
    Seq::new(blocks.len(), |index: int| blocks[index]@)
}

/// The blocks of `text`: the block with which it begins, then the blocks
/// of what that block leaves.
pub open spec fn parse_document(text: Seq<char>) -> Seq<BlockView>
    decreases text.len(),
{
    if text.len() == 0 {
        seq![]
    } else {
        let (block, size) = parse_block(text);
        if 0 < size <= text.len() {
            seq![block] + parse_document(text.skip(size))
        } else {
            seq![block]
        }
    }
}

/// A block takes at least one character of a text that has any, and no
/// more than the text has.
pub proof fn lemma_block_size(text: Seq<char>)
    ensures
        0 <= parse_block(text).1 <= text.len(),
        text.len() > 0 ==> 0 < parse_block(text).1,
{
    let lead = leading_space_end(text, 0);
    lemma_leading_space_end(text, 0);
    if lead >= text.len() || text[lead] == '\n' {
    } else if lead == 0 && sigil_kind(text[0]) is Some {
        lemma_scan_end(text.skip(1), Scan::initial());
    } else {
        let rest = text.skip(lead);
        lemma_scan_end(rest, Scan::initial());
        let scan = Scan::initial();
        let seen = scan.look(rest[0]);
        assert(rest[0] == text[lead]);
        match scan.opens_link(rest) {
            Some((opened, closed, parse_as)) => {
                let linked = seen.link(rest, opened, closed, parse_as);
                if !(closed >= rest.len() || rest[closed] == '\n') {
                    lemma_scan_end(
                        rest,
                        Scan {
                            index: closed + 1,
                            links: scan.links.after(rest[0]).after(rest[closed]),
                            ..linked.look(rest[closed])
                        },
                    );
                }
            },
            None => {
                lemma_scan_end(rest, Scan { index: 1, links: scan.links.after(rest[0]), ..seen });
            },
        }
    }
}

/// The lines in `lines`, with a line feed between one and the next.
pub open spec fn join_lines(lines: Seq<Seq<char>>) -> Seq<char>
    decreases lines.len(),
{
    if lines.len() == 0 {
        seq![]
    } else if lines.len() == 1 {
        lines[0]
    } else {
        lines[0] + seq!['\n'] + join_lines(lines.drop_first())
    }
}

/// One more line adds a line feed and the line, but for the first line.
pub proof fn lemma_join_push(lines: Seq<Seq<char>>, line: Seq<char>)
    ensures
        join_lines(lines.push(line)) == if lines.len() == 0 {
            line
        } else {
            join_lines(lines) + seq!['\n'] + line
        },
    decreases lines.len(),
{
    let pushed = lines.push(line);
    reveal_with_fuel(join_lines, 3);
    if lines.len() == 0 {
    } else if lines.len() == 1 {
        assert(pushed.drop_first() =~= seq![line]);
        assert(join_lines(pushed) =~= lines[0] + seq!['\n'] + line);
    } else {
        lemma_join_push(lines.drop_first(), line);
        assert(pushed.drop_first() =~= lines.drop_first().push(line));
        assert(join_lines(pushed) =~= join_lines(lines) + seq!['\n'] + line);
    }
}

/// The characters of each of `blocks`, in order.
pub open spec fn texts_of(blocks: Seq<BlockView>) -> Seq<Seq<char>> {
    Seq::new(blocks.len(), |index: int| blocks[index].text())
}

/// The text of a document made of `blocks`: the characters of the blocks,
/// with a line feed between one block and the next.
pub open spec fn document_text(blocks: Seq<BlockView>) -> Seq<char> {
    join_lines(texts_of(blocks))
}

/// Whether `text` ends with a line feed.
pub open spec fn ends_with_line_feed(text: Seq<char>) -> bool {
    text.len() > 0 && text.last() == '\n'
}

/// The numbers of bytes that the blocks of `text` take, one after the
/// other: what `block::parse` reports when it is called on `text`, then
/// on what the first block leaves, and so on to the end.
pub open spec fn consumed_lengths(text: Seq<char>) -> Seq<nat>
    decreases text.len(),
{
    if text.len() == 0 {
        seq![]
    } else {
        let size = parse_block(text).1;
        if 0 < size <= text.len() {
            seq![byte_offset(text, size)] + consumed_lengths(text.skip(size))
        } else {
            seq![byte_offset(text, size)]
        }
    }
}

/// The sum of `lengths`.
pub open spec fn total(lengths: Seq<nat>) -> nat
    decreases lengths.len(),
{
    if lengths.len() == 0 {
        0
    } else {
        lengths[0] + total(lengths.drop_first())
    }
}

/// A text is the characters of its first block, the line feed behind them
/// if there is one, and what the block leaves.
proof fn lemma_first_line(text: Seq<char>)
    requires
        text.len() > 0,
    ensures
        ({
            let (block, size) = parse_block(text);
            let line = block.text();
            let rest = text.skip(size);
            &&& 0 < size <= text.len()
            &&& rest.len() > 0 ==> text == line + seq!['\n'] + rest
            &&& rest.len() > 0 ==> ends_with_line_feed(text) == ends_with_line_feed(rest)
            &&& rest.len() == 0 && ends_with_line_feed(text) ==> text == line + seq!['\n']
            &&& rest.len() == 0 && !ends_with_line_feed(text) ==> text == line
        }),
{
    let (block, size) = parse_block(text);
    let line = block.text();
    let rest = text.skip(size);
    lemma_block_size(text);
    lemma_block_round_trip(text);
    if rest.len() > 0 {
        assert(size == line.len() + 1);
        assert(text =~= line + seq!['\n'] + rest);
        assert(rest.last() == text.last());
    } else if size == line.len() {
        assert(text.take(size) =~= text);
        if line.len() > 0 {
            lemma_line_ends_before_feed(text);
        }
    } else {
        assert(text =~= line + seq!['\n']);
    }
}

/// The text of the document that a text makes is the characters of its
/// first block and, behind a line feed, the text of the document that the
/// rest makes, if there is a rest.
proof fn lemma_document_text(text: Seq<char>)
    requires
        text.len() > 0,
    ensures
        ({
            let (block, size) = parse_block(text);
            let rest = text.skip(size);
            document_text(parse_document(text)) == if rest.len() == 0 {
                block.text()
            } else {
                block.text() + seq!['\n'] + document_text(parse_document(rest))
            }
        }),
{
    let (block, size) = parse_block(text);
    let rest = text.skip(size);
    lemma_block_size(text);
    let blocks = parse_document(text);
    let others = parse_document(rest);
    assert(blocks =~= seq![block] + others);
    assert(texts_of(blocks) =~= seq![block.text()] + texts_of(others));
    assert(texts_of(blocks).drop_first() =~= texts_of(others));
    if rest.len() == 0 {
        assert(texts_of(others) =~= Seq::<Seq<char>>::empty());
    } else {
        lemma_block_size(rest);
        assert(others.len() > 0);
    }
}

/// Parsing loses nothing: the characters of the blocks of a text, with a
/// line feed between one block and the next and a line feed at the end
/// where the text ends with one, are the text.
pub proof fn lemma_round_trip(text: Seq<char>)
    ensures
        text == document_text(parse_document(text)) + (if ends_with_line_feed(text) {
            seq!['\n']
        } else {
            seq![]
        }),
    decreases text.len(),
{
    let joined = document_text(parse_document(text));
    if text.len() == 0 {
        assert(texts_of(parse_document(text)) =~= Seq::<Seq<char>>::empty());
        assert(joined + Seq::<char>::empty() =~= text);
    } else {
        let (block, size) = parse_block(text);
        let line = block.text();
        let rest = text.skip(size);
        lemma_first_line(text);
        lemma_document_text(text);
        if rest.len() == 0 {
            if !ends_with_line_feed(text) {
                assert(line + Seq::<char>::empty() =~= line);
            }
        } else {
            lemma_round_trip(rest);
            let others = document_text(parse_document(rest));
            if ends_with_line_feed(text) {
                assert(line + seq!['\n'] + (others + seq!['\n']) =~= (line + seq!['\n'] + others)
                    + seq!['\n']);
            } else {
                assert(line + seq!['\n'] + (others + Seq::<char>::empty()) =~= (line + seq!['\n']
                    + others) + Seq::<char>::empty());
            }
        }
    }
}

/// A block that takes a text to its end without a line feed does not end
/// with a line feed.
proof fn lemma_line_ends_before_feed(text: Seq<char>)
    requires
        text.len() > 0,
        parse_block(text).1 == text.len(),
        parse_block(text).0.text().len() == text.len(),
    ensures
        text.last() != '\n',
{
    lemma_block_feed_free(text, text.len() - 1);
}

/// The characters of a block hold no line feed.
pub proof fn lemma_block_feed_free(text: Seq<char>, index: int)
    requires
        0 <= index < parse_block(text).0.text().len(),
    ensures
        text[index] != '\n',
{
    lemma_block_round_trip(text);
    let lead = leading_space_end(text, 0);
    lemma_leading_space_end(text, 0);
    if index < lead {
        lemma_leading_space_feed_free(text, 0, index);
    }
    if lead >= text.len() || text[lead] == '\n' {
        lemma_flatten_one(parse_block(text).0.primitives[0]);
    } else if lead == 0 && sigil_kind(text[0]) is Some {
        let rest = text.skip(1);
        lemma_scan_text_round_trip(rest);
        let sigil = Primitive {
            kind: Kind::Sigil,
            text: text.take(1),
        };
        lemma_flatten_concat(seq![sigil], scan_text(rest).0);
        lemma_flatten_one(sigil);
        if index >= 1 {
            lemma_scan_feed_free(rest, Scan::initial(), index - 1);
        }
    } else {
        let rest = text.skip(lead);
        lemma_scan_text_round_trip(rest);
        let space = Primitive {
            kind: Kind::EmptySpace,
            text: text.take(lead),
        };
        if lead > 0 {
            lemma_flatten_concat(
                seq![space],
                scan_text(rest).0,
            );
            lemma_flatten_one(space);
        } else {
            assert(Seq::<Primitive>::empty() + scan_text(
                rest,
            ).0 =~= scan_text(rest).0);
        }
        if index >= lead {
            lemma_scan_feed_free(rest, Scan::initial(), index - lead);
        }
    }
}

/// No line feed is among the white space with which a text begins.
proof fn lemma_leading_space_feed_free(text: Seq<char>, from: int, index: int)
    requires
        0 <= from <= index < leading_space_end(text, from),
    ensures
        text[index] != '\n',
    decreases text.len() - from,
{
    if from < text.len() && is_blank(text[from]) {
        if index > from {
            lemma_leading_space_feed_free(text, from + 1, index);
        }
    }
}

/// The blocks of a text take all of it, one behind the other: the numbers
/// of bytes that they take add up to the length of the text in bytes, and
/// each block of a text takes at least one byte. There are as many
/// numbers as blocks.
pub proof fn lemma_partition(text: Seq<char>)
    ensures
        total(consumed_lengths(text)) == byte_len(text),
        consumed_lengths(text).len() == parse_document(text).len(),
        forall|index: int|
            0 <= index < consumed_lengths(text).len() ==> #[trigger] consumed_lengths(text)[index]
                > 0,
    decreases text.len(),
{
    if text.len() == 0 {
        assert(encode_utf8(text) =~= Seq::<u8>::empty());
    } else {
        let size = parse_block(text).1;
        let rest = text.skip(size);
        lemma_block_size(text);
        lemma_partition(rest);
        lemma_byte_offset_grows(text, 0, size);
        lemma_byte_offset_grows(text, size, text.len() as int);
        assert(text.subrange(size, text.len() as int) =~= rest);
        let lengths = consumed_lengths(text);
        assert(lengths =~= seq![byte_offset(text, size)] + consumed_lengths(rest));
        assert(lengths.drop_first() =~= consumed_lengths(rest));
        assert forall|index: int| 0 <= index < lengths.len() implies #[trigger] lengths[index]
            > 0 by {
            if index > 0 {
                assert(lengths[index] == consumed_lengths(rest)[index - 1]);
            }
        }
    }
}

/// Reads a buffer of subtext block by block, from the front.
#[derive(Debug)]
pub struct SubtextIterator {
    input: SharedString,
}

impl View for SubtextIterator {
    type V = Seq<char>;

    /// The text that is left to read.
    closed spec fn view(&self) -> Seq<char> {
        self.input@
    }
}

impl SubtextIterator {
    /// An iterator over the blocks of `input`.
    pub fn new(input: SharedString) -> (iterator: Self)
        ensures
            iterator@ == input@,
    {
        SubtextIterator { input }
    }

    /// The next block, if any text is left, and the text that the block
    /// takes is read.
    pub fn next(&mut self) -> (block: Option<Block>)
        ensures
            match block {
                Some(block) => {
                    &&& old(self)@.len() > 0
                    &&& block@ == parse_block(old(self)@).0
                    &&& final(self)@ == old(self)@.skip(parse_block(old(self)@).1)
                },
                None => old(self)@.len() == 0 && final(self)@ == old(self)@,
            },
    {
        let ghost text = self.input@;
        proof {
            lemma_chars_within_bytes(text);
            lemma_block_size(text);
            if text.len() == 0 {
                assert(encode_utf8(text) =~= Seq::<u8>::empty());
            }
        }
        if self.input.len() > 0 {
            match crate::block::parse(self.input.clone()) {
                Ok((block, steps)) => {
                    let ghost size = parse_block(text).1;
                    proof {
                        lemma_encoded_subrange(text, size, text.len() as int);
                        lemma_byte_offset_grows(text, size, text.len() as int);
                        assert(text.subrange(size, text.len() as int) =~= text.skip(size));
                    }
                    match cut(&self.input, steps) {
                        Ok(input) => {
                            proof {
                                assert(encode_utf8(text).skip(steps as int) =~= encode_utf8(
                                    text,
                                ).subrange(steps as int, byte_len(text) as int));
                                encode_utf8_decode_utf8(input@);
                                encode_utf8_decode_utf8(text.skip(size));
                            }
                            self.input = input;
                            Some(block)
                        },
                        Err(_) => None,
                    }
                },
                Err(_) => None,
            }
        } else {
            None
        }
    }

    /// All the blocks that are left, in order.
    pub fn collect(self) -> (blocks: Vec<Block>)
        ensures
            blocks_of(blocks@) == parse_document(self@),
    {
        let mut iterator = self;
        let mut blocks: Vec<Block> = Vec::new();
        proof {
            assert(blocks_of(blocks@) =~= Seq::<BlockView>::empty());
            assert(Seq::<BlockView>::empty() + parse_document(self@) =~= parse_document(self@));
        }
        loop
            invariant
                blocks_of(blocks@) + parse_document(iterator@) == parse_document(self@),
            ensures
                blocks_of(blocks@) == parse_document(self@),
            decreases iterator@.len(),
        {
            let ghost before = blocks_of(blocks@);
            let ghost text = iterator@;
            proof {
                lemma_block_size(text);
            }
            match iterator.next() {
                Some(block) => {
                    blocks.push(block);
                    proof {
                        assert(blocks_of(blocks@) =~= before + seq![block@]);
                        assert(before + (seq![block@] + parse_document(iterator@)) =~= (before
                            + seq![block@]) + parse_document(iterator@));
                    }
                },
                None => {
                    proof {
                        assert(before + Seq::<BlockView>::empty() =~= before);
                    }
                    break ;
                },
            }
        }
        blocks
    }
}

/// Parses a buffer as subtext. The iterator yields the blocks of the
/// text one at a time. Bytes that are no UTF-8 are refused as invalid, and
/// more bytes than a shared text can hold as out of bounds.
pub fn parse(input: &[u8]) -> (parsed: Result<SubtextIterator, ParseError>)
    ensures
        match parsed {
            Ok(iterator) => {
                &&& input@.len() <= MAX_LEN
                &&& valid_utf8(input@)
                &&& iterator@ == decode_utf8(input@)
            },
            Err(ParseError::SliceOutOfBounds) => input@.len() > MAX_LEN,
            Err(ParseError::InvalidEncoding) => input@.len() <= MAX_LEN && !valid_utf8(input@),
            Err(_) => false,
        },
{
    match SharedString::try_from_byte_slice(input) {
        Ok(input) => Ok(SubtextIterator::new(input)),
        Err(error) => Err(error),
    }
}

} // verus!
