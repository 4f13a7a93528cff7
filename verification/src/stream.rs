//! Subtext that arrives piece by piece. The adapter takes the characters
//! of a source as they come, keeps them in two accumulators, one for
//! content and one for the white space around line breaks, and hands out
//! a block whenever one of the two is complete.

use crate::block::{parse_block, Block, BlockView};
use crate::error::ParseError;
use crate::parse::{blocks_of, parse};
use crate::predicate::is_tab_or_space;
use crate::text::{
    byte_len, lemma_byte_len_push, lemma_chars_within_bytes, SharedString, MAX_LEN,
};
use vstd::prelude::*;
use vstd::std_specs::iter::IteratorSpec;
use vstd::utf8::{decode_utf8, decode_utf8_encode_utf8, encode_utf8, valid_utf8};

verus! {

/// The first block of `input`. Bytes that are no UTF-8 are refused as
/// invalid, more bytes than a shared text can hold as out of bounds, and
/// no bytes at all as a source that has closed empty.
pub fn parse_one(input: &[u8]) -> (parsed: Result<Block, ParseError>)
    ensures
        match parsed {
            Ok(block) => {
                &&& 0 < input@.len() <= MAX_LEN
                &&& valid_utf8(input@)
                &&& block@ == parse_block(decode_utf8(input@)).0
            },
            Err(ParseError::SliceOutOfBounds) => input@.len() > MAX_LEN,
            Err(ParseError::InvalidEncoding) => input@.len() <= MAX_LEN && !valid_utf8(input@),
            Err(ParseError::EmptyStreamClosed) => input@.len() == 0,
            Err(_) => false,
        },
{
    let mut iterator = match parse(input) {
        Ok(iterator) => iterator,
        Err(error) => {
            return Err(error);
        },
    };
    proof {
        decode_utf8_encode_utf8(input@);
        if iterator@.len() == 0 {
            assert(encode_utf8(iterator@) =~= Seq::<u8>::empty());
        }
    }
    match iterator.next() {
        Some(block) => Ok(block),
        None => Err(ParseError::EmptyStreamClosed),
    }
}

/// Whether `character` breaks a line: a line feed or a carriage return.
pub open spec fn is_break(character: char) -> bool {
    character == '\n' || character == '\r'
}

/// What a `StreamAdapter` holds, as plain values.
pub struct StreamState {
    /// The content gathered since the last flush.
    pub content: Seq<char>,
    /// The line breaks gathered since the last flush, and the tabs and
    /// spaces among them.
    pub space: Seq<char>,
}

impl StreamState {
    /// The state of an adapter that has taken nothing.
    pub open spec fn initial() -> StreamState {
        StreamState { content: seq![], space: seq![] }
    }

    /// Whether the accumulators can take one more character.
    pub open spec fn has_room(self) -> bool {
        byte_len(self.content) + 4 <= MAX_LEN && byte_len(self.space) + 4 <= MAX_LEN
    }

    /// What `character` flushes: a line break flushes the content, and a
    /// character that is neither a line break nor a tab nor a space flushes
    /// the white space, if there is any of it.
    pub open spec fn flushed(self, character: char) -> Option<Seq<char>> {
        if is_break(character) {
            if self.content.len() > 0 {
                Some(self.content)
            } else {
                None
            }
        } else if is_tab_or_space(character) {
            None
        } else {
            if self.space.len() > 0 {
                Some(self.space)
            } else {
                None
            }
        }
    }

    /// The state after `character`: a line break goes to the white space,
    /// a tab or a space goes to the white space if there is any of it and
    /// to the content otherwise, and any other character goes to the
    /// content. What is flushed is gone.
    pub open spec fn push(self, character: char) -> StreamState {
        if is_break(character) {
            StreamState { content: seq![], space: self.space.push(character) }
        } else if is_tab_or_space(character) {
            if self.space.len() > 0 {
                StreamState { space: self.space.push(character), ..self }
            } else {
                StreamState { content: self.content.push(character), ..self }
            }
        } else {
            StreamState { content: self.content.push(character), space: seq![] }
        }
    }

    /// Whether an accumulator runs full while the state takes `text`.
    pub open spec fn overflows(self, text: Seq<char>) -> bool
        decreases text.len(),
    {
        if text.len() == 0 {
            false
        } else {
            !self.has_room() || self.push(text[0]).overflows(text.drop_first())
        }
    }

    /// The state after the characters of `text`.
    pub open spec fn feed(self, text: Seq<char>) -> StreamState
        decreases text.len(),
    {
        if text.len() == 0 {
            self
        } else {
            self.push(text[0]).feed(text.drop_first())
        }
    }

    /// What the characters of `text` flush, in order.
    pub open spec fn runs(self, text: Seq<char>) -> Seq<Seq<char>>
        decreases text.len(),
    {
        if text.len() == 0 {
            seq![]
        } else {
            let first = match self.flushed(text[0]) {
                Some(run) => seq![run],
                None => seq![],
            };
            first + self.push(text[0]).runs(text.drop_first())
        }
    }

    /// What the end of the source flushes: the content if there is any,
    /// then the white space if there is any.
    pub open spec fn rest(self) -> Seq<Seq<char>> {
        let content = if self.content.len() > 0 {
            seq![self.content]
        } else {
            seq![]
        };
        let space = if self.space.len() > 0 {
            seq![self.space]
        } else {
            seq![]
        };
        content + space
    }
}

/// The block that a flush makes of each of `runs`: the first block of the
/// run.
pub open spec fn blocks_from(runs: Seq<Seq<char>>) -> Seq<BlockView> {
    Seq::new(runs.len(), |index: int| parse_block(runs[index]).0)
}

/// The blocks that an adapter hands out for a source that holds `text`
/// and then ends.
pub open spec fn stream_blocks(text: Seq<char>) -> Seq<BlockView> {
    blocks_from(
        StreamState::initial().runs(text) + StreamState::initial().feed(text).rest(),
    )
}

/// Takes the characters of a source as they come and hands out blocks.
#[derive(Debug)]
pub struct StreamAdapter {
    content: String,
    space: String,
}

impl View for StreamAdapter {
    type V = StreamState;

    closed spec fn view(&self) -> StreamState {
        StreamState { content: self.content@, space: self.space@ }
    }
}

/// The block that a flush makes of `run`.
fn flush(run: &String) -> (flushed: Result<Block, ParseError>)
    requires
        byte_len(run@) <= MAX_LEN,
    ensures
        flushed is Ok,
        flushed->Ok_0@ == parse_block(run@).0,
{
    let text = SharedString::from_str(run.as_str())?;
    let (block, _) = crate::block::parse(text)?;
    Ok(block)
}

impl StreamAdapter {
    /// The accumulators hold no more than a shared text can hold.
    #[verifier::type_invariant]
    spec fn inv(self) -> bool {
        byte_len(self.content@) <= MAX_LEN && byte_len(self.space@) <= MAX_LEN
    }

    /// An adapter that has taken nothing.
    pub fn new() -> (adapter: Self)
        ensures
            adapter@ == StreamState::initial(),
    {
        proof {
            assert(encode_utf8(Seq::<char>::empty()) =~= Seq::<u8>::empty());
        }
        StreamAdapter { content: String::new(), space: String::new() }
    }

    /// Whether the accumulators can take one more character.
    pub fn has_room(&self) -> (room: bool)
        ensures
            room == self@.has_room(),
    {
        proof {
            use_type_invariant(self);
        }
        self.content.as_str().len() <= MAX_LEN - 4 && self.space.as_str().len() <= MAX_LEN - 4
    }

    /// Takes one character of the source and hands out the block that it
    /// completes, if it completes one. A character for which there is no
    /// room is refused, and the adapter is left as it was.
    pub fn push(&mut self, character: char) -> (pushed: Result<Option<Block>, ParseError>)
        ensures
            match pushed {
                Ok(block) => {
                    &&& old(self)@.has_room()
                    &&& final(self)@ == old(self)@.push(character)
                    &&& match block {
                        Some(block) => old(self)@.flushed(character) is Some && block@
                            == parse_block(old(self)@.flushed(character)->Some_0).0,
                        None => old(self)@.flushed(character) is None,
                    }
                },
                Err(error) => {
                    &&& error == ParseError::SliceOutOfBounds
                    &&& !old(self)@.has_room()
                    &&& final(self)@ == old(self)@
                },
            },
    {
        proof {
            use_type_invariant(&*self);
            lemma_byte_len_push(self.content@, character);
            lemma_byte_len_push(self.space@, character);
            assert(encode_utf8(Seq::<char>::empty()) =~= Seq::<u8>::empty());
        }
        if !self.has_room() {
            return Err(ParseError::SliceOutOfBounds);
        }
        let mut content = String::new();
        let mut space = String::new();
        core::mem::swap(&mut content, &mut self.content);
        core::mem::swap(&mut space, &mut self.space);
        let mut block: Option<Block> = None;
        match character {
            '\n' | '\r' => {
                if content.as_str().len() > 0 {
                    block = Some(flush(&content)?);
                    content = String::new();
                } else {
                    proof {
                        lemma_chars_within_bytes(content@);
                        if content@.len() == 0 {
                            assert(content@ =~= Seq::<char>::empty());
                        }
                    }
                }
                space.push(character);
            },
            ' ' | '\t' => {
                proof {
                    lemma_chars_within_bytes(space@);
                }
                if space.as_str().len() > 0 {
                    space.push(character);
                } else {
                    content.push(character);
                }
            },
            _ => {
                if space.as_str().len() > 0 {
                    block = Some(flush(&space)?);
                    space = String::new();
                } else {
                    proof {
                        lemma_chars_within_bytes(space@);
                        if space@.len() == 0 {
                            assert(space@ =~= Seq::<char>::empty());
                        }
                    }
                }
                content.push(character);
            },
        }
        self.content = content;
        self.space = space;
        Ok(block)
    }
}

impl StreamAdapter {
    /// Takes the characters of `chunk` in order and hands out the blocks
    /// that they complete, if there is room for all of them.
    pub fn feed(&mut self, chunk: &str) -> (fed: Result<Vec<Block>, ParseError>)
        ensures
            match fed {
                Ok(blocks) => {
                    &&& !old(self)@.overflows(chunk@)
                    &&& final(self)@ == old(self)@.feed(chunk@)
                    &&& blocks_of(blocks@) == blocks_from(old(self)@.runs(chunk@))
                },
                Err(error) => error == ParseError::SliceOutOfBounds && old(self)@.overflows(
                    chunk@,
                ),
            },
    {
        let ghost before = self@;
        let ghost text = chunk@;
        let mut blocks: Vec<Block> = Vec::new();
        let mut characters = chunk.chars();
        let ghost mut taken: int = 0;
        proof {
            assert(text.skip(0) =~= text);
            assert(blocks_of(blocks@) =~= Seq::<BlockView>::empty());
            assert(Seq::<BlockView>::empty() + blocks_from(before.runs(text)) =~= blocks_from(
                before.runs(text),
            ));
        }
        loop
            invariant
                before == old(self)@,
                text == chunk@,
                0 <= taken <= text.len(),
                characters.remaining() == text.skip(taken),
                before.overflows(text) == self@.overflows(text.skip(taken)),
                before.feed(text) == self@.feed(text.skip(taken)),
                blocks_from(before.runs(text)) == blocks_of(blocks@) + blocks_from(
                    self@.runs(text.skip(taken)),
                ),
            ensures
                !before.overflows(text),
                self@ == before.feed(text),
                blocks_of(blocks@) == blocks_from(before.runs(text)),
            decreases text.len() - taken,
        {
            let ghost state = self@;
            let ghost found = blocks_of(blocks@);
            let ghost left = text.skip(taken);
            match characters.next() {
                Some(character) => {
                    proof {
                        assert(left[0] == text[taken]);
                        assert(left.drop_first() =~= text.skip(taken + 1));
                    }
                    let block = match self.push(character) {
                        Ok(block) => block,
                        Err(error) => {
                            proof {
                                assert(state.overflows(left));
                            }
                            return Err(error);
                        },
                    };
                    proof {
                        taken = taken + 1;
                    }
                    let ghost later = blocks_from(self@.runs(text.skip(taken)));
                    match block {
                        Some(block) => {
                            blocks.push(block);
                            proof {
                                let run = state.flushed(character)->Some_0;
                                assert(blocks_of(blocks@) =~= found + seq![block@]);
                                assert(blocks_from(seq![run] + self@.runs(text.skip(taken)))
                                    =~= seq![block@] + later);
                                assert(found + (seq![block@] + later) =~= (found + seq![block@])
                                    + later);
                            }
                        },
                        None => {
                            proof {
                                assert(Seq::<Seq<char>>::empty() + self@.runs(text.skip(taken))
                                    =~= self@.runs(text.skip(taken)));
                            }
                        },
                    }
                },
                None => {
                    proof {
                        assert(blocks_from(Seq::<Seq<char>>::empty())
                            =~= Seq::<BlockView>::empty());
                        assert(found + Seq::<BlockView>::empty() =~= found);
                    }
                    break ;
                },
            }
        }
        Ok(blocks)
    }

    /// Ends the source: hands out the blocks that the accumulators still
    /// hold, the content first and then the white space.
    pub fn finish(self) -> (finished: Result<Vec<Block>, ParseError>)
        ensures
            finished is Ok,
            blocks_of(finished->Ok_0@) == blocks_from(self@.rest()),
    {
        proof {
            use_type_invariant(&self);
            lemma_chars_within_bytes(self.content@);
            lemma_chars_within_bytes(self.space@);
            assert(encode_utf8(Seq::<char>::empty()) =~= Seq::<u8>::empty());
        }
        let mut blocks: Vec<Block> = Vec::new();
        if self.content.as_str().len() > 0 {
            let block = flush(&self.content)?;
            blocks.push(block);
        }
        if self.space.as_str().len() > 0 {
            let block = flush(&self.space)?;
            blocks.push(block);
        }
        proof {
            assert(blocks_of(blocks@) =~= blocks_from(self@.rest()));
        }
        Ok(blocks)
    }
}

/// Takes the characters of `chunks`, one chunk after the other, and hands
/// out the blocks of the whole, as if the source ended behind the last
/// chunk.
pub fn stream(chunks: &Vec<String>) -> (streamed: Result<Vec<Block>, ParseError>)
    ensures
        match streamed {
            Ok(blocks) => {
                &&& !StreamState::initial().overflows(concat(texts_in(chunks@)))
                &&& blocks_of(blocks@) == stream_blocks(concat(texts_in(chunks@)))
            },
            Err(error) => error == ParseError::SliceOutOfBounds
                && StreamState::initial().overflows(concat(texts_in(chunks@))),
        },
{
    let ghost texts = texts_in(chunks@);
    let ghost whole = concat(texts);
    let mut adapter = StreamAdapter::new();
    let mut blocks: Vec<Block> = Vec::new();
    let mut index: usize = 0;
    proof {
        assert(texts.take(0) =~= Seq::<Seq<char>>::empty());
        assert(blocks_of(blocks@) =~= Seq::<BlockView>::empty());
        assert(blocks_from(Seq::<Seq<char>>::empty()) =~= Seq::<BlockView>::empty());
    }
    while index < chunks.len()
        invariant
            index <= chunks@.len(),
            texts == texts_in(chunks@),
            whole == concat(texts),
            !StreamState::initial().overflows(concat(texts.take(index as int))),
            adapter@ == StreamState::initial().feed(concat(texts.take(index as int))),
            blocks_of(blocks@) == blocks_from(
                StreamState::initial().runs(concat(texts.take(index as int))),
            ),
        decreases chunks@.len() - index,
    {
        let ghost front = concat(texts.take(index as int));
        let ghost chunk = texts[index as int];
        let ghost found = blocks_of(blocks@);
        proof {
            assert(texts.take(index + 1) =~= texts.take(index as int).push(chunk));
            lemma_concat_push(texts.take(index as int), chunk);
            lemma_feed_concat(StreamState::initial(), front, chunk);
            lemma_concat_split(texts, index + 1);
            lemma_feed_concat(
                StreamState::initial(),
                concat(texts.take(index + 1)),
                concat(texts.skip(index + 1)),
            );
        }
        let mut more = match adapter.feed(chunks[index].as_str()) {
            Ok(more) => more,
            Err(error) => {
                return Err(error);
            },
        };
        let ghost added = blocks_of(more@);
        blocks.append(&mut more);
        proof {
            assert(blocks_of(blocks@) =~= found + added);
            assert(blocks_from(
                StreamState::initial().runs(front) + StreamState::initial().feed(front).runs(chunk),
            ) =~= found + added);
        }
        index = index + 1;
    }
    proof {
        assert(texts.take(index as int) =~= texts);
    }
    let ghost found = blocks_of(blocks@);
    let mut last = adapter.finish()?;
    let ghost added = blocks_of(last@);
    blocks.append(&mut last);
    proof {
        assert(blocks_of(blocks@) =~= found + added);
        assert(blocks_from(
            StreamState::initial().runs(whole) + StreamState::initial().feed(whole).rest(),
        ) =~= found + added);
    }
    Ok(blocks)
}

/// The characters of each of `chunks`, in order.
pub open spec fn texts_in(chunks: Seq<String>) -> Seq<Seq<char>> {
    Seq::new(chunks.len(), |index: int| chunks[index]@)
}

/// The characters of `chunks`, one chunk after the other.
pub open spec fn concat(chunks: Seq<Seq<char>>) -> Seq<char>
    decreases chunks.len(),
{
    if chunks.len() == 0 {
        seq![]
    } else {
        concat(chunks.drop_last()) + chunks.last()
    }
}

/// One more chunk adds its characters at the end.
pub proof fn lemma_concat_push(chunks: Seq<Seq<char>>, chunk: Seq<char>)
    ensures
        concat(chunks.push(chunk)) == concat(chunks) + chunk,
{
    assert(chunks.push(chunk).drop_last() =~= chunks);
}

/// The characters of chunks are those of the chunks in front and then
/// those of the chunks behind.
pub proof fn lemma_concat_split(chunks: Seq<Seq<char>>, at: int)
    requires
        0 <= at <= chunks.len(),
    ensures
        concat(chunks) == concat(chunks.take(at)) + concat(chunks.skip(at)),
    decreases chunks.len(),
{
    if at == chunks.len() {
        assert(chunks.take(at) =~= chunks);
        assert(chunks.skip(at) =~= Seq::<Seq<char>>::empty());
        assert(concat(chunks) + Seq::<char>::empty() =~= concat(chunks));
    } else {
        lemma_concat_split(chunks.drop_last(), at);
        assert(chunks.drop_last().take(at) =~= chunks.take(at));
        assert(chunks.drop_last().skip(at) =~= chunks.skip(at).drop_last());
        assert(concat(chunks) =~= concat(chunks.take(at)) + concat(chunks.skip(at)));
    }
}

/// It makes no difference where a source is cut into chunks: to take one
/// text and then another is to take the two in a row. The state at the
/// end is the same, and so is what is flushed on the way.
pub proof fn lemma_feed_concat(state: StreamState, front: Seq<char>, back: Seq<char>)
    ensures
        state.feed(front + back) == state.feed(front).feed(back),
        state.runs(front + back) == state.runs(front) + state.feed(front).runs(back),
        state.overflows(front + back) == (state.overflows(front) || state.feed(front).overflows(
            back,
        )),
    decreases front.len(),
{
    if front.len() == 0 {
        assert(front + back =~= back);
        assert(Seq::<Seq<char>>::empty() + state.runs(back) =~= state.runs(back));
    } else {
        let next = state.push(front[0]);
        lemma_feed_concat(next, front.drop_first(), back);
        assert((front + back).drop_first() =~= front.drop_first() + back);
        assert((front + back)[0] == front[0]);
        let first = match state.flushed(front[0]) {
            Some(run) => seq![run],
            None => seq![],
        };
        assert(first + (next.runs(front.drop_first()) + next.feed(front.drop_first()).runs(back))
            =~= (first + next.runs(front.drop_first())) + next.feed(front.drop_first()).runs(
            back,
        ));
    }
}

/// What the characters of `chunks` flush when the chunks are taken one
/// after the other.
pub open spec fn runs_of_chunks(state: StreamState, chunks: Seq<Seq<char>>) -> Seq<Seq<char>>
    decreases chunks.len(),
{
    if chunks.len() == 0 {
        seq![]
    } else {
        state.runs(chunks[0]) + runs_of_chunks(state.feed(chunks[0]), chunks.drop_first())
    }
}

/// The state after `chunks`, taken one after the other.
pub open spec fn feed_chunks(state: StreamState, chunks: Seq<Seq<char>>) -> StreamState
    decreases chunks.len(),
{
    if chunks.len() == 0 {
        state
    } else {
        feed_chunks(state.feed(chunks[0]), chunks.drop_first())
    }
}

/// It makes no difference where a source is cut into chunks: chunks taken
/// one after the other flush what their characters flush when they are
/// taken at once, and leave the same state.
pub proof fn lemma_chunks_make_no_difference(state: StreamState, chunks: Seq<Seq<char>>)
    ensures
        runs_of_chunks(state, chunks) == state.runs(concat(chunks)),
        feed_chunks(state, chunks) == state.feed(concat(chunks)),
    decreases chunks.len(),
{
    if chunks.len() > 0 {
        let next = state.feed(chunks[0]);
        lemma_chunks_make_no_difference(next, chunks.drop_first());
        lemma_concat_split(chunks, 1);
        assert(chunks.take(1) =~= seq![chunks[0]]);
        assert(chunks.skip(1) =~= chunks.drop_first());
        assert(concat(seq![chunks[0]]) =~= chunks[0]) by {
            reveal_with_fuel(concat, 2);
            assert(seq![chunks[0]].drop_last() =~= Seq::<Seq<char>>::empty());
            assert(Seq::<char>::empty() + chunks[0] =~= chunks[0]);
        }
        lemma_feed_concat(state, chunks[0], concat(chunks.drop_first()));
    }
}

/// The blocks that an adapter in `state` hands out for a source that
/// still holds `text` and then ends.
pub open spec fn stream_from(state: StreamState, text: Seq<char>) -> Seq<BlockView> {
    blocks_from(state.runs(text) + state.feed(text).rest())
}

} // verus!
