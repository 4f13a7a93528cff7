//! Small helpers around shared text.

pub use crate::slug::to_slug;

use crate::block::Block;
use crate::error::ParseError;
use crate::parse::{
    blocks_of, document_text, ends_with_line_feed, join_lines, lemma_join_push, lemma_round_trip,
    parse, parse_document, texts_of,
};
use crate::text::{byte_len, SharedString, MAX_LEN};
use vstd::prelude::*;
use vstd::string::StringExecFns;
use vstd::utf8::{
    encode_utf8, encode_utf8_decode_utf8, encode_utf8_valid_utf8, is_char_boundary,
};

verus! {

/// Cuts `text` at the byte `at` and returns the right-hand side of the
/// cut. The cut is refused exactly when `at` lies behind the end of the
/// text or inside a character.
pub fn cut(text: &SharedString, at: usize) -> (cut: Result<SharedString, ParseError>)
    ensures
        match cut {
            Ok(rest) => {
                &&& at <= byte_len(text@)
                &&& is_char_boundary(encode_utf8(text@), at as int)
                &&& encode_utf8(rest@) == encode_utf8(text@).skip(at as int)
            },
            Err(error) => {
                &&& error == ParseError::SliceOutOfBounds
                &&& at > byte_len(text@) || !is_char_boundary(encode_utf8(text@), at as int)
            },
        },
{
    let length = text.len();
    if at > length {
        return Err(ParseError::SliceOutOfBounds);
    }
    proof {
        encode_utf8_valid_utf8(text@);
        vstd::utf8::is_char_boundary_start_end_of_seq(encode_utf8(text@));
    }
    match text.try_subtendril(at as u32, (length - at) as u32) {
        Ok(rest) => {
            proof {
                assert(encode_utf8(text@).subrange(at as int, length as int) =~= encode_utf8(
                    text@,
                ).skip(at as int));
            }
            Ok(rest)
        },
        Err(_) => Err(ParseError::SliceOutOfBounds),
    }
}

/// The characters of `blocks`, with a line feed between one block and the
/// next.
pub fn join_blocks(blocks: &Vec<Block>) -> (text: String)
    ensures
        text@ == document_text(blocks_of(blocks@)),
{
    let ghost lines = texts_of(blocks_of(blocks@));
    let mut text = String::new();
    let mut index: usize = 0;
    proof {
        assert(lines.take(0) =~= Seq::<Seq<char>>::empty());
    }
    while index < blocks.len()
        invariant
            index <= blocks@.len(),
            lines == texts_of(blocks_of(blocks@)),
            text@ == join_lines(lines.take(index as int)),
        decreases blocks@.len() - index,
    {
        if index > 0 {
            proof {
                reveal_strlit("\n");
            }
            text.append("\n");
            assert(text@ =~= join_lines(lines.take(index as int)) + seq!['\n']);
        }
        text.append(blocks[index].to_string().as_str());
        proof {
            lemma_join_push(lines.take(index as int), lines[index as int]);
            assert(lines.take(index + 1) =~= lines.take(index as int).push(lines[index as int]));
        }
        index = index + 1;
    }
    proof {
        assert(lines.take(index as int) =~= lines);
    }
    text
}

/// Whether `input` comes back when it is parsed and its blocks are put
/// together again with a line feed between one block and the next: it
/// does unless it ends with a line feed, which ends the last block and
/// stands between no two, or is longer than a shared text can be.
pub fn assert_round_trip(input: &str) -> (round_trips: bool)
    ensures
        round_trips == (byte_len(input@) <= MAX_LEN && document_text(parse_document(input@))
            == input@),
        round_trips == (byte_len(input@) <= MAX_LEN && !ends_with_line_feed(input@)),
{
    proof {
        encode_utf8_valid_utf8(input@);
        encode_utf8_decode_utf8(input@);
        lemma_round_trip(input@);
        let joined = document_text(parse_document(input@));
        if ends_with_line_feed(input@) {
            assert(input@.len() == joined.len() + 1);
        } else {
            assert(joined + Seq::<char>::empty() =~= joined);
        }
    }
    match parse(input.as_bytes()) {
        Ok(iterator) => {
            let blocks = iterator.collect();
            let actual_string = join_blocks(&blocks);
            actual_string == input.to_owned()
        },
        Err(_) => false,
    }
}

} // verus!
