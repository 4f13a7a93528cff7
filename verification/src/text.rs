//! Text that shares one buffer among all the spans cut from it, and the
//! arithmetic that relates positions counted in characters to positions
//! counted in bytes of UTF-8.

use crate::error::ParseError;
use std::str::Chars;
use vstd::prelude::*;
use vstd::std_specs::iter::IteratorSpec;
use vstd::utf8::*;

verus! {

/// The most bytes that one shared text can hold.
pub const MAX_LEN: usize = 0xffff_ffff;

/// `String::push` appends the character to the string.
pub assume_specification[ String::push ](string: &mut String, ch: char)
    ensures
        final(string)@ == old(string)@.push(ch),
;

/// The error with which tendril refuses a slice.
#[verifier::external_type_specification]
pub struct ExSubtendrilError(tendril::SubtendrilError);

/// A string that can be sliced without copying: a `tendril::StrTendril`.
/// Slices of one text share its buffer.
#[verifier::external_body]
#[derive(Debug, PartialEq, Eq)]
pub struct SharedString {
    inner: tendril::StrTendril,
}

/// The characters that a shared text holds.
pub uninterp spec fn shared_text(text: SharedString) -> Seq<char>;

impl View for SharedString {
    type V = Seq<char>;

    open spec fn view(&self) -> Seq<char> {
        shared_text(*self)
    }
}

/// The number of bytes that `text` takes in UTF-8.
pub open spec fn byte_len(text: Seq<char>) -> nat {
    encode_utf8(text).len()
}

/// The byte at which character `index` of `text` begins; for `index` equal
/// to the number of characters, the byte at which the text ends.
pub open spec fn byte_offset(text: Seq<char>, index: int) -> nat {
    byte_len(text.take(index))
}

impl Clone for SharedString {
    /// `Tendril::clone`: the copy holds the same characters.
    #[verifier::external_body]
    fn clone(&self) -> (copy: Self)
        ensures
            shared_text(copy) == shared_text(*self),
    {
        SharedString { inner: self.inner.clone() }
    }
}

impl SharedString {
    /// `Tendril::try_from_byte_slice`: succeeds exactly on valid UTF-8, and
    /// the text then encodes to the bytes given. Longer input than a
    /// tendril can hold makes tendril panic, so it is not admitted.
    #[verifier::external_body]
    fn from_utf8(bytes: &[u8]) -> (made: Result<SharedString, ()>)
        requires
            bytes@.len() <= MAX_LEN,
        ensures
            match made {
                Ok(text) => valid_utf8(bytes@) && encode_utf8(shared_text(text)) == bytes@,
                Err(_) => !valid_utf8(bytes@),
            },
    {
        match tendril::StrTendril::try_from_byte_slice(bytes) {
            Ok(inner) => Ok(SharedString { inner }),
            Err(()) => Err(()),
        }
    }

    /// `Tendril::from_slice`: a text with the characters of `slice`. Longer
    /// input than a tendril can hold makes tendril panic, so it is not
    /// admitted.
    #[verifier::external_body]
    fn from_slice(slice: &str) -> (text: SharedString)
        requires
            byte_len(slice@) <= MAX_LEN,
        ensures
            shared_text(text) == slice@,
    {
        SharedString { inner: tendril::StrTendril::from_slice(slice) }
    }

    /// `Tendril::len32`: the length in bytes.
    #[verifier::external_body]
    fn byte_count(&self) -> (length: u32)
        ensures
            length == byte_len(shared_text(*self)),
    {
        self.inner.len32()
    }

    /// `Tendril::try_subtendril`: the slice of `length` bytes from byte
    /// `offset` on. It is refused as out of bounds exactly when it does not
    /// lie in the text, and as invalid exactly when it lies in the text, is
    /// not empty and begins or ends inside a character.
    #[verifier::external_body]
    pub(crate) fn try_subtendril(&self, offset: u32, length: u32) -> (cut: Result<
        SharedString,
        tendril::SubtendrilError,
    >)
        ensures
            match cut {
                Ok(slice) => {
                    &&& offset + length <= byte_len(shared_text(*self))
                    &&& length > 0 ==> is_char_boundary(
                        encode_utf8(shared_text(*self)),
                        offset as int,
                    ) && is_char_boundary(encode_utf8(shared_text(*self)), offset + length)
                    &&& encode_utf8(shared_text(slice)) == encode_utf8(
                        shared_text(*self),
                    ).subrange(offset as int, offset + length)
                },
                Err(tendril::SubtendrilError::OutOfBounds) => offset + length > byte_len(
                    shared_text(*self),
                ),
                Err(tendril::SubtendrilError::ValidationFailed) => {
                    &&& offset + length <= byte_len(shared_text(*self))
                    &&& length > 0
                    &&& !(is_char_boundary(encode_utf8(shared_text(*self)), offset as int)
                        && is_char_boundary(encode_utf8(shared_text(*self)), offset + length))
                },
            },
    {
        match self.inner.try_subtendril(offset, length) {
            Ok(inner) => Ok(SharedString { inner }),
            Err(error) => Err(error),
        }
    }

    /// `Tendril::deref`: the text as a string slice.
    #[verifier::external_body]
    fn deref(&self) -> (slice: &str)
        ensures
            slice@ == shared_text(*self),
    {
        &self.inner
    }

    /// A text with the characters that `bytes` encode. Bytes that are no
    /// UTF-8 are refused as invalid, and more bytes than a shared text
    /// can hold as out of bounds.
    pub fn try_from_byte_slice(bytes: &[u8]) -> (made: Result<SharedString, ParseError>)
        ensures
            match made {
                Ok(text) => {
                    &&& bytes@.len() <= MAX_LEN
                    &&& valid_utf8(bytes@)
                    &&& text@ == decode_utf8(bytes@)
                    &&& encode_utf8(text@) == bytes@
                },
                Err(ParseError::SliceOutOfBounds) => bytes@.len() > MAX_LEN,
                Err(ParseError::InvalidEncoding) => bytes@.len() <= MAX_LEN && !valid_utf8(
                    bytes@,
                ),
                Err(_) => false,
            },
    {
        if bytes.len() > MAX_LEN {
            return Err(ParseError::SliceOutOfBounds);
        }
        match SharedString::from_utf8(bytes) {
            Ok(text) => {
                proof {
                    encode_utf8_decode_utf8(text@);
                }
                Ok(text)
            },
            Err(_) => Err(ParseError::InvalidEncoding),
        }
    }

    /// A text with the characters of `slice`, unless they are more than a
    /// shared text can hold.
    pub fn from_str(slice: &str) -> (made: Result<SharedString, ParseError>)
        ensures
            match made {
                Ok(text) => byte_len(slice@) <= MAX_LEN && text@ == slice@,
                Err(error) => error == ParseError::SliceOutOfBounds && byte_len(slice@)
                    > MAX_LEN,
            },
    {
        if slice.as_bytes().len() > MAX_LEN {
            return Err(ParseError::SliceOutOfBounds);
        }
        Ok(SharedString::from_slice(slice))
    }

    /// The length in bytes.
    pub fn len32(&self) -> (length: u32)
        ensures
            length == byte_len(self@),
    {
        self.byte_count()
    }

    /// The length in bytes.
    pub fn len(&self) -> (length: usize)
        ensures
            length == byte_len(self@),
            length <= MAX_LEN,
    {
        self.byte_count() as usize
    }

    /// The text as a string slice.
    pub fn as_str(&self) -> (slice: &str)
        ensures
            slice@ == self@,
    {
        self.deref()
    }

    /// The text as a `String` of its own.
    pub fn to_string(&self) -> (owned: String)
        ensures
            owned@ == self@,
    {
        self.deref().to_owned()
    }

    /// The bytes of the text.
    pub fn as_bytes(&self) -> (bytes: &[u8])
        ensures
            bytes@ == encode_utf8(self@),
    {
        self.deref().as_bytes()
    }
}

/// Remembers at which byte each character of a text begins, as far as
/// the text has been walked through, so that positions counted in
/// characters can be cut out of the buffer.
pub(crate) struct Reader {
    offsets: Vec<usize>,
    text: Ghost<Seq<char>>,
}

impl Reader {
    /// The text that is walked through.
    pub closed spec fn text(&self) -> Seq<char> {
        self.text@
    }

    /// The number of characters walked past.
    pub closed spec fn position(&self) -> nat {
        (self.offsets@.len() - 1) as nat
    }

    /// The reader knows the byte offset of every position up to its own.
    pub closed spec fn wf(&self) -> bool {
        &&& self.offsets@.len() >= 1
        &&& self.offsets@.len() - 1 <= self.text@.len()
        &&& byte_len(self.text@) <= MAX_LEN
        &&& forall|index: int|
            0 <= index < self.offsets@.len() ==> #[trigger] self.offsets@[index] == byte_offset(
                self.text@,
                index,
            )
    }

    /// A reader at the beginning of `text`, and the characters to walk
    /// through.
    pub(crate) fn new<'a>(text: &'a SharedString) -> (opened: (Self, Chars<'a>))
        ensures
            opened.0.wf(),
            opened.0.text() == text@,
            opened.0.position() == 0,
            opened.1.remaining() == text@,
    {
        let slice = text.as_str();
        let length = text.len();
        let mut offsets = Vec::new();
        offsets.push(0usize);
        proof {
            assert(text@.take(0) =~= Seq::<char>::empty());
        }
        (Reader { offsets, text: Ghost(text@) }, slice.chars())
    }

    /// Steps over the next character, if there is one.
    pub(crate) fn next(&mut self, rest: &mut Chars<'_>) -> (character: Option<char>)
        requires
            old(self).wf(),
            (*old(rest)).remaining() == old(self).text().skip(old(self).position() as int),
        ensures
            final(self).wf(),
            final(self).text() == old(self).text(),
            (*final(rest)).remaining() == final(self).text().skip(final(self).position() as int),
            old(self).position() <= old(self).text().len() <= MAX_LEN,
            match character {
                Some(found) => {
                    &&& old(self).position() < old(self).text().len()
                    &&& found == old(self).text()[old(self).position() as int]
                    &&& final(self).position() == old(self).position() + 1
                },
                None => {
                    &&& old(self).position() == old(self).text().len()
                    &&& final(self).position() == old(self).position()
                },
            },
    {
        let ghost text = self.text@;
        let ghost position = self.offsets@.len() - 1;
        proof {
            lemma_chars_within_bytes(text);
        }
        let character = rest.next();
        match character {
            Some(found) => {
                let last = self.offsets[self.offsets.len() - 1];
                let width = utf8_width(found);
                proof {
                    assert(text.skip(position)[0] == text[position]);
                    assert(text.take(position + 1) =~= text.take(position).push(found));
                    lemma_byte_len_push(text.take(position), found);
                    lemma_byte_offset_grows(text, position, position + 1);
                    assert(text.skip(position).drop_first() =~= text.skip(position + 1));
                }
                self.offsets.push(last + width);
            },
            None => {},
        }
        character
    }

    /// The number of characters walked past.
    pub(crate) fn index(&self) -> (position: usize)
        requires
            self.wf(),
        ensures
            position == self.position(),
            position <= self.text().len() <= MAX_LEN,
    {
        proof {
            lemma_chars_within_bytes(self.text@);
        }
        self.offsets.len() - 1
    }

    /// The byte at which the character at `index` begins.
    pub(crate) fn offset(&self, index: usize) -> (offset: usize)
        requires
            self.wf(),
            index <= self.position(),
        ensures
            offset == byte_offset(self.text(), index as int),
            offset <= byte_len(self.text()) <= MAX_LEN,
    {
        proof {
            lemma_byte_offset_grows(self.text@, index as int, index as int);
        }
        self.offsets[index]
    }

    /// The characters of `text` from position `from` on, sharing the buffer
    /// of `text`.
    pub(crate) fn rest(&self, text: &SharedString, from: usize) -> (slice: Result<SharedString, ParseError>)
        requires
            self.wf(),
            self.text() == text@,
            from <= self.position(),
        ensures
            slice is Ok,
            slice->Ok_0@ == text@.skip(from as int),
    {
        let start = self.offset(from);
        let end = text.len();
        proof {
            lemma_byte_offset_grows(text@, from as int, text@.len() as int);
            lemma_encoded_subrange(text@, from as int, text@.len() as int);
            assert(text@.subrange(from as int, text@.len() as int) =~= text@.skip(from as int));
        }
        match text.try_subtendril(start as u32, (end - start) as u32) {
            Ok(slice) => {
                proof {
                    encode_utf8_decode_utf8(slice@);
                    encode_utf8_decode_utf8(text@.skip(from as int));
                }
                Ok(slice)
            },
            Err(_) => Err(ParseError::SliceOutOfBounds),
        }
    }

    /// The characters of `text` from position `from` up to position `to`,
    /// sharing the buffer of `text`.
    pub(crate) fn cut(&self, text: &SharedString, from: usize, to: usize) -> (slice: Result<
        SharedString,
        ParseError,
    >)
        requires
            self.wf(),
            self.text() == text@,
            from <= to <= self.position(),
        ensures
            slice is Ok,
            slice->Ok_0@ == text@.subrange(from as int, to as int),
    {
        let start = self.offset(from);
        let end = self.offset(to);
        proof {
            lemma_byte_offset_grows(text@, from as int, to as int);
            lemma_encoded_subrange(text@, from as int, to as int);
        }
        match text.try_subtendril(start as u32, (end - start) as u32) {
            Ok(slice) => {
                proof {
                    encode_utf8_decode_utf8(slice@);
                    encode_utf8_decode_utf8(text@.subrange(from as int, to as int));
                }
                Ok(slice)
            },
            Err(_) => Err(ParseError::SliceOutOfBounds),
        }
    }
}

/// The characters of `text` as a vector.
pub(crate) fn chars_of(text: &str) -> (chars: Vec<char>)
    ensures
        chars@ == text@,
{
    let ghost all = text@;
    let mut chars: Vec<char> = Vec::new();
    let mut rest = text.chars();
    let ghost mut at: int = 0;
    proof {
        assert(all.skip(0) =~= all);
    }
    loop
        invariant
            0 <= at <= all.len(),
            rest.remaining() == all.skip(at),
            chars@ == all.take(at),
        ensures
            chars@ == all,
        decreases all.len() - at,
    {
        match rest.next() {
            Some(character) => {
                chars.push(character);
                proof {
                    assert(all.skip(at)[0] == all[at]);
                    assert(all.skip(at).drop_first() =~= all.skip(at + 1));
                    assert(all.take(at + 1) =~= all.take(at).push(character));
                    at = at + 1;
                }
            },
            None => {
                proof {
                    assert(all.take(at) =~= all);
                }
                break ;
            },
        }
    }
    chars
}

/// The number of bytes that `character` takes in UTF-8.
pub fn utf8_width(character: char) -> (width: usize)
    ensures
        width == encode_scalar(character as u32).len(),
        1 <= width <= 4,
{
    let scalar = character as u32;
    proof {
        char_is_scalar(character);
    }
    if scalar < 0x80 {
        1
    } else if scalar < 0x800 {
        2
    } else if scalar < 0x10000 {
        3
    } else {
        4
    }
}

/// The encoding of two texts in a row is the two encodings in a row.
pub proof fn lemma_encode_concat(front: Seq<char>, back: Seq<char>)
    ensures
        encode_utf8(front + back) == encode_utf8(front) + encode_utf8(back),
    decreases front.len(),
{
    if front.len() == 0 {
        assert(front + back =~= back);
        assert(encode_utf8(front) + encode_utf8(back) =~= encode_utf8(back));
    } else {
        lemma_encode_concat(front.drop_first(), back);
        assert((front + back).drop_first() =~= front.drop_first() + back);
        assert(encode_utf8(front + back) =~= encode_utf8(front) + encode_utf8(back));
    }
}

/// One more character adds its width to the length in bytes.
pub proof fn lemma_byte_len_push(text: Seq<char>, character: char)
    ensures
        byte_len(text.push(character)) == byte_len(text) + encode_scalar(character as u32).len(),
        1 <= encode_scalar(character as u32).len() <= 4,
{
    lemma_encode_concat(text, seq![character]);
    assert(text.push(character) =~= text + seq![character]);
    assert(seq![character].drop_first() =~= Seq::<char>::empty());
    assert(encode_utf8(seq![character]) =~= encode_scalar(character as u32)) by {
        reveal_with_fuel(encode_utf8, 2);
    }
    char_is_scalar(character);
}

/// A text has no more characters than bytes.
pub proof fn lemma_chars_within_bytes(text: Seq<char>)
    ensures
        text.len() <= byte_len(text),
    decreases text.len(),
{
    if text.len() > 0 {
        lemma_chars_within_bytes(text.drop_last());
        lemma_byte_len_push(text.drop_last(), text.last());
        assert(text.drop_last().push(text.last()) =~= text);
    }
}

/// The byte offsets of the characters grow with their positions, and the
/// last of them is the length in bytes.
pub proof fn lemma_byte_offset_grows(text: Seq<char>, from: int, to: int)
    requires
        0 <= from <= to <= text.len(),
    ensures
        byte_offset(text, from) + (to - from) <= byte_offset(text, to),
        byte_offset(text, to) <= byte_len(text),
        byte_offset(text, to) - byte_offset(text, from) == byte_len(text.subrange(from, to)),
        byte_offset(text, text.len() as int) == byte_len(text),
        byte_offset(text, 0) == 0,
{
    assert(text.take(to) =~= text.take(from) + text.subrange(from, to));
    lemma_encode_concat(text.take(from), text.subrange(from, to));
    lemma_chars_within_bytes(text.subrange(from, to));
    assert(text =~= text.take(to) + text.skip(to));
    lemma_encode_concat(text.take(to), text.skip(to));
    assert(text.take(text.len() as int) =~= text);
    assert(text.take(0) =~= Seq::<char>::empty());
}

/// The bytes between the offsets of two characters are the encoding of the
/// characters between them, and both offsets are character boundaries.
pub proof fn lemma_encoded_subrange(text: Seq<char>, from: int, to: int)
    requires
        0 <= from <= to <= text.len(),
    ensures
        encode_utf8(text).subrange(byte_offset(text, from) as int, byte_offset(text, to) as int)
            == encode_utf8(text.subrange(from, to)),
        is_char_boundary(encode_utf8(text), byte_offset(text, from) as int),
        is_char_boundary(encode_utf8(text), byte_offset(text, to) as int),
{
    lemma_byte_offset_grows(text, from, to);
    assert(text =~= text.take(from) + text.subrange(from, to) + text.skip(to));
    lemma_encode_concat(text.take(from) + text.subrange(from, to), text.skip(to));
    lemma_encode_concat(text.take(from), text.subrange(from, to));
    assert(encode_utf8(text).subrange(
        byte_offset(text, from) as int,
        byte_offset(text, to) as int,
    ) =~= encode_utf8(text.subrange(from, to)));
    lemma_offset_is_boundary(text, from);
    lemma_offset_is_boundary(text, to);
}

/// The byte offset of a position behind `from` is the offset of `from` and
/// the offset of that position in the text from `from` on.
pub proof fn lemma_byte_offset_skip(text: Seq<char>, from: int, more: int)
    requires
        0 <= from,
        0 <= more,
        from + more <= text.len(),
    ensures
        byte_offset(text, from + more) == byte_offset(text, from) + byte_offset(
            text.skip(from),
            more,
        ),
{
    lemma_byte_offset_grows(text, from, from + more);
    assert(text.skip(from).take(more) =~= text.subrange(from, from + more));
}

/// Two positions with the same byte offset are the same position.
pub proof fn lemma_byte_offset_one_to_one(text: Seq<char>, one: int, other: int)
    requires
        0 <= one <= text.len(),
        0 <= other <= text.len(),
        byte_offset(text, one) == byte_offset(text, other),
    ensures
        one == other,
{
    if one < other {
        lemma_byte_offset_grows(text, one, other);
    } else {
        lemma_byte_offset_grows(text, other, one);
    }
}

/// The byte at which a character begins is a character boundary.
pub proof fn lemma_offset_is_boundary(text: Seq<char>, index: int)
    requires
        0 <= index <= text.len(),
    ensures
        is_char_boundary(encode_utf8(text), byte_offset(text, index) as int),
    decreases index,
{
    encode_utf8_valid_utf8(text);
    if index == 0 {
        assert(text.take(0) =~= Seq::<char>::empty());
    } else {
        let bytes = encode_utf8(text);
        encode_utf8_first_scalar(text);
        assert(pop_first_scalar(bytes) =~= encode_utf8(text.drop_first()));
        lemma_offset_is_boundary(text.drop_first(), index - 1);
        assert(text.take(index) =~= seq![text[0]] + text.drop_first().take(index - 1));
        lemma_encode_concat(seq![text[0]], text.drop_first().take(index - 1));
        assert(encode_utf8(seq![text[0]]) =~= encode_scalar(text[0] as u32)) by {
            reveal_with_fuel(encode_utf8, 2);
            assert(seq![text[0]].drop_first() =~= Seq::<char>::empty());
        }
        lemma_byte_offset_grows(text, 0, index);
    }
}

} // verus!
