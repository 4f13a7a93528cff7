//! The blocks that a document of subtext is made of, and the parser that
//! reads one block from the beginning of a text.

use crate::error::ParseError;
use crate::primitive::{
    flatten, is_blank, lemma_flatten_concat, lemma_flatten_one, lemma_scan_end,
    lemma_scan_text_round_trip, parse_text, primitives_of, scan_text, Entity, Kind, Primitive,
    Scan,
};
use crate::text::{
    byte_len, byte_offset, lemma_byte_len_push, lemma_byte_offset_grows, lemma_byte_offset_skip,
    lemma_encode_concat, Reader, SharedString,
};
use vstd::prelude::*;
use vstd::std_specs::iter::IteratorSpec;
use vstd::string::StringExecFns;
use vstd::utf8::encode_utf8;

verus! {

/// The kinds of block.
#[derive(Debug, Clone, Copy, PartialEq, Eq, Structural)]
pub enum BlockKind {
    Header,
    Paragraph,
    Quote,
    List,
    Link,
    Blank,
}

/// What a `Block` is, as plain values: its kind and its spans in order.
pub struct BlockView {
    pub kind: BlockKind,
    pub primitives: Seq<Primitive>,
}

/// One line of a document.
#[derive(Debug, Clone, PartialEq)]
pub enum Block {
    /// A line that begins with `#`.
    Header(Vec<Entity>),
    /// A line of prose.
    Paragraph(Vec<Entity>),
    /// A line that begins with `>`.
    Quote(Vec<Entity>),
    /// A line that begins with `-`: one item of a list.
    List(Vec<Entity>),
    /// A line that is nothing but a slash link or a hyper link.
    Link(Entity),
    /// A line of nothing but white space.
    Blank(Entity),
}

impl View for Block {
    type V = BlockView;

    open spec fn view(&self) -> BlockView {
        match self {
            Block::Header(entities) => BlockView {
                kind: BlockKind::Header,
                primitives: primitives_of(entities@),
            },
            Block::Paragraph(entities) => BlockView {
                kind: BlockKind::Paragraph,
                primitives: primitives_of(entities@),
            },
            Block::Quote(entities) => BlockView {
                kind: BlockKind::Quote,
                primitives: primitives_of(entities@),
            },
            Block::List(entities) => BlockView {
                kind: BlockKind::List,
                primitives: primitives_of(entities@),
            },
            Block::Link(entity) => BlockView { kind: BlockKind::Link, primitives: seq![entity@] },
            Block::Blank(entity) => BlockView { kind: BlockKind::Blank, primitives: seq![entity@] },
        }
    }
}

impl BlockView {
    /// Whether a span of kind `kind` at the beginning of the block is no
    /// content: white space, and the sigil where the block has one.
    pub open spec fn skips(self, kind: Kind) -> bool {
        match self.kind {
            BlockKind::Header | BlockKind::List | BlockKind::Quote => kind == Kind::Sigil || kind
                == Kind::EmptySpace,
            BlockKind::Paragraph => kind == Kind::EmptySpace,
            BlockKind::Link => false,
            BlockKind::Blank => true,
        }
    }

    /// The number of spans at the beginning of the block, counted from
    /// `from`, that are no content.
    pub open spec fn content_start(self, from: int) -> int
        decreases self.primitives.len() - from,
    {
        if 0 <= from < self.primitives.len() && self.skips(self.primitives[from].kind) {
            self.content_start(from + 1)
        } else {
            from
        }
    }

    /// The content of the block: its spans without the sigil and the white
    /// space in front. A blank has none.
    pub open spec fn content(self) -> Seq<Primitive> {
        if self.kind == BlockKind::Blank {
            seq![]
        } else {
            self.primitives.skip(self.content_start(0))
        }
    }

    /// The characters of the content.
    pub open spec fn text_content(self) -> Seq<char> {
        flatten(self.content())
    }

    /// The characters of the block.
    pub open spec fn text(self) -> Seq<char> {
        flatten(self.primitives)
    }
}

/// The content starts among the spans.
pub proof fn lemma_content_start(block: BlockView, from: int)
    requires
        0 <= from <= block.primitives.len(),
    ensures
        from <= block.content_start(from) <= block.primitives.len(),
    decreases block.primitives.len() - from,
{
    if from < block.primitives.len() && block.skips(block.primitives[from].kind) {
        lemma_content_start(block, from + 1);
    }
}

/// Adds `bytes` at the end of `out`.
fn append_bytes(out: &mut Vec<u8>, bytes: &[u8])
    ensures
        final(out)@ == old(out)@ + bytes@,
{
    let mut index: usize = 0;
    while index < bytes.len()
        invariant
            index <= bytes@.len(),
            out@ == old(out)@ + bytes@.take(index as int),
        decreases bytes@.len() - index,
    {
        out.push(bytes[index]);
        index = index + 1;
        proof {
            assert(bytes@.take(index as int) =~= bytes@.take(index - 1).push(bytes@[index - 1]));
            assert(out@ =~= old(out)@ + bytes@.take(index as int));
        }
    }
    proof {
        assert(bytes@.take(index as int) =~= bytes@);
    }
}

/// The content among `entities`, the spans of a block like `view`: what
/// is left behind the spans at the beginning that are no content.
fn content_of<'a>(entities: &'a Vec<Entity>, Ghost(view): Ghost<BlockView>, header: bool) -> (content:
    Vec<&'a Entity>)
    requires
        primitives_of(entities@) == view.primitives,
        view.kind != BlockKind::Blank,
        view.kind != BlockKind::Link,
        header == (view.kind != BlockKind::Paragraph),
    ensures
        content@.len() == view.content().len(),
        forall|index: int|
            0 <= index < content@.len() ==> (#[trigger] content@[index])@ == view.content()[index],
{
    let mut content: Vec<&Entity> = Vec::new();
    let mut index: usize = 0;
    proof {
        lemma_content_start(view, 0);
    }
    loop
        invariant_except_break
            view.content_start(0) == view.content_start(index as int),
        invariant
            primitives_of(entities@) == view.primitives,
            view.kind != BlockKind::Blank,
            view.kind != BlockKind::Link,
            header == (view.kind != BlockKind::Paragraph),
            index <= entities@.len(),
        ensures
            index == view.content_start(0),
        decreases entities@.len() - index,
    {
        if index >= entities.len() {
            break ;
        }
        proof {
            assert(view.primitives[index as int] == entities@[index as int]@);
        }
        let skipped = match entities[index].kind() {
            Kind::EmptySpace => true,
            Kind::Sigil => header,
            _ => false,
        };
        if !skipped {
            break ;
        }
        index = index + 1;
    }
    let first = index;
    while index < entities.len()
        invariant
            primitives_of(entities@) == view.primitives,
            first <= index <= entities@.len(),
            content@.len() == index - first,
            forall|at: int|
                0 <= at < content@.len() ==> (#[trigger] content@[at])@ == view.primitives[first
                    + at],
        decreases entities@.len() - index,
    {
        proof {
            assert(view.primitives[index as int] == entities@[index as int]@);
        }
        content.push(&entities[index]);
        index = index + 1;
    }
    content
}

/// The characters of `entities`, one span after the other.
fn text_of(entities: &Vec<Entity>) -> (text: String)
    ensures
        text@ == flatten(primitives_of(entities@)),
{
    let ghost primitives = primitives_of(entities@);
    let mut text = String::new();
    let mut index: usize = 0;
    proof {
        assert(primitives.take(0) =~= Seq::<Primitive>::empty());
    }
    while index < entities.len()
        invariant
            index <= entities@.len(),
            primitives == primitives_of(entities@),
            text@ == flatten(primitives.take(index as int)),
        decreases entities@.len() - index,
    {
        text.append(entities[index].text().as_str());
        index = index + 1;
        proof {
            let taken = primitives.take(index as int);
            assert(taken.drop_last() =~= primitives.take(index - 1));
            assert(taken.last() == entities@[index - 1]@);
        }
    }
    proof {
        assert(primitives.take(index as int) =~= primitives);
    }
    text
}

/// The bytes of `entities`, one span after the other.
fn bytes_of(entities: &Vec<Entity>) -> (bytes: Vec<u8>)
    ensures
        bytes@ == encode_utf8(flatten(primitives_of(entities@))),
{
    let ghost primitives = primitives_of(entities@);
    let mut bytes: Vec<u8> = Vec::new();
    let mut index: usize = 0;
    proof {
        assert(primitives.take(0) =~= Seq::<Primitive>::empty());
    }
    while index < entities.len()
        invariant
            index <= entities@.len(),
            primitives == primitives_of(entities@),
            bytes@ == encode_utf8(flatten(primitives.take(index as int))),
        decreases entities@.len() - index,
    {
        append_bytes(&mut bytes, entities[index].as_bytes());
        index = index + 1;
        proof {
            let taken = primitives.take(index as int);
            assert(taken.drop_last() =~= primitives.take(index - 1));
            assert(taken.last() == entities@[index - 1]@);
            lemma_encode_concat(flatten(taken.drop_last()), taken.last().text);
        }
    }
    proof {
        assert(primitives.take(index as int) =~= primitives);
    }
    bytes
}

impl Block {
    /// The kind of the block.
    pub fn kind(&self) -> (kind: BlockKind)
        ensures
            kind == self@.kind,
    {
        match self {
            Block::Header(_) => BlockKind::Header,
            Block::Paragraph(_) => BlockKind::Paragraph,
            Block::Quote(_) => BlockKind::Quote,
            Block::List(_) => BlockKind::List,
            Block::Link(_) => BlockKind::Link,
            Block::Blank(_) => BlockKind::Blank,
        }
    }

    /// The content entities of the block. For paragraphs, this is what
    /// comes after leading white space; for headings, lists and quotes,
    /// what comes after the sigil and the white space around it; for
    /// links, the link; for blanks, nothing.
    pub fn to_content_entities(&self) -> (content: Vec<&Entity>)
        ensures
            content@.len() == self@.content().len(),
            forall|index: int|
                0 <= index < content@.len() ==> (#[trigger] content@[index])@
                    == self@.content()[index],
    {
        match self {
            Block::Header(entities) | Block::List(entities) | Block::Quote(entities) => content_of(
                entities,
                Ghost(self@),
                true,
            ),
            Block::Paragraph(entities) => content_of(entities, Ghost(self@), false),
            Block::Link(entity) => {
                let mut content: Vec<&Entity> = Vec::new();
                content.push(entity);
                proof {
                    assert(self@.content_start(0) == 0);
                    assert(self@.content() =~= seq![entity@]);
                }
                content
            },
            Block::Blank(_) => Vec::new(),
        }
    }

    /// The text content of the block: the characters of its content
    /// entities, one after the other.
    pub fn to_text_content(&self) -> (text: String)
        ensures
            text@ == self@.text_content(),
    {
        let content = self.to_content_entities();
        let mut text = String::new();
        let mut index: usize = 0;
        proof {
            assert(self@.content().take(0) =~= Seq::<Primitive>::empty());
        }
        while index < content.len()
            invariant
                index <= content@.len() == self@.content().len(),
                forall|at: int|
                    0 <= at < content@.len() ==> (#[trigger] content@[at])@ == self@.content()[at],
                text@ == flatten(self@.content().take(index as int)),
            decreases content@.len() - index,
        {
            text.append(content[index].text().as_str());
            index = index + 1;
            proof {
                let taken = self@.content().take(index as int);
                assert(taken.drop_last() =~= self@.content().take(index - 1));
                assert(taken.last() == self@.content()[index - 1]);
            }
        }
        proof {
            assert(self@.content().take(index as int) =~= self@.content());
        }
        text
    }

    /// The bytes of the block: those of its spans, one after the other.
    pub fn to_bytes(&self) -> (bytes: Vec<u8>)
        ensures
            bytes@ == encode_utf8(self@.text()),
    {
        match self {
            Block::Header(entities)
            | Block::Paragraph(entities)
            | Block::Quote(entities)
            | Block::List(entities) => bytes_of(entities),
            Block::Link(entity) | Block::Blank(entity) => {
                let mut bytes: Vec<u8> = Vec::new();
                append_bytes(&mut bytes, entity.as_bytes());
                proof {
                    lemma_flatten_one(entity@);
                    assert(bytes@ =~= encode_utf8(entity@.text));
                }
                bytes
            },
        }
    }

    /// The characters of the block: those of its spans, one after the
    /// other.
    pub fn to_string(&self) -> (text: String)
        ensures
            text@ == self@.text(),
    {
        match self {
            Block::Header(entities)
            | Block::Paragraph(entities)
            | Block::Quote(entities)
            | Block::List(entities) => text_of(entities),
            Block::Link(entity) | Block::Blank(entity) => {
                proof {
                    lemma_flatten_one(entity@);
                }
                entity.to_string()
            },
        }
    }
}

/// Where the white space ends with which `text` begins, counted from
/// `from`.
pub open spec fn leading_space_end(text: Seq<char>, from: int) -> int
    decreases text.len() - from,
{
    if 0 <= from < text.len() && is_blank(text[from]) {
        leading_space_end(text, from + 1)
    } else {
        from
    }
}

/// The leading white space ends in the text.
pub proof fn lemma_leading_space_end(text: Seq<char>, from: int)
    requires
        0 <= from <= text.len(),
    ensures
        from <= leading_space_end(text, from) <= text.len(),
    decreases text.len() - from,
{
    if from < text.len() && is_blank(text[from]) {
        lemma_leading_space_end(text, from + 1);
    }
}

/// The kind of block that the sigil `token` marks.
pub open spec fn sigil_kind(token: char) -> Option<BlockKind> {
    if token == '#' {
        Some(BlockKind::Header)
    } else if token == '>' {
        Some(BlockKind::Quote)
    } else if token == '-' {
        Some(BlockKind::List)
    } else {
        None
    }
}

/// The number of characters that a block takes whose spans end at `end`:
/// the line feed behind them belongs to the block.
pub open spec fn with_line_feed(text: Seq<char>, end: int) -> int {
    if end < text.len() {
        end + 1
    } else {
        end
    }
}

/// A paragraph that is nothing but one slash link or hyper link is a link.
pub open spec fn collapse(block: BlockView) -> BlockView {
    if block.kind == BlockKind::Paragraph && block.primitives.len() == 1 && (
    block.primitives[0].kind == Kind::SlashLink || block.primitives[0].kind == Kind::HyperLink) {
        BlockView { kind: BlockKind::Link, primitives: block.primitives }
    } else {
        block
    }
}

/// The block with which `text` begins, and the number of characters that
/// it takes.
///
/// A block is one line. Its spans are the characters of the line, and the
/// line feed that ends the line is taken with it. A line of nothing but
/// white space is a blank. A line whose first character is a sigil is a
/// header, a quote or a list item: the sigil and the spans of the rest.
/// Any other line is a paragraph: the white space in front, if there is
/// any, and the spans of the rest.
pub open spec fn parse_block(text: Seq<char>) -> (BlockView, int) {
    let lead = leading_space_end(text, 0);
    if lead >= text.len() || text[lead] == '\n' {
        (
            BlockView {
                kind: BlockKind::Blank,
                primitives: seq![Primitive { kind: Kind::EmptySpace, text: text.take(lead) }],
            },
            with_line_feed(text, lead),
        )
    } else if lead == 0 && sigil_kind(text[0]) is Some {
        let (found, size) = scan_text(text.skip(1));
        (
            BlockView {
                kind: sigil_kind(text[0])->Some_0,
                primitives: seq![Primitive { kind: Kind::Sigil, text: text.take(1) }] + found,
            },
            with_line_feed(text, size + 1),
        )
    } else {
        let (found, size) = scan_text(text.skip(lead));
        let space = if lead > 0 {
            seq![Primitive { kind: Kind::EmptySpace, text: text.take(lead) }]
        } else {
            seq![]
        };
        (
            collapse(BlockView { kind: BlockKind::Paragraph, primitives: space + found }),
            with_line_feed(text, size + lead),
        )
    }
}

/// The line feed behind the spans of a block takes one byte.
proof fn lemma_with_line_feed(text: Seq<char>, end: int)
    requires
        0 <= end <= text.len(),
        end < text.len() ==> text[end] == '\n',
    ensures
        byte_offset(text, with_line_feed(text, end)) == if byte_offset(text, end) < byte_len(text) {
            byte_offset(text, end) + 1
        } else {
            byte_offset(text, end)
        },
        end <= with_line_feed(text, end) <= text.len(),
{
    lemma_byte_offset_grows(text, end, text.len() as int);
    if end < text.len() {
        lemma_byte_offset_grows(text, end, end + 1);
        assert(text.take(end + 1) =~= text.take(end).push('\n'));
        lemma_byte_len_push(text.take(end), '\n');
        assert(vstd::utf8::encode_scalar('\n' as u32).len() == 1);
    }
}

/// The block with which `input` begins, and the number of bytes that it
/// takes.
pub fn parse(input: SharedString) -> (parsed: Result<(Block, usize), ParseError>)
    ensures
        parsed is Ok,
        parsed->Ok_0.0@ == parse_block(input@).0,
        parsed->Ok_0.1 == byte_offset(input@, parse_block(input@).1),
{
    let (mut reader, mut rest) = Reader::new(&input);
    let mut token: Option<char> = None;
    let mut lead: usize = 0;

    loop
        invariant_except_break
            lead == reader.position(),
            leading_space_end(input@, 0) == leading_space_end(input@, lead as int),
        invariant
            reader.wf(),
            reader.text() == input@,
            rest.remaining() == input@.skip(reader.position() as int),
        ensures
            lead == leading_space_end(input@, 0),
            match token {
                Some(found) => lead < input@.len() && found == input@[lead as int]
                    && reader.position() == lead + 1,
                None => lead == input@.len() && reader.position() == lead,
            },
        decreases input@.len() - reader.position(),
    {
        token = reader.next(&mut rest);
        match token {
            Some(' ') | Some('\t') | Some('\r') => {
                lead = lead + 1;
            },
            _ => {
                break ;
            },
        }
    }

    let any_other = match token {
        None | Some('\n') => {
            let space = reader.cut(&input, 0, lead)?;
            proof {
                assert(input@.subrange(0, lead as int) =~= input@.take(lead as int));
            }
            let length = reader.offset(reader.index());
            return Ok((Block::Blank(Entity::EmptySpace(space)), length));
        },
        Some(any_other) => any_other,
    };

    let header = lead == 0 && (any_other == '#' || any_other == '>' || any_other == '-');
    let from = if header {
        1
    } else {
        lead
    };
    let mut entities: Vec<Entity> = Vec::new();
    if from > 0 {
        let front = reader.cut(&input, 0, from)?;
        entities.push(
            if header {
                Entity::Sigil(front)
            } else {
                Entity::EmptySpace(front)
            },
        );
    }
    let ghost front = primitives_of(entities@);
    let (mut content_entities, size) = parse_text(reader.rest(&input, from)?)?;
    let ghost found = primitives_of(content_entities@);
    entities.append(&mut content_entities);
    let ghost end = scan_text(input@.skip(from as int)).1 + from;
    proof {
        assert(input@.subrange(0, from as int) =~= input@.take(from as int));
        assert(primitives_of(entities@) =~= front + found);
        lemma_scan_end(input@.skip(from as int), Scan::initial());
        lemma_byte_offset_skip(input@, from as int, end - from);
        lemma_byte_offset_grows(input@, end, end);
        lemma_with_line_feed(input@, end);
        if header {
            assert(front =~= seq![Primitive { kind: Kind::Sigil, text: input@.take(1) }]);
        } else if lead > 0 {
            assert(front =~= seq![
                Primitive { kind: Kind::EmptySpace, text: input@.take(lead as int) },
            ]);
        } else {
            assert(front =~= Seq::<Primitive>::empty());
        }
    }
    let ghost whole = front + found;
    let end = reader.offset(from) + size;
    let length = if end < input.len() {
        end + 1
    } else {
        end
    };

    let block = if header {
        if any_other == '#' {
            Block::Header(entities)
        } else if any_other == '>' {
            Block::Quote(entities)
        } else {
            Block::List(entities)
        }
    } else if entities.len() == 1 && (match entities[0].kind() {
        Kind::SlashLink | Kind::HyperLink => true,
        _ => false,
    }) {
        let ghost only = entities@[0]@;
        match entities.pop() {
            Some(link) => {
                proof {
                    assert(whole =~= seq![only]);
                    assert(link@ == only);
                }
                Block::Link(link)
            },
            None => Block::Paragraph(entities),
        }
    } else {
        proof {
            if whole.len() == 1 {
                assert(whole[0] == entities@[0]@);
            }
        }
        Block::Paragraph(entities)
    };
    Ok((block, length))
}

/// The characters of the spans of a block are the characters that the
/// block takes, but for the line feed that ends its line. A block that
/// takes no line feed takes the text to its end.
pub proof fn lemma_block_round_trip(text: Seq<char>)
    ensures
        ({
            let (block, size) = parse_block(text);
            let line = block.text();
            &&& line.len() <= size <= text.len()
            &&& text.take(line.len() as int) == line
            &&& size == with_line_feed(text, line.len() as int)
            &&& line.len() < text.len() ==> text[line.len() as int] == '\n'
        }),
{
    let (block, size) = parse_block(text);
    let lead = leading_space_end(text, 0);
    lemma_leading_space_end(text, 0);
    if lead >= text.len() || text[lead] == '\n' {
        lemma_flatten_one(block.primitives[0]);
    } else if lead == 0 && sigil_kind(text[0]) is Some {
        let rest = text.skip(1);
        let (found, end) = scan_text(rest);
        lemma_scan_text_round_trip(rest);
        let sigil = Primitive { kind: Kind::Sigil, text: text.take(1) };
        lemma_flatten_concat(seq![sigil], found);
        lemma_flatten_one(sigil);
        assert(text.take(1) + rest.take(end) =~= text.take(end + 1));
    } else {
        let rest = text.skip(lead);
        let (found, end) = scan_text(rest);
        lemma_scan_text_round_trip(rest);
        let space = Primitive { kind: Kind::EmptySpace, text: text.take(lead) };
        if lead > 0 {
            lemma_flatten_concat(seq![space], found);
            lemma_flatten_one(space);
        } else {
            assert(Seq::<Primitive>::empty() + found =~= found);
        }
        assert(text.take(lead) + rest.take(end) =~= text.take(end + lead));
    }
}

} // verus!
