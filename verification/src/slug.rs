//! Slugs: the names under which content is kept, as they stand in
//! slashlinks.

use crate::error::ParseError;
use crate::slashlink::{join, lemma_join_front};
use crate::text::chars_of;
use vstd::prelude::*;
use vstd::std_specs::iter::IteratorSpec;

verus! {

/// What `str::trim` makes of a text: the text without the white space, in
/// the sense of Unicode, in front of it and behind it.
pub uninterp spec fn trimmed(text: Seq<char>) -> Seq<char>;

/// What `str::to_lowercase` makes of a text: its lowercase equivalent, in
/// the sense of Unicode.
pub uninterp spec fn lowercased(text: Seq<char>) -> Seq<char>;

/// `str::trim`: the slice without the white space around it.
pub assume_specification[ str::trim ](text: &str) -> (slice: &str)
    ensures
        slice@ == trimmed(text@),
;

/// `str::to_lowercase`: the lowercase equivalent of the slice.
pub assume_specification[ str::to_lowercase ](text: &str) -> (lower: String)
    ensures
        lower@ == lowercased(text@),
;

/// The longest slug, in characters.
pub const SLUG_LEN: usize = 200;

/// Whether `token` parts the words of a slug: a space, a line feed or a
/// tab.
pub open spec fn is_gap(token: char) -> bool {
    token == ' ' || token == '\n' || token == '\t'
}

/// Whether `token` may stand in a slug: a letter or a digit of ASCII, an
/// underscore, a hyphen or a slash.
pub open spec fn is_slug_char(token: char) -> bool {
    ('a' <= token <= 'z') || ('A' <= token <= 'Z') || ('0' <= token <= '9') || token == '_'
        || token == '-' || token == '/'
}

/// Where the slashes end with which `text` begins, counted from `from`.
pub open spec fn slashes_end(text: Seq<char>, from: int) -> int
    decreases text.len() - from,
{
    if 0 <= from < text.len() && text[from] == '/' {
        slashes_end(text, from + 1)
    } else {
        from
    }
}

/// The slashes in front end at or behind where they were looked for, and
/// in the text.
proof fn lemma_slashes_end(text: Seq<char>, from: int)
    requires
        0 <= from <= text.len(),
    ensures
        from <= slashes_end(text, from) <= text.len(),
    decreases text.len() - from,
{
    if from < text.len() && text[from] == '/' {
        lemma_slashes_end(text, from + 1);
    }
}

/// `text` without the slashes in front.
pub open spec fn without_slashes(text: Seq<char>) -> Seq<char> {
    text.skip(slashes_end(text, 0))
}

/// Where the characters end that stand in `text` from `from` on and are
/// no slash, if `slash` holds, and no gap, if it does not.
pub open spec fn part_end(text: Seq<char>, slash: bool, from: int) -> int
    decreases text.len() - from,
{
    if 0 <= from < text.len() && !parts(text[from], slash) {
        part_end(text, slash, from + 1)
    } else {
        from
    }
}

/// Whether `token` stands between two parts: a slash, if `slash` holds,
/// and a gap, if it does not.
pub open spec fn parts(token: char, slash: bool) -> bool {
    if slash {
        token == '/'
    } else {
        is_gap(token)
    }
}

/// The parts of `text` from `from` on: the runs of characters between
/// what parts them. No part is empty.
pub open spec fn parts_of(text: Seq<char>, slash: bool, from: int) -> Seq<Seq<char>>
    decreases text.len() - from,
{
    if from < 0 || from >= text.len() {
        seq![]
    } else if parts(text[from], slash) {
        parts_of(text, slash, from + 1)
    } else {
        let end = part_end(text, slash, from);
        if end <= from || end > text.len() {
            seq![]
        } else {
            seq![text.subrange(from, end)] + parts_of(text, slash, end)
        }
    }
}

/// The characters of `word` that may stand in a slug.
pub open spec fn keep(word: Seq<char>) -> Seq<char>
    decreases word.len(),
{
    if word.len() == 0 {
        seq![]
    } else if is_slug_char(word.last()) {
        keep(word.drop_last()).push(word.last())
    } else {
        keep(word.drop_last())
    }
}

/// `keep` of each of `words`.
pub open spec fn keep_each(words: Seq<Seq<char>>) -> Seq<Seq<char>> {
    Seq::new(words.len(), |index: int| keep(words[index]))
}

/// The slug that `text` makes, where `text` is trimmed and in lowercase:
/// its words, each without the characters that may not stand in a slug,
/// with a hyphen between one and the next; of that, the parts between
/// slashes, with a slash between one and the next; and of that, no more
/// than two hundred characters.
pub open spec fn slug_of(text: Seq<char>) -> Seq<char> {
    let dashed = join(keep_each(parts_of(text, false, 0)), '-');
    let slug = join(parts_of(dashed, true, 0), '/');
    if slug.len() > SLUG_LEN {
        slug.take(SLUG_LEN as int)
    } else {
        slug
    }
}

/// A part ends at or behind where it begins, and in the text.
proof fn lemma_part_end(text: Seq<char>, slash: bool, from: int)
    requires
        0 <= from <= text.len(),
    ensures
        from <= part_end(text, slash, from) <= text.len(),
        from < text.len() && !parts(text[from], slash) ==> from < part_end(text, slash, from),
    decreases text.len() - from,
{
    if from < text.len() && !parts(text[from], slash) {
        lemma_part_end(text, slash, from + 1);
    }
}

/// Whether `text` is made of the characters that may stand in a slug.
pub open spec fn is_slug_text(text: Seq<char>) -> bool {
    forall|index: int| 0 <= index < text.len() ==> is_slug_char(text[index])
}

/// Whether no slash stands in front of `text`, at its end or beside
/// another.
pub open spec fn is_well_slashed(text: Seq<char>) -> bool {
    &&& text.len() > 0 ==> text[0] != '/' && text.last() != '/'
    &&& forall|index: int|
        0 <= index < text.len() - 1 ==> !(text[index] == '/' && #[trigger] text[index + 1] == '/')
}

/// Whether `text` is a slug in full: no longer than a slug may be, made
/// of the characters that may stand in one, with no slash in front, none
/// at the end, and no two slashes side by side.
pub open spec fn is_slug(text: Seq<char>) -> bool {
    &&& text.len() <= SLUG_LEN
    &&& is_slug_text(text)
    &&& is_well_slashed(text)
}

/// A part ends where the text ends or the next character parts.
proof fn lemma_part_end_parts(text: Seq<char>, slash: bool, from: int)
    requires
        0 <= from <= text.len(),
    ensures
        from <= part_end(text, slash, from) <= text.len(),
        part_end(text, slash, from) < text.len() ==> parts(
            text[part_end(text, slash, from)],
            slash,
        ),
        forall|index: int|
            from <= index < part_end(text, slash, from) ==> !parts(text[index], slash),
    decreases text.len() - from,
{
    if from < text.len() && !parts(text[from], slash) {
        lemma_part_end_parts(text, slash, from + 1);
    }
}

/// A part runs to the end of a text in which nothing parts.
proof fn lemma_part_end_whole(text: Seq<char>, slash: bool, from: int)
    requires
        0 <= from <= text.len(),
        forall|index: int| from <= index < text.len() ==> !parts(text[index], slash),
    ensures
        part_end(text, slash, from) == text.len(),
    decreases text.len() - from,
{
    if from < text.len() {
        lemma_part_end_whole(text, slash, from + 1);
    }
}

/// A word of nothing but characters that may stand in a slug is kept as
/// it is.
proof fn lemma_keep_all(word: Seq<char>)
    requires
        forall|index: int| 0 <= index < word.len() ==> is_slug_char(word[index]),
    ensures
        keep(word) == word,
    decreases word.len(),
{
    if word.len() > 0 {
        lemma_keep_all(word.drop_last());
        assert(word.drop_last().push(word.last()) =~= word);
    }
}

/// The parts between the slashes of a text, with a slash between one and
/// the next, are the text from a part's beginning on, where no slash
/// stands at the end or beside another.
proof fn lemma_join_parts(text: Seq<char>, from: int)
    requires
        0 <= from <= text.len(),
        from < text.len() ==> text[from] != '/',
        text.len() > 0 ==> text.last() != '/',
        forall|index: int|
            0 <= index < text.len() - 1 ==> !(text[index] == '/' && #[trigger] text[index + 1]
                == '/'),
    ensures
        join(parts_of(text, true, from), '/') == text.subrange(from, text.len() as int),
        from < text.len() ==> parts_of(text, true, from).len() >= 1,
    decreases text.len() - from,
{
    if from >= text.len() {
        assert(text.subrange(from, text.len() as int) =~= Seq::<char>::empty());
    } else {
        let end = part_end(text, true, from);
        lemma_part_end_parts(text, true, from);
        lemma_part_end(text, true, from);
        let first = text.subrange(from, end);
        if end == text.len() {
            assert(parts_of(text, true, end) =~= Seq::<Seq<char>>::empty());
            assert(parts_of(text, true, from) =~= seq![first]);
        } else {
            assert(text[end] == '/');
            assert(end < text.len() - 1);
            assert(text[end + 1] != '/');
            lemma_join_parts(text, end + 1);
            let others = parts_of(text, true, end + 1);
            assert(parts_of(text, true, end) == others);
            lemma_join_front(first, others, '/');
            assert(first + seq!['/'] + text.subrange(end + 1, text.len() as int)
                =~= text.subrange(from, text.len() as int));
        }
    }
}

/// A slug makes itself: the slug of a text that is a slug in full is
/// that text, and so is what `to_slug` gives for it, if trimming and
/// lowercase leave the text as it is.
pub proof fn lemma_slug_stays(text: Seq<char>)
    requires
        is_slug(text),
    ensures
        without_slashes(text) == text,
        slug_of(text) == text,
        trimmed(text) == text && lowercased(text) == text ==> slug_of(
            lowercased(without_slashes(trimmed(text))),
        ) == text,
{
    assert(slashes_end(text, 0) == 0);
    assert(text.skip(0) =~= text);
    if text.len() == 0 {
        assert(parts_of(text, false, 0) =~= Seq::<Seq<char>>::empty());
        assert(keep_each(parts_of(text, false, 0)) =~= Seq::<Seq<char>>::empty());
        let dashed = join(keep_each(parts_of(text, false, 0)), '-');
        assert(dashed =~= Seq::<char>::empty());
        assert(parts_of(dashed, true, 0) =~= Seq::<Seq<char>>::empty());
        assert(slug_of(text) =~= text);
    } else {
        lemma_part_end_whole(text, false, 0);
        assert(text.subrange(0, text.len() as int) =~= text);
        assert(parts_of(text, false, text.len() as int) =~= Seq::<Seq<char>>::empty());
        assert(parts_of(text, false, 0) =~= seq![text]);
        lemma_keep_all(text);
        assert(keep_each(seq![text]) =~= seq![text]);
        assert(join(seq![text], '-') == text);
        lemma_join_parts(text, 0);
    }
}

/// What is kept of a word may stand in a slug.
proof fn lemma_keep_chars(word: Seq<char>)
    ensures
        is_slug_text(keep(word)),
    decreases word.len(),
{
    if word.len() > 0 {
        lemma_keep_chars(word.drop_last());
    }
}

/// What is kept of words, with hyphens between, may stand in a slug.
proof fn lemma_dashed_chars(words: Seq<Seq<char>>)
    ensures
        is_slug_text(join(keep_each(words), '-')),
    decreases words.len(),
{
    let kept = keep_each(words);
    if words.len() == 1 {
        lemma_keep_chars(words[0]);
    } else if words.len() > 1 {
        lemma_dashed_chars(words.drop_last());
        lemma_keep_chars(words.last());
        assert(kept.drop_last() =~= keep_each(words.drop_last()));
        assert(kept.last() == keep(words.last()));
    }
}

/// The parts between the slashes of a text that may stand in a slug,
/// with a slash between one and the next, may stand in a slug, with no
/// slash in front, at the end or beside another.
proof fn lemma_parts_joined(text: Seq<char>, from: int)
    requires
        0 <= from <= text.len(),
        is_slug_text(text),
    ensures
        is_slug_text(join(parts_of(text, true, from), '/')),
        is_well_slashed(join(parts_of(text, true, from), '/')),
        parts_of(text, true, from).len() > 0 ==> join(parts_of(text, true, from), '/').len() > 0,
    decreases text.len() - from,
{
    if from >= text.len() {
    } else if text[from] == '/' {
        lemma_parts_joined(text, from + 1);
    } else {
        let end = part_end(text, true, from);
        lemma_part_end_parts(text, true, from);
        lemma_part_end(text, true, from);
        lemma_parts_joined(text, end);
        let first = text.subrange(from, end);
        let others = parts_of(text, true, end);
        let joined = join(parts_of(text, true, from), '/');
        assert(forall|index: int| 0 <= index < first.len() ==> first[index] != '/');
        if others.len() == 0 {
            assert(parts_of(text, true, from) =~= seq![first]);
        } else {
            let rest = join(others, '/');
            lemma_join_front(first, others, '/');
            assert(joined == first + seq!['/'] + rest);
            assert forall|index: int| 0 <= index < joined.len() - 1 implies !(joined[index] == '/'
                && #[trigger] joined[index + 1] == '/') by {
                if index > first.len() {
                    let place = index - first.len() - 1;
                    assert(joined[index] == rest[place]);
                    assert(joined[index + 1] == rest[place + 1]);
                } else if index == first.len() {
                    assert(joined[index + 1] == rest[0]);
                } else {
                    assert(joined[index] == first[index]);
                }
            }
            assert(joined.last() == rest.last());
        }
    }
}

/// What `slug_of` makes is no longer than a slug may be, and it is a slug
/// in full unless it was cut behind a slash: then the slash is its last
/// character. Where it is a slug in full, it makes itself.
pub proof fn lemma_slug_of_is_slug(text: Seq<char>)
    ensures
        slug_of(text).len() <= SLUG_LEN,
        is_slug(slug_of(text)) <==> slug_of(text).len() == 0 || slug_of(text).last() != '/',
        slug_of(text).len() < SLUG_LEN ==> is_slug(slug_of(text)),
        is_slug(slug_of(text)) ==> slug_of(slug_of(text)) == slug_of(text),
{
    let dashed = join(keep_each(parts_of(text, false, 0)), '-');
    lemma_dashed_chars(parts_of(text, false, 0));
    lemma_parts_joined(dashed, 0);
    let whole = join(parts_of(dashed, true, 0), '/');
    let slug = slug_of(text);
    if whole.len() > SLUG_LEN {
        assert(slug == whole.take(SLUG_LEN as int));
        assert forall|index: int| 0 <= index < slug.len() - 1 implies !(slug[index] == '/'
            && #[trigger] slug[index + 1] == '/') by {
            assert(slug[index + 1] == whole[index + 1]);
        }
    }
    if is_slug(slug) {
        lemma_slug_stays(slug);
    }
}

/// The views of `parts`, in order.
pub open spec fn texts_of(parts: Seq<Vec<char>>) -> Seq<Seq<char>> {
    Seq::new(parts.len(), |index: int| parts[index]@)
}

/// The parts of `text`: the runs of characters between slashes, if
/// `slash` holds, and between gaps, if it does not.
fn split_parts(text: &Vec<char>, slash: bool) -> (found: Vec<Vec<char>>)
    ensures
        texts_of(found@) == parts_of(text@, slash, 0),
{
    let mut found: Vec<Vec<char>> = Vec::new();
    let mut index: usize = 0;
    proof {
        assert(texts_of(found@) =~= Seq::<Seq<char>>::empty());
        assert(Seq::<Seq<char>>::empty() + parts_of(text@, slash, 0) =~= parts_of(
            text@,
            slash,
            0,
        ));
    }
    while index < text.len()
        invariant
            index <= text@.len(),
            parts_of(text@, slash, 0) == texts_of(found@) + parts_of(text@, slash, index as int),
        decreases text@.len() - index,
    {
        let token = text[index];
        let between = if slash {
            token == '/'
        } else {
            token == ' ' || token == '\n' || token == '\t'
        };
        if between {
            index = index + 1;
        } else {
            let start = index;
            let mut part: Vec<char> = Vec::new();
            proof {
                lemma_part_end(text@, slash, start as int);
                assert(text@.subrange(start as int, start as int) =~= Seq::<char>::empty());
            }
            loop
                invariant_except_break
                    part_end(text@, slash, start as int) == part_end(text@, slash, index as int),
                invariant
                    start <= index <= text@.len(),
                    part@ == text@.subrange(start as int, index as int),
                ensures
                    index == part_end(text@, slash, start as int),
                decreases text@.len() - index,
            {
                if index >= text.len() {
                    break ;
                }
                let token = text[index];
                let between = if slash {
                    token == '/'
                } else {
                    token == ' ' || token == '\n' || token == '\t'
                };
                if between {
                    break ;
                }
                part.push(token);
                proof {
                    assert(text@.subrange(start as int, index + 1) =~= text@.subrange(
                        start as int,
                        index as int,
                    ).push(token));
                }
                index = index + 1;
            }
            let ghost before = texts_of(found@);
            let ghost piece = part@;
            found.push(part);
            proof {
                assert(texts_of(found@) =~= before + seq![piece]);
                assert(before + (seq![piece] + parts_of(text@, slash, index as int)) =~= (before
                    + seq![piece]) + parts_of(text@, slash, index as int));
            }
        }
    }
    proof {
        assert(texts_of(found@) + Seq::<Seq<char>>::empty() =~= texts_of(found@));
    }
    found
}

/// The characters of `word` that may stand in a slug.
fn keep_slug_chars(word: &Vec<char>) -> (kept: Vec<char>)
    ensures
        kept@ == keep(word@),
{
    let mut kept: Vec<char> = Vec::new();
    let mut index: usize = 0;
    proof {
        assert(word@.take(0) =~= Seq::<char>::empty());
    }
    while index < word.len()
        invariant
            index <= word@.len(),
            kept@ == keep(word@.take(index as int)),
        decreases word@.len() - index,
    {
        let token = word[index];
        proof {
            let taken = word@.take(index + 1);
            assert(taken.drop_last() =~= word@.take(index as int));
            assert(taken.last() == token);
        }
        if (token >= 'a' && token <= 'z') || (token >= 'A' && token <= 'Z') || (token >= '0'
            && token <= '9') || token == '_' || token == '-' || token == '/' {
            kept.push(token);
        }
        index = index + 1;
    }
    proof {
        assert(word@.take(index as int) =~= word@);
    }
    kept
}

/// The texts in `parts`, with `separator` between one and the next; with
/// `kept` only the characters of each part that may stand in a slug.
fn join_parts(parts: &Vec<Vec<char>>, separator: char, kept: bool) -> (joined: Vec<char>)
    ensures
        joined@ == join(
            if kept {
                keep_each(texts_of(parts@))
            } else {
                texts_of(parts@)
            },
            separator,
        ),
{
    let ghost texts = if kept {
        keep_each(texts_of(parts@))
    } else {
        texts_of(parts@)
    };
    let mut joined: Vec<char> = Vec::new();
    let mut index: usize = 0;
    proof {
        assert(texts.take(0) =~= Seq::<Seq<char>>::empty());
    }
    while index < parts.len()
        invariant
            index <= parts@.len() == texts.len(),
            texts == if kept {
                keep_each(texts_of(parts@))
            } else {
                texts_of(parts@)
            },
            joined@ == join(texts.take(index as int), separator),
        decreases parts@.len() - index,
    {
        let ghost before = joined@;
        if index > 0 {
            joined.push(separator);
        }
        let mut part = if kept {
            keep_slug_chars(&parts[index])
        } else {
            parts[index].clone()
        };
        let ghost piece = part@;
        joined.append(&mut part);
        proof {
            let taken = texts.take(index + 1);
            reveal_with_fuel(join, 2);
            assert(taken.drop_last() =~= texts.take(index as int));
            assert(piece == texts[index as int]);
            assert(taken.last() == piece);
            if index > 0 {
                assert(joined@ =~= before + seq![separator] + piece);
            } else {
                assert(joined@ =~= piece);
            }
        }
        index = index + 1;
    }
    proof {
        assert(texts.take(index as int) =~= texts);
    }
    joined
}

/// The slug that `text` makes, where `text` is trimmed and in lowercase.
pub fn slugify(text: &str) -> (slug: String)
    ensures
        slug@ == slug_of(text@),
{
    let chars = chars_of(text);
    let words = split_parts(&chars, false);
    let dashed = join_parts(&words, '-', true);
    let pieces = split_parts(&dashed, true);
    let joined = join_parts(&pieces, '/', false);
    let mut slug = String::new();
    let mut index: usize = 0;
    proof {
        assert(joined@.take(0) =~= Seq::<char>::empty());
    }
    while index < joined.len() && index < SLUG_LEN
        invariant
            index <= joined@.len(),
            index <= SLUG_LEN,
            slug@ == joined@.take(index as int),
        decreases joined@.len() - index,
    {
        slug.push(joined[index]);
        proof {
            assert(joined@.take(index + 1) =~= joined@.take(index as int).push(
                joined@[index as int],
            ));
        }
        index = index + 1;
    }
    proof {
        if joined@.len() <= SLUG_LEN {
            assert(joined@.take(index as int) =~= joined@);
        }
    }
    slug
}

/// `text` without the slashes in front.
fn strip_slashes(text: &str) -> (stripped: String)
    ensures
        stripped@ == without_slashes(text@),
{
    let ghost all = text@;
    let mut stripped = String::new();
    let mut rest = text.chars();
    let ghost mut at: int = 0;
    let mut front = true;
    proof {
        assert(all.skip(0) =~= all);
        lemma_slashes_end(all, 0);
    }
    loop
        invariant
            0 <= at <= all.len(),
            0 <= slashes_end(all, 0) <= all.len(),
            rest.remaining() == all.skip(at),
            front ==> stripped@ == Seq::<char>::empty() && slashes_end(all, 0) == slashes_end(
                all,
                at,
            ),
            !front ==> slashes_end(all, 0) <= at && stripped@ == all.subrange(
                slashes_end(all, 0),
                at,
            ),
        ensures
            stripped@ == without_slashes(all),
        decreases all.len() - at,
    {
        match rest.next() {
            Some(character) => {
                proof {
                    assert(all.skip(at)[0] == all[at]);
                    assert(all.skip(at).drop_first() =~= all.skip(at + 1));
                }
                if front && character == '/' {
                } else {
                    proof {
                        if front {
                            assert(slashes_end(all, at) == at);
                            assert(all.subrange(at, at) =~= Seq::<char>::empty());
                        }
                        assert(all.subrange(slashes_end(all, 0), at + 1) =~= all.subrange(
                            slashes_end(all, 0),
                            at,
                        ).push(character));
                    }
                    front = false;
                    stripped.push(character);
                }
                proof {
                    at = at + 1;
                }
            },
            None => {
                proof {
                    if front {
                        assert(slashes_end(all, at) == at);
                        assert(all.skip(at) =~= Seq::<char>::empty());
                    } else {
                        assert(all.subrange(slashes_end(all, 0), at) =~= all.skip(
                            slashes_end(all, 0),
                        ));
                    }
                }
                break ;
            },
        }
    }
    stripped
}

/// Slug-ify an arbitrary input string to make it compatible with the
/// slugs of slashlinks: the input is trimmed, loses the slashes in front,
/// is put in lowercase and made a slug as `slug_of` says.
pub fn to_slug(input: &str) -> (slug: Result<String, ParseError>)
    ensures
        slug is Ok,
        slug->Ok_0@ == slug_of(lowercased(without_slashes(trimmed(input@)))),
{
    let stripped = strip_slashes(input.trim());
    let lower = stripped.as_str().to_lowercase();
    Ok(slugify(lower.as_str()))
}

} // verus!
