//! Predicates over a stream of characters: each is fed one character at a
//! time and tells, with the length of the match, when the characters fed
//! last make up what it looks for.

use crate::sequence::{Sequence, SequenceState};
use vstd::prelude::*;

verus! {

/// A carriage return and the line feed after it.
pub const CARRIAGE_RETURN_NEW_LINE_SEQUENCE: [char; 2] = ['\r', '\n'];

/// What opens a slash link.
pub const SLASH_LINK_SEQUENCE: [char; 1] = ['/'];

/// What opens a wiki link.
pub const WIKI_LINK_OPEN_SEQUENCE: [char; 2] = ['[', '['];

/// What closes a wiki link.
pub const WIKI_LINK_CLOSE_SEQUENCE: [char; 2] = [']', ']'];

/// The scheme of a hyper link over TLS.
pub const HTTPS_LINK_SEQUENCE: [char; 8] = ['h', 't', 't', 'p', 's', ':', '/', '/'];

/// The scheme of a plain hyper link.
pub const HTTP_LINK_SEQUENCE: [char; 7] = ['h', 't', 't', 'p', ':', '/', '/'];

/// The scheme of an IPFS link.
pub const IPFS_LINK_SEQUENCE: [char; 7] = ['i', 'p', 'f', 's', ':', '/', '/'];

/// A predicate over a stream of characters. Its view is its state; what it
/// answers and what becomes of it are functions of state and character.
pub trait Predicate: View {
    /// The answer to `token` in `state`: the length of the match that
    /// `token` ends, if it ends one.
    spec fn outcome(state: Self::V, token: char) -> Option<usize>;

    /// The state after `token`.
    spec fn after(state: Self::V, token: char) -> Self::V;

    /// Feeds `token` to the predicate.
    fn test(&mut self, token: &char) -> (found: Option<usize>)
        ensures
            found == Self::outcome(old(self)@, *token),
            final(self)@ == Self::after(old(self)@, *token),
    ;
}

/// Matches when its sequence has just been completed; the match is as long
/// as the sequence.
#[derive(Debug)]
pub struct SequencePredicate<'a> {
    pub sequence: Sequence<'a>,
}

impl<'a> View for SequencePredicate<'a> {
    type V = SequenceState;

    open spec fn view(&self) -> SequenceState {
        self.sequence@
    }
}

impl<'a> Predicate for SequencePredicate<'a> {
    open spec fn outcome(state: SequenceState, token: char) -> Option<usize> {
        if state.go_to(token).is_complete() {
            Some(state.states.len() as usize)
        } else {
            None
        }
    }

    open spec fn after(state: SequenceState, token: char) -> SequenceState {
        state.go_to(token)
    }

    fn test(&mut self, token: &char) -> (found: Option<usize>) {
        self.sequence.go_to(token);
        if self.sequence.is_complete() {
            Some(self.sequence.len())
        } else {
            None
        }
    }
}

/// The predicate that matches when `sequence` is completed.
pub fn sequence_to_predicate(sequence: Sequence) -> (predicate: SequencePredicate)
    ensures
        predicate@ == sequence@,
{
    SequencePredicate { sequence }
}

/// The states of the predicates in `predicates`, in order.
pub open spec fn states_of<P: Predicate>(predicates: Seq<P>) -> Seq<P::V> {
    Seq::new(predicates.len(), |index: int| predicates[index]@)
}

/// The answer of the first of the predicates in `states` that matches.
pub open spec fn first_outcome<P: Predicate>(states: Seq<P::V>, token: char) -> Option<usize>
    decreases states.len(),
{
    if states.len() == 0 {
        None
    } else {
        match P::outcome(states[0], token) {
            Some(length) => Some(length),
            None => first_outcome::<P>(states.drop_first(), token),
        }
    }
}

/// The states after `token`: the predicates are fed in order up to the
/// first that matches, and those behind it are not fed.
pub open spec fn first_after<P: Predicate>(states: Seq<P::V>, token: char) -> Seq<P::V>
    decreases states.len(),
{
    if states.len() == 0 {
        states
    } else if P::outcome(states[0], token) is Some {
        seq![P::after(states[0], token)] + states.drop_first()
    } else {
        seq![P::after(states[0], token)] + first_after::<P>(states.drop_first(), token)
    }
}

/// Feeding cannot change how many predicates there are.
pub proof fn lemma_first_after_len<P: Predicate>(states: Seq<P::V>, token: char)
    ensures
        first_after::<P>(states, token).len() == states.len(),
    decreases states.len(),
{
    if states.len() > 0 {
        lemma_first_after_len::<P>(states.drop_first(), token);
    }
}

/// Once the predicates in front have been fed without a match, what is
/// left to do is to feed the rest.
proof fn lemma_first_split<P: Predicate>(states: Seq<P::V>, token: char, fed: int)
    requires
        0 <= fed <= states.len(),
        forall|index: int| 0 <= index < fed ==> P::outcome(#[trigger] states[index], token) is None,
    ensures
        first_outcome::<P>(states, token) == first_outcome::<P>(states.skip(fed), token),
        first_after::<P>(states, token) == Seq::new(
            fed as nat,
            |index: int| P::after(states[index], token),
        ) + first_after::<P>(states.skip(fed), token),
    decreases fed,
{
    let fronts = Seq::new(fed as nat, |index: int| P::after(states[index], token));
    if fed == 0 {
        assert(states.skip(0) =~= states);
        assert(fronts + first_after::<P>(states, token) =~= first_after::<P>(states, token));
    } else {
        let rest = states.drop_first();
        assert forall|index: int| 0 <= index < fed - 1 implies P::outcome(
            #[trigger] rest[index],
            token,
        ) is None by {
            assert(rest[index] == states[index + 1]);
        }
        lemma_first_split::<P>(rest, token, fed - 1);
        assert(rest.skip(fed - 1) =~= states.skip(fed));
        assert(P::outcome(states[0], token) is None);
        let inner = Seq::new((fed - 1) as nat, |index: int| P::after(rest[index], token));
        assert(fronts =~= seq![P::after(states[0], token)] + inner);
        assert(first_after::<P>(states, token) =~= fronts + first_after::<P>(
            states.skip(fed),
            token,
        ));
    }
}

/// Matches when the first of its predicates matches. The predicates are
/// tried in order, so the order is their precedence.
pub struct FirstPredicate<P: Predicate> {
    pub predicates: Vec<P>,
}

impl<P: Predicate> View for FirstPredicate<P> {
    type V = Seq<P::V>;

    open spec fn view(&self) -> Seq<P::V> {
        states_of(self.predicates@)
    }
}

impl<P: Predicate> Predicate for FirstPredicate<P> {
    open spec fn outcome(state: Seq<P::V>, token: char) -> Option<usize> {
        first_outcome::<P>(state, token)
    }

    open spec fn after(state: Seq<P::V>, token: char) -> Seq<P::V> {
        first_after::<P>(state, token)
    }

    fn test(&mut self, token: &char) -> (found: Option<usize>) {
        let ghost before = self@;
        let count = self.predicates.len();
        let mut index: usize = 0;
        while index < count
            invariant
                before == old(self)@,
                index <= count == self.predicates@.len() == before.len(),
                forall|fed: int| 0 <= fed < index ==> P::outcome(#[trigger] before[fed], *token) is None,
                forall|fed: int| 0 <= fed < index ==> #[trigger] self@[fed] == P::after(before[fed], *token),
                forall|left: int| index <= left < count ==> #[trigger] self@[left] == before[left],
            decreases count - index,
        {
            let ghost entry = self@;
            let found = self.predicates[index].test(token);
            proof {
                assert(entry[index as int] == before[index as int]);
                assert forall|fed: int| 0 <= fed < index + 1 implies #[trigger] self@[fed] == P::after(
                    before[fed],
                    *token,
                ) by {
                    if fed < index {
                        assert(self@[fed] == entry[fed]);
                    }
                }
                assert forall|left: int| index + 1 <= left < count implies #[trigger] self@[left]
                    == before[left] by {
                    assert(self@[left] == entry[left]);
                }
            }
            if found.is_some() {
                proof {
                    lemma_first_split::<P>(before, *token, index as int);
                    let rest = before.skip(index as int);
                    assert(rest[0] == before[index as int]);
                    let fronts = Seq::new(index as nat, |fed: int| P::after(before[fed], *token));
                    assert(self@ =~= fronts + (seq![P::after(rest[0], *token)] + rest.drop_first()));
                }
                return found;
            }
            index = index + 1;
        }
        proof {
            lemma_first_split::<P>(before, *token, count as int);
            assert(before.skip(count as int) =~= Seq::<P::V>::empty());
            let fronts = Seq::new(count as nat, |fed: int| P::after(before[fed], *token));
            assert(self@ =~= fronts + Seq::<P::V>::empty());
        }
        None
    }
}

/// The predicate that matches when the first of `predicates` matches.
pub fn first_predicate<P: Predicate>(predicates: Vec<P>) -> (predicate: FirstPredicate<P>)
    ensures
        predicate@ == states_of(predicates@),
{
    FirstPredicate { predicates }
}

/// Matches a tab or a space, as a match of length one.
#[derive(Debug)]
pub struct TabOrSpacePredicate;

impl View for TabOrSpacePredicate {
    type V = ();

    open spec fn view(&self) -> () {
        ()
    }
}

/// Whether `token` is a tab or a space.
pub open spec fn is_tab_or_space(token: char) -> bool {
    token == ' ' || token == '\t'
}

impl Predicate for TabOrSpacePredicate {
    open spec fn outcome(state: (), token: char) -> Option<usize> {
        if is_tab_or_space(token) {
            Some(1usize)
        } else {
            None
        }
    }

    open spec fn after(state: (), token: char) -> () {
        ()
    }

    fn test(&mut self, token: &char) -> (found: Option<usize>) {
        match *token {
            ' ' | '\t' => Some(1usize),
            _ => None,
        }
    }
}

/// The predicate that matches a tab or a space.
pub fn tab_or_space_predicate() -> (predicate: TabOrSpacePredicate)
    ensures
        predicate@ == (),
{
    TabOrSpacePredicate
}

/// Matches the end of a line: a carriage return with its line feed as a
/// match of length two, any other line feed as a match of length one.
#[derive(Debug)]
pub struct NewLinePredicate {
    pub is_carriage_return: SequencePredicate<'static>,
}

impl View for NewLinePredicate {
    type V = SequenceState;

    open spec fn view(&self) -> SequenceState {
        self.is_carriage_return@
    }
}

impl Predicate for NewLinePredicate {
    open spec fn outcome(state: SequenceState, token: char) -> Option<usize> {
        match SequencePredicate::outcome(state, token) {
            Some(length) => Some(length),
            None => if token == '\n' {
                Some(1usize)
            } else {
                None
            },
        }
    }

    open spec fn after(state: SequenceState, token: char) -> SequenceState {
        state.go_to(token)
    }

    fn test(&mut self, token: &char) -> (found: Option<usize>) {
        let matched = self.is_carriage_return.test(token);
        if matched.is_some() {
            return matched;
        }
        if *token == '\n' {
            return Some(1usize);
        }
        None
    }
}

/// The state in which `new_line_predicate` makes its predicate.
pub open spec fn new_line_initial() -> SequenceState {
    SequenceState::initial(CARRIAGE_RETURN_NEW_LINE_SEQUENCE@, None)
}

/// The predicate that matches the end of a line.
pub fn new_line_predicate() -> (predicate: NewLinePredicate)
    ensures
        predicate@ == new_line_initial(),
{
    NewLinePredicate {
        is_carriage_return: sequence_to_predicate(
            Sequence::new(&CARRIAGE_RETURN_NEW_LINE_SEQUENCE, None),
        ),
    }
}

/// Matches the end of a line, a tab or a space.
#[derive(Debug)]
pub struct WhiteSpacePredicate {
    pub is_new_line: NewLinePredicate,
    pub is_white_space: TabOrSpacePredicate,
}

impl View for WhiteSpacePredicate {
    type V = SequenceState;

    open spec fn view(&self) -> SequenceState {
        self.is_new_line@
    }
}

impl Predicate for WhiteSpacePredicate {
    open spec fn outcome(state: SequenceState, token: char) -> Option<usize> {
        match NewLinePredicate::outcome(state, token) {
            Some(length) => Some(length),
            None => TabOrSpacePredicate::outcome((), token),
        }
    }

    open spec fn after(state: SequenceState, token: char) -> SequenceState {
        state.go_to(token)
    }

    fn test(&mut self, token: &char) -> (found: Option<usize>) {
        let matched = self.is_new_line.test(token);
        if matched.is_some() {
            return matched;
        }
        self.is_white_space.test(token)
    }
}

/// The predicate that matches the end of a line, a tab or a space.
pub fn white_space_predicate() -> (predicate: WhiteSpacePredicate)
    ensures
        predicate@ == new_line_initial(),
{
    WhiteSpacePredicate { is_new_line: new_line_predicate(), is_white_space: tab_or_space_predicate() }
}

/// The state of a `WikiLinkDelimiterPredicate`.
pub struct WikiLinkDelimiterState {
    /// The machine that looks for a carriage return and its line feed.
    pub new_line: SequenceState,
    /// The machine that looks for the closing brackets.
    pub wiki_link_close: SequenceState,
}

/// Matches what ends a wiki link: the end of the line, or two closing
/// brackets. The machine for the brackets is not fed a character that ends
/// the line.
#[derive(Debug)]
pub struct WikiLinkDelimiterPredicate {
    pub is_new_line: NewLinePredicate,
    pub is_wiki_link_close: SequencePredicate<'static>,
}

impl View for WikiLinkDelimiterPredicate {
    type V = WikiLinkDelimiterState;

    open spec fn view(&self) -> WikiLinkDelimiterState {
        WikiLinkDelimiterState {
            new_line: self.is_new_line@,
            wiki_link_close: self.is_wiki_link_close@,
        }
    }
}

impl Predicate for WikiLinkDelimiterPredicate {
    open spec fn outcome(state: WikiLinkDelimiterState, token: char) -> Option<usize> {
        match NewLinePredicate::outcome(state.new_line, token) {
            Some(length) => Some(length),
            None => SequencePredicate::outcome(state.wiki_link_close, token),
        }
    }

    open spec fn after(state: WikiLinkDelimiterState, token: char) -> WikiLinkDelimiterState {
        WikiLinkDelimiterState {
            new_line: state.new_line.go_to(token),
            wiki_link_close: if NewLinePredicate::outcome(state.new_line, token) is Some {
                state.wiki_link_close
            } else {
                state.wiki_link_close.go_to(token)
            },
        }
    }

    fn test(&mut self, token: &char) -> (found: Option<usize>) {
        let matched = self.is_new_line.test(token);
        if matched.is_some() {
            return matched;
        }
        self.is_wiki_link_close.test(token)
    }
}

/// The state in which `wiki_link_delimiter_predicate` makes its predicate.
pub open spec fn wiki_link_delimiter_initial() -> WikiLinkDelimiterState {
    WikiLinkDelimiterState {
        new_line: new_line_initial(),
        wiki_link_close: SequenceState::initial(WIKI_LINK_CLOSE_SEQUENCE@, None),
    }
}

/// The predicate that matches what ends a wiki link.
pub fn wiki_link_delimiter_predicate() -> (predicate: WikiLinkDelimiterPredicate)
    ensures
        predicate@ == wiki_link_delimiter_initial(),
{
    WikiLinkDelimiterPredicate {
        is_new_line: new_line_predicate(),
        is_wiki_link_close: sequence_to_predicate(Sequence::new(&WIKI_LINK_CLOSE_SEQUENCE, None)),
    }
}

/// The states in which `hyper_link_predicate` makes its predicate: one
/// machine for each scheme, each reset by a space.
pub open spec fn hyper_link_initial() -> Seq<SequenceState> {
    seq![
        SequenceState::initial(HTTP_LINK_SEQUENCE@, Some(' ')),
        SequenceState::initial(HTTPS_LINK_SEQUENCE@, Some(' ')),
        SequenceState::initial(IPFS_LINK_SEQUENCE@, Some(' ')),
    ]
}

/// The predicate that matches the scheme of a hyper link: `http://`,
/// `https://` or `ipfs://` after a space or at the beginning.
pub fn hyper_link_predicate() -> (predicate: FirstPredicate<SequencePredicate<'static>>)
    ensures
        predicate@ == hyper_link_initial(),
{
    let mut predicates = Vec::new();
    predicates.push(sequence_to_predicate(Sequence::new(&HTTP_LINK_SEQUENCE, Some(' '))));
    predicates.push(sequence_to_predicate(Sequence::new(&HTTPS_LINK_SEQUENCE, Some(' '))));
    predicates.push(sequence_to_predicate(Sequence::new(&IPFS_LINK_SEQUENCE, Some(' '))));
    let predicate = first_predicate(predicates);
    assert(predicate@ =~= hyper_link_initial());
    predicate
}

/// The state in which `wiki_link_open_predicate` makes its predicate.
pub open spec fn wiki_link_open_initial() -> SequenceState {
    SequenceState::initial(WIKI_LINK_OPEN_SEQUENCE@, Some(' '))
}

/// The predicate that matches the two brackets that open a wiki link,
/// after a space or at the beginning.
pub fn wiki_link_open_predicate() -> (predicate: SequencePredicate<'static>)
    ensures
        predicate@ == wiki_link_open_initial(),
{
    sequence_to_predicate(Sequence::new(&WIKI_LINK_OPEN_SEQUENCE, Some(' ')))
}

/// The state in which `slash_link_predicate` makes its predicate.
pub open spec fn slash_link_initial() -> SequenceState {
    SequenceState::initial(SLASH_LINK_SEQUENCE@, Some(' '))
}

/// The predicate that matches the slash that opens a slash link, after a
/// space or at the beginning.
pub fn slash_link_predicate() -> (predicate: SequencePredicate<'static>)
    ensures
        predicate@ == slash_link_initial(),
{
    sequence_to_predicate(Sequence::new(&SLASH_LINK_SEQUENCE, Some(' ')))
}

/// The kinds of link.
#[derive(Debug, Clone, Copy, PartialEq, Eq, Structural)]
pub enum ParseLinkAs {
    SlashLink,
    HyperLink,
    WikiLink,
}

/// The state of a `LinkPredicate`.
pub struct LinkState {
    /// The machines for the schemes of hyper links, in order of precedence.
    pub hyper_link: Seq<SequenceState>,
    /// The machine for the slash of a slash link.
    pub slash_link: SequenceState,
    /// The machine for the brackets that open a wiki link.
    pub wiki_link_open: SequenceState,
}

impl LinkState {
    /// The answer to `token`: the length of the opening that `token` ends
    /// and the kind of link that it opens. A hyper link goes before a
    /// slash link, and a slash link before a wiki link.
    pub open spec fn outcome(self, token: char) -> Option<(usize, ParseLinkAs)> {
        match first_outcome::<SequencePredicate>(self.hyper_link, token) {
            Some(steps) => Some((steps, ParseLinkAs::HyperLink)),
            None => match SequencePredicate::outcome(self.slash_link, token) {
                Some(steps) => Some((steps, ParseLinkAs::SlashLink)),
                None => match SequencePredicate::outcome(self.wiki_link_open, token) {
                    Some(steps) => Some((steps, ParseLinkAs::WikiLink)),
                    None => None,
                },
            },
        }
    }

    /// The state after `token`: the machines behind the one that matched
    /// are not fed.
    pub open spec fn after(self, token: char) -> LinkState {
        let hyper_link = first_after::<SequencePredicate>(self.hyper_link, token);
        if first_outcome::<SequencePredicate>(self.hyper_link, token) is Some {
            LinkState { hyper_link, ..self }
        } else if SequencePredicate::outcome(self.slash_link, token) is Some {
            LinkState { hyper_link, slash_link: self.slash_link.go_to(token), ..self }
        } else {
            LinkState {
                hyper_link,
                slash_link: self.slash_link.go_to(token),
                wiki_link_open: self.wiki_link_open.go_to(token),
            }
        }
    }
}

/// Matches the opening of a link and tells its kind.
pub struct LinkPredicate {
    pub is_hyper_link: FirstPredicate<SequencePredicate<'static>>,
    pub is_slash_link: SequencePredicate<'static>,
    pub is_wiki_link_open: SequencePredicate<'static>,
}

impl View for LinkPredicate {
    type V = LinkState;

    open spec fn view(&self) -> LinkState {
        LinkState {
            hyper_link: self.is_hyper_link@,
            slash_link: self.is_slash_link@,
            wiki_link_open: self.is_wiki_link_open@,
        }
    }
}

impl LinkPredicate {
    /// Feeds `token` to the predicate.
    pub fn test(&mut self, token: &char) -> (found: Option<(usize, ParseLinkAs)>)
        ensures
            found == old(self)@.outcome(*token),
            final(self)@ == old(self)@.after(*token),
    {
        if let Some(steps) = self.is_hyper_link.test(token) {
            return Some((steps, ParseLinkAs::HyperLink));
        }
        if let Some(steps) = self.is_slash_link.test(token) {
            return Some((steps, ParseLinkAs::SlashLink));
        }
        if let Some(steps) = self.is_wiki_link_open.test(token) {
            return Some((steps, ParseLinkAs::WikiLink));
        }
        None
    }
}

/// The state in which `link_predicate` makes its predicate.
pub open spec fn link_initial() -> LinkState {
    LinkState {
        hyper_link: hyper_link_initial(),
        slash_link: slash_link_initial(),
        wiki_link_open: wiki_link_open_initial(),
    }
}

/// The predicate that matches the opening of a link.
pub fn link_predicate() -> (predicate: LinkPredicate)
    ensures
        predicate@ == link_initial(),
{
    LinkPredicate {
        is_hyper_link: hyper_link_predicate(),
        is_slash_link: slash_link_predicate(),
        is_wiki_link_open: wiki_link_open_predicate(),
    }
}

} // verus!
