//! A state machine that tells when a fixed run of characters has just been
//! gone through in order.

use vstd::prelude::*;

verus! {

/// What a `Sequence` is, as plain values.
pub struct SequenceState {
    /// The characters to go through, in order.
    pub states: Seq<char>,
    /// Whether the last input left the machine in the middle of an attempt:
    /// it advanced, or it was no reset signal.
    pub sent_to_state: bool,
    /// The character that allows a new attempt after a failed one; with
    /// `None` every character allows it.
    pub reset_signal: Option<char>,
    /// How many of the characters have been gone through.
    pub next_state: nat,
}

impl SequenceState {
    /// The machine as it is made: nothing gone through, free to begin.
    pub open spec fn initial(states: Seq<char>, reset_signal: Option<char>) -> SequenceState {
        SequenceState { states, sent_to_state: false, reset_signal, next_state: 0 }
    }

    /// The cursor lies within the sequence, and a cursor that has left the
    /// beginning belongs to an attempt under way.
    pub open spec fn wf(self) -> bool {
        &&& self.next_state <= self.states.len()
        &&& self.next_state > 0 ==> self.sent_to_state
    }

    /// All the characters have just been gone through.
    pub open spec fn is_complete(self) -> bool {
        self.next_state == self.states.len()
    }

    /// The machine may take a step: it is either in the middle of an
    /// attempt or free to begin one.
    pub open spec fn can_advance(self) -> bool {
        self.sent_to_state == (self.next_state > 0)
    }

    /// The cursor from which an input is judged: a complete machine starts
    /// over.
    pub open spec fn cursor(self) -> nat {
        if self.is_complete() {
            0
        } else {
            self.next_state
        }
    }

    /// Where the cursor stands after `input`.
    pub open spec fn moved(self, input: char) -> nat {
        let cursor = self.cursor();
        if self.sent_to_state == (cursor > 0) && cursor < self.states.len() {
            if self.states[cursor as int] == input {
                cursor + 1
            } else {
                0
            }
        } else {
            cursor
        }
    }

    /// Whether `input` moves the cursor forward.
    pub open spec fn advances(self, input: char) -> bool {
        self.moved(input) > self.next_state
    }

    /// Whether `input` is the reset signal; without one, every input is.
    pub open spec fn resets(self, input: char) -> bool {
        match self.reset_signal {
            Some(signal) => signal == input,
            None => true,
        }
    }

    /// The machine after `input`.
    pub open spec fn go_to(self, input: char) -> SequenceState {
        SequenceState {
            states: self.states,
            sent_to_state: self.advances(input) || !self.resets(input),
            reset_signal: self.reset_signal,
            next_state: self.moved(input),
        }
    }

    /// The machine after each of `inputs` in turn.
    pub open spec fn go_through(self, inputs: Seq<char>) -> SequenceState
        decreases inputs.len(),
    {
        if inputs.len() == 0 {
            self
        } else {
            self.go_through(inputs.drop_last()).go_to(inputs.last())
        }
    }
}

/// An input keeps the cursor within the sequence and moves it forward by
/// one character at most.
pub proof fn lemma_go_to_wf(state: SequenceState, input: char)
    requires
        state.wf(),
    ensures
        state.go_to(input).wf(),
        state.go_to(input).states == state.states,
        state.go_to(input).reset_signal == state.reset_signal,
        state.go_to(input).next_state <= state.cursor() + 1,
        state.advances(input) ==> state.go_to(input).next_state == state.next_state + 1
            && state.states[state.next_state as int] == input,
        state.go_to(input).is_complete() && state.states.len() > 0 ==> state.advances(input),
{
    let cursor = state.cursor();
    if state.sent_to_state == (cursor > 0) && cursor < state.states.len() {
        if state.states[cursor as int] == input {
            assert(state.moved(input) == cursor + 1);
        } else {
            assert(state.moved(input) == 0);
        }
    } else {
        assert(state.moved(input) == cursor);
    }
}

/// The machine keeps to its invariant however many inputs it takes.
pub proof fn lemma_go_through_wf(state: SequenceState, inputs: Seq<char>)
    requires
        state.wf(),
    ensures
        state.go_through(inputs).wf(),
        state.go_through(inputs).states == state.states,
        state.go_through(inputs).reset_signal == state.reset_signal,
    decreases inputs.len(),
{
    if inputs.len() > 0 {
        lemma_go_through_wf(state, inputs.drop_last());
        lemma_go_to_wf(state.go_through(inputs.drop_last()), inputs.last());
    }
}

/// A machine recognizes its sequence and nothing else: the characters
/// that it has gone through are the inputs that it took last, in order.
/// So a machine that is complete has just taken its whole sequence.
pub proof fn lemma_complete_means_matched(
    states: Seq<char>,
    reset_signal: Option<char>,
    inputs: Seq<char>,
)
    ensures
        ({
            let state = SequenceState::initial(states, reset_signal).go_through(inputs);
            &&& state.next_state <= inputs.len()
            &&& inputs.skip(inputs.len() - state.next_state) == states.take(state.next_state as int)
            &&& state.is_complete() ==> inputs.skip(inputs.len() - states.len()) == states
        }),
    decreases inputs.len(),
{
    let initial = SequenceState::initial(states, reset_signal);
    let state = initial.go_through(inputs);
    lemma_go_through_wf(initial, inputs);
    if inputs.len() == 0 {
        assert(inputs.skip(0) =~= states.take(0));
    } else {
        let fed = inputs.drop_last();
        let before = initial.go_through(fed);
        lemma_complete_means_matched(states, reset_signal, fed);
        lemma_go_through_wf(initial, fed);
        lemma_go_to_wf(before, inputs.last());
        if before.advances(inputs.last()) {
            let gone = before.next_state as int;
            assert(inputs.skip(inputs.len() - gone - 1) =~= fed.skip(fed.len() - gone).push(
                inputs.last(),
            ));
            assert(states.take(gone + 1) =~= states.take(gone).push(states[gone]));
        } else if state.next_state == 0 {
            assert(inputs.skip(inputs.len() as int) =~= states.take(0));
        } else {
            // The cursor can stay behind its beginning only where the machine
            // is complete and the sequence is empty.
            assert(before.cursor() == before.next_state);
            assert(false);
        }
        if state.is_complete() {
            assert(states.take(states.len() as int) =~= states);
        }
    }
}

/// A basic state machine to track interesting sequences of characters.
///
/// The sequence is complete when its states have been traversed in order.
/// It becomes stuck when sent to an out-of-order state and cannot go on
/// until it meets the reset signal, if one is set.
#[derive(Debug)]
pub struct Sequence<'a> {
    states: &'a [char],
    sent_to_state: bool,
    reset_signal: Option<char>,
    next_state: usize,
}

impl<'a> View for Sequence<'a> {
    type V = SequenceState;

    closed spec fn view(&self) -> SequenceState {
        SequenceState {
            states: self.states@,
            sent_to_state: self.sent_to_state,
            reset_signal: self.reset_signal,
            next_state: self.next_state as nat,
        }
    }
}

impl<'a> Sequence<'a> {
    /// A machine for `states` that has gone through none of them.
    pub fn new(states: &'a [char], reset_signal: Option<char>) -> (sequence: Self)
        ensures
            sequence@ == SequenceState::initial(states@, reset_signal),
            sequence@.wf(),
    {
        Sequence { states, sent_to_state: false, reset_signal, next_state: 0 }
    }

    /// The number of characters to go through.
    pub fn len(&self) -> (length: usize)
        ensures
            length == self@.states.len(),
    {
        self.states.len()
    }

    /// Whether all the characters have just been gone through.
    pub fn is_complete(&self) -> (complete: bool)
        ensures
            complete == self@.is_complete(),
    {
        self.next_state == self.states.len()
    }

    /// Whether the machine may take a step.
    pub fn can_advance(&self) -> (free: bool)
        ensures
            free == self@.can_advance(),
    {
        self.sent_to_state == (self.next_state > 0)
    }

    /// Takes one character and tells whether the cursor moved forward.
    pub fn go_to(&mut self, input: &char) -> (advanced: bool)
        ensures
            final(self)@ == old(self)@.go_to(*input),
            advanced == old(self)@.advances(*input),
    {
        let current_next_state = self.next_state;

        if self.is_complete() {
            self.next_state = 0;
        }
        if self.can_advance() {
            if self.next_state < self.states.len() {
                if self.states[self.next_state] == *input {
                    self.next_state = self.next_state + 1;
                } else {
                    self.next_state = 0;
                }
            }
        }
        let state_advanced = self.next_state > current_next_state;

        let reset_signal_sent = match self.reset_signal {
            Some(reset_signal) => reset_signal == *input,
            None => true,
        };

        self.sent_to_state = state_advanced || !reset_signal_sent;

        state_advanced
    }
}

} // verus!
