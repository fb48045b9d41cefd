//! The automaton compiled from a pattern, and what is assumed of it.
//!
//! The automaton itself comes from `regex_automata`. Nothing here looks inside
//! it: its states, its start state, its transitions and its accepting states
//! are known only through uninterpreted functions, and through the wrappers
//! below, whose contracts are taken on trust.

use crate::error::ImageError;
use regex_automata::DenseDFA;
use regex_automata::DFA;
use vstd::prelude::*;

verus! {

#[verifier::external_type_specification]
#[verifier::external_body]
pub struct ExRegexError(regex_automata::Error);

/// A deterministic automaton over bytes, total on every byte: a dense
/// automaton as `regex_automata` builds it from a pattern. The only way to
/// make one is [`Automaton::compile`].
#[verifier::external_body]
pub struct Automaton {
    dfa: DenseDFA<Vec<usize>, usize>,
}

/// The identifiers of the states of an automaton.
pub uninterp spec fn automaton_states(automaton: Automaton) -> Set<usize>;

/// The identifier that `DFA::start_state` returns for an automaton.
pub uninterp spec fn automaton_start(automaton: Automaton) -> usize;

/// The identifier that `DFA::next_state` returns for a state and an input
/// byte.
pub uninterp spec fn automaton_next(automaton: Automaton, state: usize, byte: u8) -> usize;

/// What `DFA::is_match_state` returns for a state.
pub uninterp spec fn automaton_accepts(automaton: Automaton, state: usize) -> bool;

/// What `dense::Builder::build` returns for a pattern on a fresh builder
/// with the two options set.
pub uninterp spec fn dense_built(pattern: Seq<char>, case_insensitive: bool, anchored: bool) -> Result<
    Automaton,
    regex_automata::Error,
>;

/// The text that a `regex_automata::Error` displays.
pub uninterp spec fn dense_error_display(error: regex_automata::Error) -> Seq<char>;

/// Calls `dense::Builder::build` on a fresh builder with the two options set.
/// Trusted: the result depends on the pattern and the options alone. Nothing
/// is claimed about which patterns compile.
#[verifier::external_body]
fn dense_build(pattern: &str, case_insensitive: bool, anchored: bool) -> (built: Result<
    Automaton,
    regex_automata::Error,
>)
    ensures
        built == dense_built(pattern@, case_insensitive, anchored),
{
    regex_automata::dense::Builder::new().case_insensitive(case_insensitive).anchored(
        anchored,
    ).build(pattern).map(|dfa| Automaton { dfa })
}

/// Formats a `regex_automata::Error` for display. Trusted: the text depends
/// on the error alone.
#[verifier::external_body]
fn dense_error_text(error: &regex_automata::Error) -> (text: String)
    ensures
        text@ == dense_error_display(*error),
{
    format!("{}", error)
}

/// Calls `DFA::start_state`. Trusted: the result is the automaton's start
/// state, which is one of its states.
#[verifier::external_body]
fn dense_start_state(automaton: &Automaton) -> (state: usize)
    ensures
        state == automaton_start(*automaton),
        automaton_states(*automaton).contains(state),
{
    automaton.dfa.start_state()
}

/// Calls `DFA::next_state`. Trusted: from a state of the automaton the call
/// returns, for every byte, the successor, which is again a state of the
/// automaton. Identifiers that are not states, on which the table lookup may
/// panic, are left out.
#[verifier::external_body]
fn dense_next_state(automaton: &Automaton, current: usize, input: u8) -> (state: usize)
    requires
        automaton_states(*automaton).contains(current),
    ensures
        state == automaton_next(*automaton, current, input),
        automaton_states(*automaton).contains(state),
{
    automaton.dfa.next_state(current, input)
}

/// Calls `DFA::is_match_state`. Trusted: the result says whether the state is
/// accepting.
#[verifier::external_body]
fn dense_is_match_state(automaton: &Automaton, state: usize) -> (accepting: bool)
    ensures
        accepting == automaton_accepts(*automaton, state),
{
    automaton.dfa.is_match_state(state)
}

/// The failure to report when the compiler has rejected a pattern with
/// `error`.
pub fn compile_failure(error: &regex_automata::Error) -> (failure: ImageError)
    ensures
        failure matches ImageError::RegexCompile { reason } && reason@ == dense_error_display(
            *error,
        ),
{
    ImageError::RegexCompile { reason: dense_error_text(error) }
}

/// Whether every letter of `word` is a letter of `alphabet`.
pub open spec fn word_over(word: Seq<u8>, alphabet: Seq<u8>) -> bool {
    forall|i: int| 0 <= i < word.len() ==> alphabet.contains(#[trigger] word[i])
}

impl Automaton {
    /// Whether `state` identifies a state of the automaton.
    pub open spec fn has_state(&self, state: usize) -> bool {
        automaton_states(*self).contains(state)
    }

    /// The start state.
    pub open spec fn start(&self) -> usize {
        automaton_start(*self)
    }

    /// The successor of `state` on `byte`.
    pub open spec fn next(&self, state: usize, byte: u8) -> usize {
        automaton_next(*self, state, byte)
    }

    /// Whether `state` is accepting.
    pub open spec fn accepts(&self, state: usize) -> bool {
        automaton_accepts(*self, state)
    }

    /// The state reached from `from` by reading `word`.
    pub open spec fn run(&self, from: usize, word: Seq<u8>) -> usize
        decreases word.len(),
    {
        if word.len() == 0 {
            from
        } else {
            self.next(self.run(from, word.drop_last()), word.last())
        }
    }

    /// Whether some word over `alphabet` leads from the start state to
    /// `state`.
    pub open spec fn reachable(&self, alphabet: Seq<u8>, state: usize) -> bool {
        exists|word: Seq<u8>| word_over(word, alphabet) && self.run(self.start(), word) == state
    }

    /// Compiles `pattern`, ignoring case, into an automaton. With `anchored`
    /// the automaton matches only from the first byte on.
    pub fn compile(pattern: &str, anchored: bool) -> (compiled: Result<Automaton, ImageError>)
        ensures
            match dense_built(pattern@, true, anchored) {
                Ok(automaton) => compiled == Ok::<Automaton, ImageError>(automaton),
                Err(error) => compiled matches Err(ImageError::RegexCompile { reason }) && reason@
                    == dense_error_display(error),
            },
    {
        match dense_build(pattern, true, anchored) {
            Ok(automaton) => Ok(automaton),
            Err(error) => Err(compile_failure(&error)),
        }
    }

    /// The start state.
    pub fn start_state(&self) -> (state: usize)
        ensures
            state == self.start(),
            self.has_state(state),
    {
        dense_start_state(self)
    }

    /// The successor of `current` on `input`.
    pub fn next_state(&self, current: usize, input: u8) -> (state: usize)
        requires
            self.has_state(current),
        ensures
            state == self.next(current, input),
            self.has_state(state),
    {
        dense_next_state(self, current, input)
    }

    /// Whether `state` is accepting.
    pub fn is_match_state(&self, state: usize) -> (accepting: bool)
        ensures
            accepting == self.accepts(state),
    {
        dense_is_match_state(self, state)
    }
}

/// Reading a word over the alphabet from a state of the automaton ends in a
/// state of the automaton that is reachable if the first one is.
pub proof fn lemma_run_stays_inside(a: Automaton, alphabet: Seq<u8>, from: usize, word: Seq<u8>)
    requires
        word_over(word, alphabet),
        a.reachable(alphabet, from),
    ensures
        a.reachable(alphabet, a.run(from, word)),
    decreases word.len(),
{
    if word.len() > 0 {
        lemma_run_stays_inside(a, alphabet, from, word.drop_last());
        let before = a.run(from, word.drop_last());
        let path = choose|w: Seq<u8>| word_over(w, alphabet) && a.run(a.start(), w) == before;
        let longer = path.push(word.last());
        assert(longer.drop_last() == path);
        assert(word_over(longer, alphabet));
        assert(a.run(a.start(), longer) == a.run(from, word));
    }
}

/// The start state is reachable.
pub proof fn lemma_start_reachable(a: Automaton, alphabet: Seq<u8>)
    ensures
        a.reachable(alphabet, a.start()),
{
    let empty = Seq::<u8>::empty();
    assert(word_over(empty, alphabet));
    assert(a.run(a.start(), empty) == a.start());
}

/// A letter of the alphabet leads from a reachable state to a reachable
/// state.
pub proof fn lemma_step_reachable(a: Automaton, alphabet: Seq<u8>, from: usize, letter: u8)
    requires
        a.reachable(alphabet, from),
        alphabet.contains(letter),
    ensures
        a.reachable(alphabet, a.next(from, letter)),
{
    let word = seq![letter];
    assert(word_over(word, alphabet));
    assert(word.drop_last().len() == 0);
    assert(a.run(from, word.drop_last()) == from);
    assert(word.last() == letter);
    assert(a.run(from, word) == a.next(from, letter));
    lemma_run_stays_inside(a, alphabet, from, word);
}

/// Without letters no word leads away from the start state.
pub proof fn lemma_no_letters_reach_start_only(a: Automaton, alphabet: Seq<u8>, state: usize)
    requires
        alphabet.len() == 0,
        a.reachable(alphabet, state),
    ensures
        state == a.start(),
{
    let word = choose|word: Seq<u8>| word_over(word, alphabet) && a.run(a.start(), word) == state;
    if word.len() > 0 {
        assert(alphabet.contains(word[0]));
    }
}

} // verus!
