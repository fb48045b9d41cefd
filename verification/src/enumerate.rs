//! Breadth-first discovery of the states that the alphabet reaches.

use crate::automaton::{lemma_start_reachable, lemma_step_reachable, word_over, Automaton};
use std::collections::HashSet;
use vstd::prelude::*;

verus! {

broadcast use vstd::std_specs::hash::group_hash_axioms;

/// `order` once the successors of `state` on the first `letters` letters of
/// the alphabet have been visited in turn: each one that the list does not
/// hold yet is put at its end.
pub open spec fn expand(
    a: Automaton,
    alphabet: Seq<u8>,
    order: Seq<usize>,
    state: usize,
    letters: nat,
) -> Seq<usize>
    decreases letters,
{
    if letters == 0 {
        order
    } else {
        let before = expand(a, alphabet, order, state, (letters - 1) as nat);
        let target = a.next(state, alphabet[letters - 1]);
        if before.contains(target) {
            before
        } else {
            before.push(target)
        }
    }
}

/// The list of discovered states once its first `rounds` entries have been
/// expanded: it begins as the start state alone, and each round expands the
/// next entry, if there is one.
pub open spec fn discovered(a: Automaton, alphabet: Seq<u8>, rounds: nat) -> Seq<usize>
    decreases rounds,
{
    if rounds == 0 {
        seq![a.start()]
    } else {
        let before = discovered(a, alphabet, (rounds - 1) as nat);
        if rounds - 1 < before.len() {
            expand(a, alphabet, before, before[rounds - 1], alphabet.len())
        } else {
            before
        }
    }
}

/// Whether `order` is the list in which a breadth-first search from the
/// start state, trying the letters in the order of the alphabet, discovers
/// the states: the list at the round in which nothing is left to expand.
pub open spec fn is_discovery_order(a: Automaton, alphabet: Seq<u8>, order: Seq<usize>) -> bool {
    order == discovered(a, alphabet, order.len())
}

/// The list in which a breadth-first search discovers the states.
pub open spec fn discovery_order(a: Automaton, alphabet: Seq<u8>) -> Seq<usize> {
    choose|order: Seq<usize>| is_discovery_order(a, alphabet, order)
}

/// Once a round finds nothing left to expand, no later round changes the
/// list.
pub proof fn lemma_discovered_stable(a: Automaton, alphabet: Seq<u8>, settled: nat, rounds: nat)
    requires
        discovered(a, alphabet, settled).len() <= settled,
        settled <= rounds,
    ensures
        discovered(a, alphabet, rounds) == discovered(a, alphabet, settled),
    decreases rounds,
{
    if settled < rounds {
        lemma_discovered_stable(a, alphabet, settled, (rounds - 1) as nat);
    }
}

/// There is at most one discovery order.
pub proof fn lemma_discovery_order_unique(
    a: Automaton,
    alphabet: Seq<u8>,
    first: Seq<usize>,
    second: Seq<usize>,
)
    requires
        is_discovery_order(a, alphabet, first),
        is_discovery_order(a, alphabet, second),
    ensures
        first == second,
{
    if first.len() <= second.len() {
        lemma_discovered_stable(a, alphabet, first.len(), second.len());
    } else {
        lemma_discovered_stable(a, alphabet, second.len(), first.len());
    }
}

/// Whether the successors of the first `rounds` entries of `order`, on every
/// letter, are in `order`.
pub open spec fn closed_upto(
    a: Automaton,
    alphabet: Seq<u8>,
    order: Seq<usize>,
    rounds: int,
) -> bool {
    forall|j: int, k: int|
        0 <= j < rounds && 0 <= k < alphabet.len() ==> order.contains(
            #[trigger] a.next(order[j], alphabet[k]),
        )
}

/// Whether every entry of `order` is a reachable state of the automaton.
pub open spec fn all_reachable(a: Automaton, alphabet: Seq<u8>, order: Seq<usize>) -> bool {
    forall|i: int|
        0 <= i < order.len() ==> a.has_state(#[trigger] order[i]) && a.reachable(
            alphabet,
            order[i],
        )
}

/// Whether `order` lists exactly the reachable states, each once, the start
/// state first.
pub open spec fn lists_reachable(a: Automaton, alphabet: Seq<u8>, order: Seq<usize>) -> bool {
    &&& order.len() > 0
    &&& order[0] == a.start()
    &&& order.no_duplicates()
    &&& forall|state: usize| order.contains(state) <==> a.reachable(alphabet, state)
}

/// A list that holds the start state and the successors of all its entries
/// holds every state that a word over the alphabet reaches.
pub proof fn lemma_closed_holds_run(
    a: Automaton,
    alphabet: Seq<u8>,
    order: Seq<usize>,
    word: Seq<u8>,
)
    requires
        order.contains(a.start()),
        closed_upto(a, alphabet, order, order.len() as int),
        word_over(word, alphabet),
    ensures
        order.contains(a.run(a.start(), word)),
    decreases word.len(),
{
    if word.len() > 0 {
        lemma_closed_holds_run(a, alphabet, order, word.drop_last());
        let before = a.run(a.start(), word.drop_last());
        let j = choose|j: int| 0 <= j < order.len() && order[j] == before;
        assert(alphabet.contains(word[word.len() - 1]));
        let k = choose|k: int| 0 <= k < alphabet.len() && alphabet[k] == word.last();
        assert(order.contains(a.next(order[j], alphabet[k])));
    }
}

/// Puts `state` at the end of `order` unless it has been seen.
pub fn visit(order: &mut Vec<usize>, seen: &mut HashSet<usize>, state: usize)
    requires
        forall|s: usize| old(seen)@.contains(s) <==> old(order)@.contains(s),
    ensures
        final(order)@ == if old(order)@.contains(state) {
            old(order)@
        } else {
            old(order)@.push(state)
        },
        forall|s: usize| final(seen)@.contains(s) <==> final(order)@.contains(s),
{
    if seen.insert(state) {
        order.push(state);
        assert(order@.last() == state);
        assert forall|s: usize| seen@.contains(s) <==> order@.contains(s) by {
            if old(order)@.contains(s) {
                let i = choose|i: int| 0 <= i < old(order)@.len() && old(order)@[i] == s;
                assert(order@[i] == s);
            }
        }
    }
}

/// The states that words over `alphabet` reach, in the order in which a
/// breadth-first search from the start state discovers them.
pub fn enumerate_states(automaton: &Automaton, alphabet: &[u8]) -> (order: Vec<usize>)
    ensures
        order@ == discovery_order(*automaton, alphabet@),
        is_discovery_order(*automaton, alphabet@, order@),
        lists_reachable(*automaton, alphabet@, order@),
        all_reachable(*automaton, alphabet@, order@),
{
    let start: usize = automaton.start_state();
    let mut order: Vec<usize> = Vec::new();
    let mut seen: HashSet<usize> = HashSet::new();
    order.push(start);
    seen.insert(start);
    let mut current_index: usize = 0;
    proof {
        lemma_start_reachable(*automaton, alphabet@);
        assert(order@ =~= seq![start]);
    }
    while current_index < order.len()
        invariant
            current_index <= order@.len(),
            order@.len() > 0,
            order@[0] == automaton.start(),
            order@.no_duplicates(),
            forall|s: usize| seen@.contains(s) <==> order@.contains(s),
            order@ == discovered(*automaton, alphabet@, current_index as nat),
            all_reachable(*automaton, alphabet@, order@),
            closed_upto(*automaton, alphabet@, order@, current_index as int),
        decreases 2 * (usize::MAX - order@.len()) + (order@.len() - current_index),
    {
        let current_state: usize = order[current_index];
        let ghost base = order@;
        let mut letter: usize = 0;
        while letter < alphabet.len()
            invariant
                letter <= alphabet@.len(),
                current_index < base.len(),
                current_state == base[current_index as int],
                base.len() <= order@.len(),
                forall|i: int| 0 <= i < base.len() ==> order@[i] == base[i],
                order@.no_duplicates(),
                forall|s: usize| seen@.contains(s) <==> order@.contains(s),
                order@ == expand(*automaton, alphabet@, base, current_state, letter as nat),
                all_reachable(*automaton, alphabet@, order@),
                forall|k: int|
                    0 <= k < letter ==> order@.contains(
                        #[trigger] automaton.next(current_state, alphabet@[k]),
                    ),
            decreases alphabet@.len() - letter,
        {
            let next_state: usize = automaton.next_state(current_state, alphabet[letter]);
            let ghost before = order@;
            proof {
                assert(order@[current_index as int] == current_state);
                assert(alphabet@.contains(alphabet@[letter as int]));
                lemma_step_reachable(
                    *automaton,
                    alphabet@,
                    current_state,
                    alphabet@[letter as int],
                );
            }
            visit(&mut order, &mut seen, next_state);
            proof {
                assert(forall|i: int| 0 <= i < before.len() ==> order@[i] == before[i]);
                assert(order@.contains(next_state)) by {
                    if before.contains(next_state) {
                        let i = choose|i: int| 0 <= i < before.len() && before[i] == next_state;
                        assert(order@[i] == next_state);
                    } else {
                        assert(order@[before.len() as int] == next_state);
                    }
                }
                assert forall|k: int| 0 <= k < letter + 1 implies order@.contains(
                    #[trigger] automaton.next(current_state, alphabet@[k]),
                ) by {
                    let target = automaton.next(current_state, alphabet@[k]);
                    if k < letter {
                        let i = choose|i: int| 0 <= i < before.len() && before[i] == target;
                        assert(order@[i] == target);
                    }
                }
            }
            letter += 1;
        }
        proof {
            assert forall|j: int, k: int|
                0 <= j < current_index + 1 && 0 <= k < alphabet@.len() implies order@.contains(
                #[trigger] automaton.next(order@[j], alphabet@[k]),
            ) by {
                let target = automaton.next(order@[j], alphabet@[k]);
                if j < current_index {
                    assert(base.contains(automaton.next(base[j], alphabet@[k])));
                    let i = choose|i: int| 0 <= i < base.len() && base[i] == target;
                    assert(order@[i] == target);
                }
            }
        }
        current_index += 1;
        assert(order.len() == order@.len());
    }
    proof {
        let a = *automaton;
        assert(order@.contains(a.start()));
        assert forall|state: usize| order@.contains(state) <==> a.reachable(
            alphabet@,
            state,
        ) by {
            if a.reachable(alphabet@, state) {
                let word = choose|word: Seq<u8>|
                    word_over(word, alphabet@) && a.run(a.start(), word) == state;
                lemma_closed_holds_run(a, alphabet@, order@, word);
            }
        }
        assert(is_discovery_order(a, alphabet@, order@));
        lemma_discovery_order_unique(a, alphabet@, order@, discovery_order(a, alphabet@));
    }
    order
}

/// The number of listed states is the number of reachable states.
pub proof fn lemma_order_counts_reachable(a: Automaton, alphabet: Seq<u8>, order: Seq<usize>)
    requires
        lists_reachable(a, alphabet, order),
    ensures
        Set::new(|state: usize| a.reachable(alphabet, state)).finite(),
        order.len() == Set::new(|state: usize| a.reachable(alphabet, state)).len(),
{
    let reached = Set::new(|state: usize| a.reachable(alphabet, state));
    assert(order.to_set() =~= reached);
    vstd::seq_lib::seq_to_set_is_finite(order);
    order.unique_seq_to_set();
}

} // verus!
