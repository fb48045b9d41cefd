//! Where the directory of each state lies in the data area.
//!
//! The directories follow one another in the order of the enumeration, the
//! first at cluster 2, each on as many clusters as its entries fill.

use crate::automaton::Automaton;
use crate::enumerate::{
    all_reachable, discovery_order, enumerate_states, lists_reachable,
};
use rand::seq::SliceRandom;
use crate::error::ImageError;
use crate::fat32::{blocks_for, UFat};
use std::collections::HashMap;
use vstd::prelude::*;

verus! {

broadcast use vstd::std_specs::hash::group_hash_axioms;

/// Where the directory of one state lies.
#[derive(Clone, Copy, Debug)]
pub struct StatePosInfo {
    /// The first cluster of the directory.
    pub block: UFat,
    /// The bytes that the entries of the directory fill.
    pub byte_sized: usize,
}

/// The states in the order of their directories, and where each directory
/// lies.
pub struct StateFatMap {
    /// The clusters that all directories fill together.
    pub blocks: UFat,
    /// The states, in the order in which their directories follow one another.
    pub order_list: Vec<usize>,
    /// The place of the directory of each state.
    pub pos_hash: HashMap<usize, StatePosInfo>,
}

/// The bytes of the entries in the directory of a state: one entry for
/// every letter, and one more for the marker file where there is one.
pub open spec fn dir_size(letters: nat, accepting: bool, nomatch: bool) -> nat {
    32 * (letters + if accepting || nomatch {
        1nat
    } else {
        0nat
    })
}

/// The first cluster that `pos` gives to the directory of `state`.
pub open spec fn block_in(pos: Map<usize, StatePosInfo>, state: usize) -> nat {
    pos[state].block as nat
}

/// The size in bytes that `pos` gives to the directory of `state`.
pub open spec fn bytes_in(pos: Map<usize, StatePosInfo>, state: usize) -> nat {
    pos[state].byte_sized as nat
}

/// The clusters that the directory of `state` fills.
pub open spec fn run_clusters(pos: Map<usize, StatePosInfo>, state: usize) -> nat {
    blocks_for(bytes_in(pos, state))
}

/// The clusters that the directories of the first `index` states of `order`
/// fill together.
pub open spec fn clusters_before(
    order: Seq<usize>,
    pos: Map<usize, StatePosInfo>,
    index: int,
) -> nat
    decreases index,
{
    if index <= 0 {
        0
    } else {
        clusters_before(order, pos, index - 1) + run_clusters(pos, order[index - 1])
    }
}

/// The clusters that the directories of the first `index` states fill
/// together, where `accepting` says of each state whether it accepts.
pub open spec fn planned_clusters(
    accepting: Seq<bool>,
    letters: nat,
    nomatch: bool,
    index: int,
) -> nat
    decreases index,
{
    if index <= 0 {
        0
    } else {
        planned_clusters(accepting, letters, nomatch, index - 1) + blocks_for(
            dir_size(letters, accepting[index - 1], nomatch),
        )
    }
}

/// More states fill no fewer clusters.
pub proof fn lemma_clusters_before_grows(
    order: Seq<usize>,
    pos: Map<usize, StatePosInfo>,
    low: int,
    high: int,
)
    requires
        low <= high,
    ensures
        clusters_before(order, pos, low) <= clusters_before(order, pos, high),
    decreases high - low,
{
    if low < high {
        lemma_clusters_before_grows(order, pos, low, high - 1);
    }
}

/// More states fill no fewer clusters.
pub proof fn lemma_planned_clusters_grows(
    accepting: Seq<bool>,
    letters: nat,
    nomatch: bool,
    low: int,
    high: int,
)
    requires
        low <= high,
    ensures
        planned_clusters(accepting, letters, nomatch, low) <= planned_clusters(
            accepting,
            letters,
            nomatch,
            high,
        ),
    decreases high - low,
{
    if low < high {
        lemma_planned_clusters_grows(accepting, letters, nomatch, low, high - 1);
    }
}

/// Two tables that agree on the first `index` states give them the same
/// clusters.
pub proof fn lemma_clusters_before_agree(
    order: Seq<usize>,
    first: Map<usize, StatePosInfo>,
    second: Map<usize, StatePosInfo>,
    index: int,
)
    requires
        forall|j: int| 0 <= j < index ==> first[#[trigger] order[j]] == second[order[j]],
    ensures
        clusters_before(order, first, index) == clusters_before(order, second, index),
    decreases index,
{
    if index > 0 {
        lemma_clusters_before_agree(order, first, second, index - 1);
    }
}

impl StateFatMap {
    /// The first cluster of the directory of `state`.
    pub open spec fn first_cluster(&self, state: usize) -> nat {
        block_in(self.pos_hash@, state)
    }

    /// The size in bytes of the directory of `state`.
    pub open spec fn dir_bytes(&self, state: usize) -> nat {
        bytes_in(self.pos_hash@, state)
    }

    /// The clusters that the directory of `state` fills.
    pub open spec fn cluster_run(&self, state: usize) -> nat {
        run_clusters(self.pos_hash@, state)
    }

    /// No state is listed twice, the table holds the listed states and no
    /// others, the directories follow one another from cluster 2 on in the
    /// order of the list, and the cluster behind the last fits in 32 bits.
    pub open spec fn wf(&self) -> bool {
        &&& self.order_list@.no_duplicates()
        &&& forall|state: usize|
            self.pos_hash@.dom().contains(state) <==> self.order_list@.contains(state)
        &&& forall|i: int|
            0 <= i < self.order_list@.len() ==> #[trigger] self.first_cluster(self.order_list@[i])
                == 2 + clusters_before(self.order_list@, self.pos_hash@, i)
        &&& self.blocks == clusters_before(
            self.order_list@,
            self.pos_hash@,
            self.order_list@.len() as int,
        )
        &&& 2 + self.blocks <= u32::MAX
    }

    /// The list holds the states that `alphabet` reaches in `a`, the start
    /// state first, and each directory has room for its entries and no more.
    pub open spec fn lays_out(&self, a: Automaton, alphabet: Seq<u8>, nomatch: bool) -> bool {
        &&& self.wf()
        &&& lists_reachable(a, alphabet, self.order_list@)
        &&& all_reachable(a, alphabet, self.order_list@)
        &&& forall|i: int|
            0 <= i < self.order_list@.len() ==> #[trigger] self.dir_bytes(self.order_list@[i])
                == dir_size(alphabet.len(), a.accepts(self.order_list@[i]), nomatch)
    }
}

/// The directory of the first state begins at cluster 2.
pub proof fn lemma_first_state_at_root(map: StateFatMap)
    requires
        map.wf(),
        map.order_list@.len() > 0,
    ensures
        map.first_cluster(map.order_list@[0]) == 2,
{
    assert(map.first_cluster(map.order_list@[0]) == 2 + clusters_before(
        map.order_list@,
        map.pos_hash@,
        0,
    ));
}

/// The directories of two states share no cluster: that of the state listed
/// first ends before the other begins.
pub proof fn lemma_runs_disjoint(map: StateFatMap, i: int, j: int)
    requires
        map.wf(),
        0 <= i < j < map.order_list@.len(),
    ensures
        map.order_list@[i] != map.order_list@[j],
        map.first_cluster(map.order_list@[i]) + map.cluster_run(map.order_list@[i])
            <= map.first_cluster(map.order_list@[j]),
        map.first_cluster(map.order_list@[j]) + map.cluster_run(map.order_list@[j]) <= 2
            + map.blocks,
{
    let order = map.order_list@;
    lemma_clusters_before_grows(order, map.pos_hash@, i + 1, j);
    lemma_clusters_before_grows(order, map.pos_hash@, j + 1, order.len() as int);
    assert(map.first_cluster(order[i]) == 2 + clusters_before(order, map.pos_hash@, i));
    assert(map.first_cluster(order[j]) == 2 + clusters_before(order, map.pos_hash@, j));
}

/// Lays the directories of the states of `order` out from cluster 2 on.
/// `accepting` says of each state whether it accepts, `letters` counts the
/// letters of the alphabet, and with `nomatch` the rejecting states get a
/// marker file too. Fails where a cluster number would pass 32 bits.
pub fn layout_states(
    order: Vec<usize>,
    accepting: &Vec<bool>,
    letters: usize,
    nomatch: bool,
) -> (planned: Result<StateFatMap, ImageError>)
    requires
        order@.no_duplicates(),
        accepting@.len() == order@.len(),
        32 * (letters + 1) <= usize::MAX,
    ensures
        planned is Ok <==> 2 + planned_clusters(
            accepting@,
            letters as nat,
            nomatch,
            order@.len() as int,
        ) <= u32::MAX,
        planned matches Err(error) ==> error is CapacityExceeded,
        planned matches Ok(map) ==> {
            &&& map.wf()
            &&& map.order_list@ == order@
            &&& map.blocks == planned_clusters(
                accepting@,
                letters as nat,
                nomatch,
                order@.len() as int,
            )
            &&& forall|i: int|
                0 <= i < order@.len() ==> #[trigger] map.dir_bytes(order@[i]) == dir_size(
                    letters as nat,
                    accepting@[i],
                    nomatch,
                )
        },
{
    let nomatch_len: usize = (letters + if nomatch {
        1
    } else {
        0
    }) * 32;
    let match_len: usize = (letters + 1) * 32;
    let mut current_block: UFat = 2;
    let mut pos_hash: HashMap<usize, StatePosInfo> = HashMap::new();
    let mut index: usize = 0;
    while index < order.len()
        invariant
            index <= order@.len(),
            accepting@.len() == order@.len(),
            order@.no_duplicates(),
            nomatch_len == dir_size(letters as nat, false, nomatch),
            match_len == dir_size(letters as nat, true, nomatch),
            current_block == 2 + clusters_before(order@, pos_hash@, index as int),
            current_block == 2 + planned_clusters(
                accepting@,
                letters as nat,
                nomatch,
                index as int,
            ),
            forall|state: usize|
                pos_hash@.dom().contains(state) <==> exists|j: int|
                    0 <= j < index && order@[j] == state,
            forall|j: int|
                0 <= j < index ==> #[trigger] block_in(pos_hash@, order@[j]) == 2 + clusters_before(
                    order@,
                    pos_hash@,
                    j,
                ),
            forall|j: int|
                0 <= j < index ==> #[trigger] bytes_in(pos_hash@, order@[j]) == dir_size(
                    letters as nat,
                    accepting@[j],
                    nomatch,
                ),
        decreases order@.len() - index,
    {
        let current_state: usize = order[index];
        let size: usize = if accepting[index] {
            match_len
        } else {
            nomatch_len
        };
        let ghost before = pos_hash@;
        pos_hash.insert(current_state, StatePosInfo { block: current_block, byte_sized: size });
        proof {
            assert forall|j: int| 0 <= j < index implies before[#[trigger] order@[j]]
                == pos_hash@[order@[j]] by {
                assert(order@[j] != order@[index as int]);
            }
            lemma_clusters_before_agree(order@, before, pos_hash@, index as int);
            assert forall|j: int| 0 <= j < index + 1 implies #[trigger] block_in(
                pos_hash@,
                order@[j],
            ) == 2 + clusters_before(order@, pos_hash@, j) by {
                lemma_clusters_before_agree(order@, before, pos_hash@, j);
                if j < index {
                    assert(block_in(before, order@[j]) == 2 + clusters_before(order@, before, j));
                }
            }
            assert forall|j: int| 0 <= j < index + 1 implies #[trigger] bytes_in(
                pos_hash@,
                order@[j],
            ) == dir_size(letters as nat, accepting@[j], nomatch) by {
                if j < index {
                    assert(bytes_in(before, order@[j]) == dir_size(
                        letters as nat,
                        accepting@[j],
                        nomatch,
                    ));
                }
            }
            assert forall|state: usize|
                pos_hash@.dom().contains(state) <==> exists|j: int|
                    0 <= j < index + 1 && order@[j] == state by {
                if pos_hash@.dom().contains(state) {
                    if state == current_state {
                        assert(order@[index as int] == state);
                    } else {
                        let j = choose|j: int| 0 <= j < index && order@[j] == state;
                        assert(0 <= j < index + 1 && order@[j] == state);
                    }
                }
            }
        }
        let run: usize = size / 512 + if size % 512 != 0 {
            1
        } else {
            0
        };
        assert(run == blocks_for(size as nat));
        if run > (u32::MAX - current_block) as usize {
            proof {
                lemma_planned_clusters_grows(
                    accepting@,
                    letters as nat,
                    nomatch,
                    index + 1,
                    order@.len() as int,
                );
            }
            return Err(ImageError::CapacityExceeded);
        }
        current_block = current_block + run as u32;
        index += 1;
    }
    proof {
        assert forall|state: usize| pos_hash@.dom().contains(state) <==> order@.contains(
            state,
        ) by {
            if order@.contains(state) {
                let j = choose|j: int| 0 <= j < order@.len() && order@[j] == state;
                assert(0 <= j < index && order@[j] == state);
            }
        }
    }
    Ok(StateFatMap { blocks: current_block - 2, order_list: order, pos_hash })
}

/// The clusters that the directories of the first `index` states of `order`
/// fill together, each sized by whether the automaton accepts the state.
pub open spec fn state_clusters(
    a: Automaton,
    letters: nat,
    nomatch: bool,
    order: Seq<usize>,
    index: int,
) -> nat
    decreases index,
{
    if index <= 0 {
        0
    } else {
        state_clusters(a, letters, nomatch, order, index - 1) + blocks_for(
            dir_size(letters, a.accepts(order[index - 1]), nomatch),
        )
    }
}

/// The clusters that the directories of all reachable states fill together.
pub open spec fn reachable_clusters(a: Automaton, alphabet: Seq<u8>, nomatch: bool) -> nat {
    state_clusters(
        a,
        alphabet.len(),
        nomatch,
        discovery_order(a, alphabet),
        discovery_order(a, alphabet).len() as int,
    )
}

/// Where `accepting` says of each state whether the automaton accepts it,
/// both ways of counting clusters agree.
pub proof fn lemma_planned_is_state_clusters(
    a: Automaton,
    letters: nat,
    nomatch: bool,
    order: Seq<usize>,
    accepting: Seq<bool>,
    index: int,
)
    requires
        index <= order.len() == accepting.len(),
        forall|i: int| 0 <= i < order.len() ==> accepting[i] == a.accepts(#[trigger] order[i]),
    ensures
        planned_clusters(accepting, letters, nomatch, index) == state_clusters(
            a,
            letters,
            nomatch,
            order,
            index,
        ),
    decreases index,
{
    if index > 0 {
        lemma_planned_is_state_clusters(a, letters, nomatch, order, accepting, index - 1);
    }
}

/// Two lists that agree on their first `index` states give them the same
/// clusters.
proof fn lemma_state_clusters_prefix(
    a: Automaton,
    letters: nat,
    nomatch: bool,
    first: Seq<usize>,
    second: Seq<usize>,
    index: int,
)
    requires
        forall|i: int| 0 <= i < index ==> first[i] == second[i],
    ensures
        state_clusters(a, letters, nomatch, first, index) == state_clusters(
            a,
            letters,
            nomatch,
            second,
            index,
        ),
    decreases index,
{
    if index > 0 {
        lemma_state_clusters_prefix(a, letters, nomatch, first, second, index - 1);
    }
}

/// Taking one state out of a list takes the clusters of its directory out
/// of the sum.
proof fn lemma_state_clusters_remove(
    a: Automaton,
    letters: nat,
    nomatch: bool,
    order: Seq<usize>,
    taken: int,
    index: int,
)
    requires
        0 <= taken < index <= order.len(),
    ensures
        state_clusters(a, letters, nomatch, order, index) == state_clusters(
            a,
            letters,
            nomatch,
            order.remove(taken),
            index - 1,
        ) + blocks_for(dir_size(letters, a.accepts(order[taken]), nomatch)),
    decreases index,
{
    if index == taken + 1 {
        lemma_state_clusters_prefix(a, letters, nomatch, order, order.remove(taken), taken);
    } else {
        lemma_state_clusters_remove(a, letters, nomatch, order, taken, index - 1);
        assert(order.remove(taken)[index - 2] == order[index - 1]);
    }
}

/// The clusters that the directories of a list of states fill together do
/// not depend on the order of the list.
pub proof fn lemma_state_clusters_permutation(
    a: Automaton,
    letters: nat,
    nomatch: bool,
    first: Seq<usize>,
    second: Seq<usize>,
)
    requires
        first.to_multiset() == second.to_multiset(),
    ensures
        first.len() == second.len(),
        state_clusters(a, letters, nomatch, first, first.len() as int) == state_clusters(
            a,
            letters,
            nomatch,
            second,
            second.len() as int,
        ),
    decreases first.len(),
{
    first.to_multiset_ensures();
    second.to_multiset_ensures();
    assert(first.len() == first.to_multiset().len());
    assert(second.len() == second.to_multiset().len());
    if first.len() > 0 {
        let last = first.last();
        assert(first.contains(last));
        assert(second.to_multiset().count(last) > 0);
        assert(second.contains(last));
        let taken = choose|i: int| 0 <= i < second.len() && second[i] == last;
        let shorter = first.drop_last();
        assert(shorter =~= first.remove(first.len() - 1));
        assert(first.remove(first.len() - 1).to_multiset() =~= first.to_multiset().remove(last));
        assert(second.remove(taken).to_multiset() =~= second.to_multiset().remove(last));
        assert(shorter.to_multiset() =~= second.remove(taken).to_multiset());
        lemma_state_clusters_permutation(a, letters, nomatch, shorter, second.remove(taken));
        lemma_state_clusters_remove(a, letters, nomatch, second, taken, second.len() as int);
        lemma_state_clusters_prefix(a, letters, nomatch, first, shorter, first.len() - 1);
    }
}

/// Calls `SliceRandom::shuffle` with the generator of the thread. Trusted:
/// the states are the same afterwards, each as often as before; nothing is
/// claimed about their order.
#[verifier::external_body]
fn shuffle_states(states: &mut Vec<usize>)
    ensures
        final(states)@.to_multiset() == old(states)@.to_multiset(),
{
    states.shuffle(&mut rand::thread_rng());
}

/// Puts all entries but the first into a random order.
pub fn shuffle_keeping_first(order: &mut Vec<usize>)
    requires
        old(order)@.len() > 0,
    ensures
        final(order)@.len() == old(order)@.len(),
        final(order)@[0] == old(order)@[0],
        final(order)@.to_multiset() == old(order)@.to_multiset(),
{
    let mut tail = order.split_off(1);
    let ghost head = order@;
    let ghost before = tail@;
    shuffle_states(&mut tail);
    let ghost after = tail@;
    order.append(&mut tail);
    proof {
        assert(old(order)@ =~= head + before);
        vstd::seq_lib::lemma_multiset_commutative(head, before);
        vstd::seq_lib::lemma_multiset_commutative(head, after);
        before.to_multiset_ensures();
        after.to_multiset_ensures();
        assert(before.len() == before.to_multiset().len());
        assert(after.len() == after.to_multiset().len());
    }
}

/// Whether each state is accepting.
pub fn acceptance(automaton: &Automaton, order: &Vec<usize>) -> (accepting: Vec<bool>)
    ensures
        accepting@.len() == order@.len(),
        forall|i: int|
            0 <= i < order@.len() ==> accepting@[i] == automaton.accepts(#[trigger] order@[i]),
{
    let mut accepting: Vec<bool> = Vec::new();
    let mut index: usize = 0;
    while index < order.len()
        invariant
            index <= order@.len(),
            accepting@.len() == index,
            forall|i: int|
                0 <= i < index ==> accepting@[i] == automaton.accepts(#[trigger] order@[i]),
        decreases order@.len() - index,
    {
        accepting.push(automaton.is_match_state(order[index]));
        index += 1;
    }
    accepting
}

/// Enumerates the states that `validlist` reaches and lays their
/// directories out from cluster 2 on, in the order of discovery or, with
/// `randomize`, with all but the start state in a random order. Fails where
/// a cluster number would pass 32 bits.
pub fn determine_state_positions(
    automaton: &Automaton,
    validlist: &[u8],
    nomatch: bool,
    randomize: bool,
) -> (positions: Result<StateFatMap, ImageError>)
    requires
        32 * (validlist@.len() + 1) <= usize::MAX,
    ensures
        positions is Ok <==> 2 + reachable_clusters(*automaton, validlist@, nomatch) <= u32::MAX,
        positions matches Err(error) ==> error is CapacityExceeded,
        positions matches Ok(map) ==> {
            &&& map.lays_out(*automaton, validlist@, nomatch)
            &&& map.blocks == reachable_clusters(*automaton, validlist@, nomatch)
            &&& map.order_list@.to_multiset() == discovery_order(
                *automaton,
                validlist@,
            ).to_multiset()
            &&& !randomize ==> map.order_list@ == discovery_order(*automaton, validlist@)
        },
{
    let mut order = enumerate_states(automaton, validlist);
    let ghost found = order@;
    if randomize {
        shuffle_keeping_first(&mut order);
    }
    proof {
        lemma_permutation_lists_reachable(*automaton, validlist@, found, order@);
    }
    let accepting = acceptance(automaton, &order);
    proof {
        lemma_planned_is_state_clusters(
            *automaton,
            validlist@.len(),
            nomatch,
            order@,
            accepting@,
            order@.len() as int,
        );
        lemma_state_clusters_permutation(*automaton, validlist@.len(), nomatch, order@, found);
    }
    let ghost listed = order@;
    let planned = layout_states(order, &accepting, validlist.len(), nomatch);
    proof {
        if planned is Ok {
            let map = planned->Ok_0;
            assert forall|i: int| 0 <= i < listed.len() implies #[trigger] map.dir_bytes(listed[i])
                == dir_size(validlist@.len(), automaton.accepts(listed[i]), nomatch) by {}
        }
    }
    planned
}

/// A list that holds the reachable states, each once, still does so in
/// another order that keeps the start state first.
pub proof fn lemma_permutation_lists_reachable(
    a: Automaton,
    alphabet: Seq<u8>,
    first: Seq<usize>,
    second: Seq<usize>,
)
    requires
        lists_reachable(a, alphabet, first),
        all_reachable(a, alphabet, first),
        first.to_multiset() == second.to_multiset(),
        second.len() > 0 ==> second[0] == first[0],
    ensures
        lists_reachable(a, alphabet, second),
        all_reachable(a, alphabet, second),
{
    first.to_multiset_ensures();
    second.to_multiset_ensures();
    assert(first.len() == first.to_multiset().len());
    assert(second.len() == second.to_multiset().len());
    first.lemma_multiset_has_no_duplicates();
    second.lemma_multiset_has_no_duplicates_conv();
    assert forall|state: usize| second.contains(state) <==> a.reachable(alphabet, state) by {
        assert(second.contains(state) <==> second.to_multiset().count(state) > 0);
        assert(first.contains(state) <==> first.to_multiset().count(state) > 0);
    }
    assert forall|i: int| 0 <= i < second.len() implies a.has_state(#[trigger] second[i])
        && a.reachable(alphabet, second[i]) by {
        assert(second.contains(second[i]));
        assert(first.to_multiset().count(second[i]) > 0);
        assert(first.contains(second[i]));
        let j = choose|j: int| 0 <= j < first.len() && first[j] == second[i];
        assert(a.has_state(first[j]));
    }
}

} // verus!
