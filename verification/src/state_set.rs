//! A set of search nodes, told apart by their states alone.
use vstd::prelude::*;
use crate::children::as_search_nodes;
use crate::node::{SearchNode, state_of};
use crate::state::State;
use crate::state_trie::StateTrie;

verus! {

/// A set of the states of search nodes; the stats of an added node are not
/// kept.
pub struct StateSet {
    trie: StateTrie,
}

/// Whether the state of an added node was already in the set.
#[derive(Clone, Copy, Debug)]
pub struct DidAddendAlreadyExist {
    pub did_addend_already_exist: bool,
}

/// The largest search node plus one: a search node uses 56 bits.
pub const SEARCH_NODE_LIMIT: u64 = 0x100_0000_0000_0000;

/// The state of a search node, shifted down to the least significant bits.
pub open spec fn state_key(x: u64) -> u64 {
    x >> 16u64
}

/// The search node with state `key` and all stats zero.
pub open spec fn node_of_key(key: State) -> SearchNode {
    SearchNode((key.0 * 0x10000) as u64)
}

/// How a node's state and its key relate.
pub proof fn lemma_key_bits(k: u64, x: u64)
    by (bit_vector)
    ensures
        k < 0x100_0000_0000 && x == k * 0x10000 ==> x >> 16u64 == k && x & 0x00ff_ffff_ffff_0000u64
            == x,
        k < 0x100_0000_0000 && x == k << 16u64 ==> x == k * 0x10000,
        x < 0x100_0000_0000_0000 ==> x >> 16u64 < 0x100_0000_0000,
{
}

/// Search nodes with different states have different keys.
pub proof fn lemma_state_key_injective(a: u64, b: u64)
    requires
        a < SEARCH_NODE_LIMIT,
        b < SEARCH_NODE_LIMIT,
        state_of(a) != state_of(b),
    ensures
        state_key(a) != state_key(b),
{
    assert(a >> 16u64 == b >> 16u64 ==> a & 0x00ff_ffff_ffff_0000u64 == b
        & 0x00ff_ffff_ffff_0000u64) by (bit_vector)
        requires
            a < 0x100_0000_0000_0000,
            b < 0x100_0000_0000_0000,
    ;
}

impl StateSet {
    pub closed spec fn wf(self) -> bool {
        self.trie.wf()
    }

    /// The states of the set, shifted down to the least significant bits.
    pub closed spec fn view(self) -> Set<u64> {
        self.trie@
    }

    /// The members, as nodes with all stats zero, in ascending order.
    pub closed spec fn sorted(self) -> Seq<SearchNode> {
        self.trie.sorted_keys().map_values(|k: State| node_of_key(k))
    }

    /// The sorted nodes are in strictly ascending order, have all stats zero,
    /// and have exactly the states of the set.
    pub proof fn lemma_sorted(self)
        ensures
            forall|i: int, j: int|
                0 <= i < j < self.sorted().len() ==> self.sorted()[i].0 < self.sorted()[j].0,
            forall|i: int|
                0 <= i < self.sorted().len() ==> self@.contains(
                    state_key(#[trigger] self.sorted()[i].0),
                ) && state_of(self.sorted()[i].0) == self.sorted()[i].0,
            forall|k: u64|
                #[trigger] self@.contains(k) ==> exists|i: int|
                    0 <= i < self.sorted().len() && state_key(self.sorted()[i].0) == k,
    {
        self.trie.lemma_sorted_keys();
        let ks = self.trie.sorted_keys();
        let s = self.sorted();
        assert forall|i: int| 0 <= i < s.len() implies self@.contains(state_key(#[trigger] s[i].0))
            && state_of(s[i].0) == s[i].0 by {
            let k = ks[i].0;
            assert(self@.contains(k));
            assert(k < 0x100_0000_0000);
            let x = (k * 0x10000) as u64;
            lemma_key_bits(k, x);
        }
        assert forall|k: u64| #[trigger] self@.contains(k) implies exists|i: int|
            0 <= i < s.len() && state_key(s[i].0) == k by {
            let i = choose|i: int| 0 <= i < ks.len() && ks[i].0 == k;
            let x = (k * 0x10000) as u64;
            lemma_key_bits(k, x);
            assert(state_key(s[i].0) == k);
        }
        assert forall|i: int, j: int| 0 <= i < j < s.len() implies s[i].0 < s[j].0 by {
            assert(ks[i].0 < ks[j].0);
        }
    }

    /// Every key is a state, so the set is finite.
    pub proof fn lemma_bounded(self)
        ensures
            forall|k: u64| #[trigger] self@.contains(k) ==> k < crate::state::STATE_COUNT,
            self@.finite(),
            self@.len() <= crate::state::STATE_COUNT,
    {
        let all = Set::<u64>::range(0, crate::state::STATE_COUNT);
        assert(self@.subset_of(all));
        <u64 as vstd::set_lib::FiniteRange>::range_properties(0, crate::state::STATE_COUNT);
        vstd::set_lib::lemma_len_subset(self@, all);
    }

    pub fn empty() -> (r: Self)
        ensures
            r.wf(),
            r@ == Set::<u64>::empty(),
    {
        StateSet { trie: StateTrie::empty() }
    }

    /// Adds the state of `node`, and reports whether it was already in the
    /// set.
    pub fn add(&mut self, node: SearchNode) -> (r: DidAddendAlreadyExist)
        requires
            old(self).wf(),
            node.0 < SEARCH_NODE_LIMIT,
        ensures
            final(self).wf(),
            final(self)@ == old(self)@.insert(state_key(node.0)),
            r.did_addend_already_exist == old(self)@.contains(state_key(node.0)),
    {
        let x: u64 = node.0;
        proof {
            lemma_key_bits(0, x);
        }
        let existed = self.trie.add(node.0 >> 16u64);
        DidAddendAlreadyExist { did_addend_already_exist: existed }
    }

    /// The members, as nodes with all stats zero, in ascending order (see
    /// `lemma_sorted`).
    pub fn into_sorted_vec(self) -> (r: Vec<SearchNode>)
        requires
            self.wf(),
        ensures
            r@ == self.sorted(),
    {
        let mut keys: Vec<State> = Vec::new();
        self.trie.visit_in_order(&mut keys);
        let ghost ks = keys@;
        proof {
            self.trie.lemma_sorted_keys();
        }
        let mut out: Vec<SearchNode> = Vec::new();
        let mut i: usize = 0;
        while i < keys.len()
            invariant
                0 <= i <= keys.len(),
                keys@ == ks,
                ks == self.trie.sorted_keys(),
                forall|j: int| 0 <= j < ks.len() ==> self.trie@.contains(#[trigger] ks[j].0),
                out@ == ks.take(i as int).map_values(|k: State| node_of_key(k)),
            decreases keys.len() - i,
        {
            let k: u64 = keys[i].0;
            assert(self.trie@.contains(k));
            assert(k < 0x100_0000_0000);
            let x: u64 = k << 16u64;
            proof {
                lemma_key_bits(k, x);
            }
            out.push(SearchNode(x));
            assert(ks.take(i as int + 1) =~= ks.take(i as int).push(ks[i as int]));
            assert(out@ =~= ks.take(i as int + 1).map_values(|k: State| node_of_key(k)));
            i = i + 1;
        }
        assert(ks.take(ks.len() as int) =~= ks);
        out
    }

    /// This set with every state of `other` added.
    pub fn union(self, other: &Self) -> (r: Self)
        requires
            self.wf(),
            other.wf(),
        ensures
            r.wf(),
            r@ == self@.union(other@),
    {
        let mut out = self;
        out.trie.add_all(&other.trie);
        out
    }
}

} // verus!
