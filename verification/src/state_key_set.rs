//! A set of states (without stats).
use vstd::prelude::*;
use crate::state::{State, STATE_COUNT, is_state};
use crate::state_trie::StateTrie;

verus! {

/// A set of states.
pub struct StateSet {
    trie: StateTrie,
}

/// Whether an added state was already in the set.
#[derive(Clone, Copy, Debug)]
pub struct DidAddendAlreadyExist {
    pub did_addend_already_exist: bool,
}

impl StateSet {
    pub closed spec fn wf(self) -> bool {
        self.trie.wf()
    }

    /// The states of the set.
    pub closed spec fn view(self) -> Set<u64> {
        self.trie@
    }

    /// The states of the set, in ascending order.
    pub closed spec fn sorted(self) -> Seq<State> {
        self.trie.sorted_keys()
    }

    /// The sorted states are in strictly ascending order, and are exactly
    /// the states of the set.
    pub proof fn lemma_sorted(self)
        ensures
            forall|i: int, j: int|
                0 <= i < j < self.sorted().len() ==> self.sorted()[i].0 < self.sorted()[j].0,
            forall|i: int|
                0 <= i < self.sorted().len() ==> self@.contains(#[trigger] self.sorted()[i].0),
            forall|k: u64|
                #[trigger] self@.contains(k) ==> exists|i: int|
                    0 <= i < self.sorted().len() && self.sorted()[i].0 == k,
    {
        self.trie.lemma_sorted_keys();
        assert forall|k: u64| #[trigger] self@.contains(k) implies exists|i: int|
            0 <= i < self.sorted().len() && self.sorted()[i].0 == k by {
            assert(self.trie@.contains(k));
            let i = choose|i: int|
                0 <= i < self.trie.sorted_keys().len() && self.trie.sorted_keys()[i].0 == k;
            assert(self.sorted()[i].0 == k);
        }
    }

    /// Every member is a state, so the set is finite.
    pub proof fn lemma_bounded(self)
        ensures
            forall|k: u64| #[trigger] self@.contains(k) ==> k < STATE_COUNT,
            self@.finite(),
            self@.len() <= STATE_COUNT,
    {
        let all = Set::<u64>::range(0, STATE_COUNT);
        assert(self@.subset_of(all));
        <u64 as vstd::set_lib::FiniteRange>::range_properties(0, STATE_COUNT);
        vstd::set_lib::lemma_len_subset(self@, all);
    }

    pub fn empty() -> (r: Self)
        ensures
            r.wf(),
            r@ == Set::<u64>::empty(),
    {
        StateSet { trie: StateTrie::empty() }
    }

    /// Adds `state`, and reports whether it was already in the set.
    pub fn add(&mut self, state: State) -> (r: DidAddendAlreadyExist)
        requires
            old(self).wf(),
            is_state(state),
        ensures
            final(self).wf(),
            final(self)@ == old(self)@.insert(state.0),
            r.did_addend_already_exist == old(self)@.contains(state.0),
    {
        let existed = self.trie.add(state.0);
        DidAddendAlreadyExist { did_addend_already_exist: existed }
    }

    /// Appends the states in ascending order (see `lemma_sorted`).
    pub fn visit_in_order(&self, out: &mut Vec<State>)
        requires
            self.wf(),
        ensures
            final(out)@ == old(out)@ + self.sorted(),
    {
        self.trie.visit_in_order(out);
    }

    /// The states in ascending order (see `lemma_sorted`).
    pub fn to_sorted_vec(&self) -> (r: Vec<State>)
        requires
            self.wf(),
        ensures
            r@ == self.sorted(),
    {
        let mut raw: Vec<State> = Vec::new();
        self.visit_in_order(&mut raw);
        assert(raw@ =~= self.sorted());
        raw
    }

    /// This set with every state of `other` added.
    pub fn union(self, other: &Self) -> (r: Self)
        requires
            self.wf(),
            other.wf(),
        ensures
            r.wf(),
            r@ == self@.union(other@),
    {
        let mut out = self;
        out.trie.add_all(&other.trie);
        out
    }
}

} // verus!
