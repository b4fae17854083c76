//! Every state that can be reached from a starting position.
use vstd::prelude::*;
use crate::children::children_of;
use crate::node::{SearchNode, STATE_MASK, state_of};
use crate::state::{State, STATE_COUNT};
use crate::state_set::{StateSet, node_of_key, state_key};

verus! {

/// The key of the state of node `x`.
pub open spec fn key_of(x: u64) -> u64 {
    state_key(state_of(x))
}

/// The keys of the children of the state with key `k`.
#[verifier::opaque]
pub open spec fn child_keys(k: u64) -> Seq<u64> {
    children_of(node_of_key(State(k)).0).map_values(|c: u64| key_of(c))
}

/// Whether each key of `w` after the first is the key of a child of the key
/// before it.
pub open spec fn is_walk(w: Seq<u64>) -> bool {
    forall|i: int| 0 <= i < w.len() - 1 ==> #[trigger] child_keys(w[i]).contains(w[i + 1])
}

/// Whether some sequence of moves leads from the state with key `from` to
/// the state with key `to`.
pub open spec fn reaches(from: u64, to: u64) -> bool {
    exists|w: Seq<u64>| w.len() > 0 && w[0] == from && w.last() == to && #[trigger] is_walk(w)
}

/// What masking a node down to its state gives.
pub proof fn lemma_state_bits(c: u64)
    by (bit_vector)
    ensures
        c & 0x00ff_ffff_ffff_0000u64 < 0x100_0000_0000_0000,
        (c & 0x00ff_ffff_ffff_0000u64) >> 16u64 < 0x100_0000_0000,
        (c & 0x00ff_ffff_ffff_0000u64) & 0x00ff_ffff_ffff_0000u64 == c & 0x00ff_ffff_ffff_0000u64,
{
}

/// A set that holds `w[0]` and the keys of the children of each of its keys
/// holds the end of walk `w`.
proof fn lemma_closed_set_holds_walk(s: Set<u64>, w: Seq<u64>)
    requires
        w.len() > 0,
        is_walk(w),
        s.contains(w[0]),
        forall|k: u64, j: int|
            #![trigger s.contains(k), child_keys(k)[j]]
            s.contains(k) && 0 <= j < child_keys(k).len() ==> s.contains(child_keys(k)[j]),
    ensures
        s.contains(w.last()),
    decreases w.len(),
{
    if w.len() > 1 {
        let v = w.drop_last();
        assert(is_walk(v)) by {
            assert forall|i: int| 0 <= i < v.len() - 1 implies #[trigger] child_keys(
                v[i],
            ).contains(v[i + 1]) by {
                assert(child_keys(w[i]).contains(w[i + 1]));
            }
        }
        lemma_closed_set_holds_walk(s, v);
        let n = w.len() - 2;
        assert(child_keys(w[n]).contains(w[n + 1]));
        let j = choose|j: int| 0 <= j < child_keys(w[n]).len() && child_keys(w[n])[j] == w[n + 1];
        assert(s.contains(child_keys(w[n])[j]));
    }
}

/// A walk to `k` followed by a step to a child of `k` is a walk.
pub proof fn lemma_extend_reach(from: u64, k: u64, c: u64)
    requires
        reaches(from, k),
        child_keys(k).contains(c),
    ensures
        reaches(from, c),
{
    let w = choose|w: Seq<u64>| w.len() > 0 && w[0] == from && w.last() == k && #[trigger] is_walk(w);
    let w2 = w.push(c);
    assert forall|i: int| 0 <= i < w2.len() - 1 implies #[trigger] child_keys(w2[i]).contains(
        w2[i + 1],
    ) by {
        if i < w.len() - 1 {
            assert(child_keys(w[i]).contains(w[i + 1]));
        }
    }
    assert(is_walk(w2));
}

/// Every state reachable from the state of `initial_state`, in ascending
/// order, each as a node with all state stats zero.
#[verifier::spinoff_prover]
#[verifier::rlimit(40)]
pub fn reachable_states(initial_state: SearchNode) -> (r: Vec<SearchNode>)
    ensures
        forall|i: int, j: int| 0 <= i < j < r@.len() ==> r@[i].0 < r@[j].0,
        forall|i: int| 0 <= i < r@.len() ==> state_of((#[trigger] r@[i]).0) == r@[i].0,
        forall|i: int|
            0 <= i < r@.len() ==> reaches(key_of(initial_state.0), key_of((#[trigger] r@[i]).0)),
        forall|k: u64|
            reaches(key_of(initial_state.0), k) ==> exists|i: int|
                0 <= i < r@.len() && key_of(#[trigger] r@[i].0) == k,
        crate::lineage::is_valid(initial_state.0) && crate::node::built(initial_state.0)
            == initial_state.0 && initial_state.0 < 0x100_0000_0000_0000
            ==> crate::retrograde::all_reachable(r@),
{
    let ghost k0 = key_of(initial_state.0);
    let mut reachable = StateSet::empty();
    let start: u64 = initial_state.0 & STATE_MASK;
    proof {
        lemma_state_bits(initial_state.0);
    }
    reachable.add(SearchNode(start));
    let mut stack: Vec<u64> = Vec::new();
    stack.push(start >> 16u64);
    proof {
        let w = seq![k0];
        assert(is_walk(w));
        assert(reaches(k0, k0));
        assert(stack@[0] == k0);
        assert forall|k: u64| #[trigger] reachable@.contains(k) implies k == k0 && stack@.contains(k) by {
            assert(stack@[0] == k0);
        }
    }
    while stack.len() > 0
        invariant
            reachable.wf(),
            reachable@.contains(k0),
            forall|k: u64| #[trigger] reachable@.contains(k) ==> reaches(k0, k),
            forall|j: int| 0 <= j < stack@.len() ==> reachable@.contains(#[trigger] stack@[j]),
            forall|k: u64, j: int|
                #![trigger reachable@.contains(k), child_keys(k)[j]]
                reachable@.contains(k) && !stack@.contains(k) && 0 <= j < child_keys(k).len()
                    ==> reachable@.contains(child_keys(k)[j]),
        decreases STATE_COUNT - reachable@.len(), stack@.len(),
    {
        proof {
            reachable.lemma_bounded();
        }
        let ghost stack_before_pop = stack@;
        let k = stack.pop().unwrap();
        let ghost stack_after_pop = stack@;
        proof {
            assert(stack_before_pop == stack_after_pop.push(k));
            assert forall|k2: u64| k2 != k && !stack_after_pop.contains(k2) implies !stack_before_pop.contains(k2) by {
                if stack_before_pop.contains(k2) {
                    let q = choose|q: int| 0 <= q < stack_before_pop.len() && stack_before_pop[q] == k2;
                    assert(q < stack_after_pop.len());
                    assert(stack_after_pop[q] == k2);
                }
            }
        }
        assert(reachable@.contains(k));
        assert(k < STATE_COUNT);
        let node_bits: u64 = k << 16u64;
        proof {
            crate::state_set::lemma_key_bits(k, node_bits);
        }
        let children = SearchNode(node_bits).children();
        assert(children@ == crate::children::as_search_nodes(children_of(node_of_key(State(k)).0)));
        let ghost len0 = reachable@.len();
        let ghost cks = child_keys(k);
        assert(cks.len() == children@.len()) by {
            reveal(child_keys);
        }
        let mut idx: usize = 0;
        while idx < children.len()
            invariant
                0 <= idx <= children@.len(),
                children@ == crate::children::as_search_nodes(children_of(node_of_key(State(k)).0)),
                cks == child_keys(k),
                cks.len() == children@.len(),
                reachable.wf(),
                reachable@.finite(),
                reachable@.len() >= len0,
                stack@.len() - stack_after_pop.len() == reachable@.len() - len0,
                stack@.len() >= stack_after_pop.len(),
                reachable@.contains(k0),
                reachable@.contains(k),
                reaches(k0, k),
                forall|k2: u64| #[trigger] reachable@.contains(k2) ==> reaches(k0, k2),
                forall|j: int| 0 <= j < stack@.len() ==> reachable@.contains(#[trigger] stack@[j]),
                forall|j: int|
                    0 <= j < stack_after_pop.len() ==> stack@[j] == #[trigger] stack_after_pop[j],
                forall|k2: u64, j: int|
                    #![trigger reachable@.contains(k2), child_keys(k2)[j]]
                    reachable@.contains(k2) && !stack@.contains(k2) && k2 != k && 0 <= j
                        < child_keys(k2).len() ==> reachable@.contains(child_keys(k2)[j]),
                forall|j: int| 0 <= j < idx ==> reachable@.contains(#[trigger] cks[j]),
            decreases children@.len() - idx,
        {
            let c: u64 = children[idx].0;
            let masked: u64 = c & STATE_MASK;
            let ghost kc = key_of(c);
            proof {
                lemma_state_bits(c);
                assert(cks[idx as int] == kc) by {
                    reveal(child_keys);
                }
                assert(cks.contains(kc));
                lemma_extend_reach(k0, k, kc);
            }
            let ghost st0 = stack@;
            let ghost r0 = reachable@;
            let existed = reachable.add(SearchNode(masked));
            if !existed.did_addend_already_exist {
                stack.push(masked >> 16u64);
            }
            proof {
                assert(state_key(masked) == kc);
                assert(reachable@ == r0.insert(kc));
                assert forall|q: int| 0 <= q < st0.len() implies stack@[q] == #[trigger] st0[q] by {}
                assert forall|k2: u64, j: int|
                    #![trigger reachable@.contains(k2), child_keys(k2)[j]]
                    reachable@.contains(k2) && !stack@.contains(k2) && k2 != k && 0 <= j
                        < child_keys(k2).len() implies reachable@.contains(child_keys(k2)[j]) by {
                    if k2 == kc && !existed.did_addend_already_exist {
                        assert(stack@[stack@.len() - 1] == kc);
                    }
                    assert(r0.contains(k2));
                    if st0.contains(k2) {
                        let q = choose|q: int| 0 <= q < st0.len() && st0[q] == k2;
                        assert(stack@[q] == k2);
                    }
                    assert(r0.contains(child_keys(k2)[j]));
                }
            }
            idx = idx + 1;
        }
        proof {
            reachable.lemma_bounded();
            assert forall|k2: u64, j: int|
                #![trigger reachable@.contains(k2), child_keys(k2)[j]]
                reachable@.contains(k2) && !stack@.contains(k2) && 0 <= j < child_keys(k2).len()
                    implies reachable@.contains(child_keys(k2)[j]) by {
                if k2 == k {
                    assert(cks[j] == child_keys(k2)[j]);
                }
            }
        }
    }
    let ghost sorted = reachable.sorted();
    proof {
        reachable.lemma_sorted();
        assert forall|k: u64| reaches(k0, k) implies reachable@.contains(k) by {
            let w = choose|w: Seq<u64>| w.len() > 0 && w[0] == k0 && w.last() == k && #[trigger] is_walk(w);
            lemma_closed_set_holds_walk(reachable@, w);
        }
    }
    let ghost set = reachable@;
    let r = reachable.into_sorted_vec();
    proof {
        assert forall|i: int| 0 <= i < r@.len() implies key_of((#[trigger] r@[i]).0) == state_key(r@[i].0) && set.contains(state_key(r@[i].0)) by {
        }
        assert forall|k: u64| reaches(k0, k) implies exists|i: int|
            0 <= i < r@.len() && key_of(#[trigger] r@[i].0) == k by {
            assert(set.contains(k));
            let i = choose|i: int| 0 <= i < r@.len() && state_key(r@[i].0) == k;
            assert(key_of(r@[i].0) == k);
        }
        if crate::lineage::is_valid(initial_state.0) && crate::node::built(initial_state.0)
            == initial_state.0 && initial_state.0 < 0x100_0000_0000_0000 {
            crate::retrograde::lemma_forward_pass_gives_all_reachable(initial_state.0, r@);
        }
    }
    r
}

} // verus!
