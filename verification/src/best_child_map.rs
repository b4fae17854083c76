//! The best move of every solved node.
use vstd::prelude::*;
use crate::backward_pass::{all_search_nodes, find_by_state, sorted_by_state};
use crate::children::children_of;
use crate::node::{SearchNode, best_known_outcome_of, report_count_of, state_of};
use crate::outcome::Outcome;
use crate::state::{Null, State};
use crate::state_map::StateMap;
use crate::state_set::state_key;

verus! {

/// Whether the states of the nodes are strictly ascending (so no state
/// occurs twice).
pub open spec fn states_strictly_ascending(s: Seq<SearchNode>) -> bool {
    forall|i: int, j: int| 0 <= i < j < s.len() ==> state_of(s[i].0) < state_of(s[j].0)
}

/// Whether the state of every child of every node is the state of some
/// node.
pub open spec fn closed_under_children(s: Seq<SearchNode>) -> bool {
    forall|i: int, c: int|
        #![trigger children_of(s[i].0)[c]]
        0 <= i < s.len() && 0 <= c < children_of(s[i].0).len() ==> exists|j: int|
            0 <= j < s.len() && state_of(s[j].0) == state_of(children_of(s[i].0)[c])
}

/// The node of `nodes` with state `st` (one of them, if several).
pub open spec fn node_with_state(nodes: Seq<SearchNode>, st: u64) -> SearchNode {
    nodes[choose|i: int| 0 <= i < nodes.len() && state_of(nodes[i].0) == st]
}

/// The outcome that `nodes` gives the state of node `x`, a draw while
/// children still have to report.
pub open spec fn outcome_score(nodes: Seq<SearchNode>, x: u64) -> int {
    let n = node_with_state(nodes, state_of(x));
    if report_count_of(n.0) > 0 {
        0
    } else {
        best_known_outcome_of(n.0)
    }
}

/// The first index at which `s` takes its least value (0 for an empty
/// sequence).
pub open spec fn first_min_index(s: Seq<int>) -> int
    decreases s.len(),
{
    if s.len() <= 1 {
        0
    } else {
        let j = first_min_index(s.drop_last());
        if s.last() < s[j] {
            s.len() - 1
        } else {
            j
        }
    }
}

/// The first least index is an index of a least value.
pub proof fn lemma_first_min_index(s: Seq<int>)
    requires
        s.len() > 0,
    ensures
        0 <= first_min_index(s) < s.len(),
        forall|i: int| 0 <= i < s.len() ==> s[first_min_index(s)] <= #[trigger] s[i],
    decreases s.len(),
{
    if s.len() > 1 {
        lemma_first_min_index(s.drop_last());
        assert forall|i: int| 0 <= i < s.len() - 1 implies s.drop_last()[i] == s[i] by {}
    }
}

/// No value before the first least index is as low as the least value.
pub proof fn lemma_first_min_index_is_first(s: Seq<int>)
    requires
        s.len() > 0,
    ensures
        forall|j: int| 0 <= j < first_min_index(s) ==> s[first_min_index(s)] < #[trigger] s[j],
    decreases s.len(),
{
    if s.len() > 1 {
        let d = s.drop_last();
        lemma_first_min_index_is_first(d);
        lemma_first_min_index(d);
        let m = first_min_index(d);
        assert forall|j: int| 0 <= j < first_min_index(s) implies s[first_min_index(s)] < #[trigger] s[j] by {
            assert(d[j] == s[j]);
            assert(d[m] == s[m]);
        }
    }
}

/// The best child of node `x`: the first of its children whose outcome
/// (seen by the opponent, so lower is better) is least; none for a node
/// without children.
pub open spec fn best_child_of(nodes: Seq<SearchNode>, x: u64) -> Option<u64> {
    let cs = children_of(x);
    if cs.len() == 0 {
        None
    } else {
        Some(cs[first_min_index(cs.map_values(|c: u64| outcome_score(nodes, c)))])
    }
}

/// The best child of node `x` is one of its children, there is one exactly
/// when `x` has children, and it is the first child of least value for the
/// opponent who moves there (lower is better for `x`): a child whose node
/// still has children to hear from is taken as a draw, 0, and a settled child
/// at its best known outcome. So when the best child is settled with an
/// outcome above zero (a win for the opponent), every child is settled.
pub proof fn lemma_best_child_is_first_least(nodes: Seq<SearchNode>, x: u64)
    ensures
        (best_child_of(nodes, x) is None) == (children_of(x).len() == 0),
        best_child_of(nodes, x) is Some ==> ({
            let cs = children_of(x);
            let value = |c: u64|
                if report_count_of(node_with_state(nodes, state_of(c)).0) > 0 {
                    0
                } else {
                    best_known_outcome_of(node_with_state(nodes, state_of(c)).0)
                };
            exists|i: int|
                0 <= i < cs.len() && cs[i] == best_child_of(nodes, x).unwrap() && (forall|j: int|
                    0 <= j < cs.len() ==> value(cs[i]) <= value(#[trigger] cs[j])) && (forall|j: int|
                    0 <= j < i ==> value(cs[i]) < value(#[trigger] cs[j]))
        }),
        best_child_of(nodes, x) is Some ==> ({
            let b = node_with_state(nodes, state_of(best_child_of(nodes, x).unwrap()));
            report_count_of(b.0) == 0 && best_known_outcome_of(b.0) > 0 ==> forall|j: int|
                0 <= j < children_of(x).len() ==> report_count_of(
                    node_with_state(nodes, state_of(#[trigger] children_of(x)[j])).0,
                ) == 0
        }),
{
    let cs = children_of(x);
    if cs.len() > 0 {
        let scores = cs.map_values(|c: u64| outcome_score(nodes, c));
        lemma_first_min_index(scores);
        lemma_first_min_index_is_first(scores);
        let m = first_min_index(scores);
        let value = |c: u64|
            if report_count_of(node_with_state(nodes, state_of(c)).0) > 0 {
                0
            } else {
                best_known_outcome_of(node_with_state(nodes, state_of(c)).0)
            };
        assert forall|j: int| 0 <= j < cs.len() implies value(cs[m]) <= value(#[trigger] cs[j]) by {
            assert(scores[j] == value(cs[j]));
            assert(scores[m] == value(cs[m]));
        }
        assert forall|j: int| 0 <= j < m implies value(cs[m]) < value(#[trigger] cs[j]) by {
            assert(scores[j] == value(cs[j]));
            assert(scores[m] == value(cs[m]));
        }
        assert(cs[m] == best_child_of(nodes, x).unwrap());
        let b = node_with_state(nodes, state_of(cs[m]));
        if report_count_of(b.0) == 0 && best_known_outcome_of(b.0) > 0 {
            assert forall|j: int| 0 <= j < cs.len() implies report_count_of(
                node_with_state(nodes, state_of(#[trigger] cs[j])).0,
            ) == 0 by {
                assert(value(cs[m]) <= value(cs[j]));
            }
        }
    }
}

/// What `best_child_map` maps node `x` to: its best child, or null.
pub open spec fn best_child_value(nodes: Seq<SearchNode>, x: u64) -> u64 {
    match best_child_of(nodes, x) {
        Some(c) => c,
        None => 0,
    }
}

/// The node of `nodes` with the state of `node` (whose other fields are
/// ignored).
pub fn find(node: SearchNode, nodes: &[SearchNode]) -> (r: SearchNode)
    requires
        sorted_by_state(nodes@),
        exists|j: int| 0 <= j < nodes@.len() && state_of(nodes@[j].0) == state_of(node.0),
    ensures
        nodes@.contains(r),
        state_of(r.0) == state_of(node.0),
        states_strictly_ascending(nodes@) ==> r == node_with_state(nodes@, state_of(node.0)),
{
    let state = node.state();
    match find_by_state(nodes, state) {
        Some(i) => {
            let r = nodes[i];
            proof {
                if states_strictly_ascending(nodes@) {
                    let k = choose|k: int|
                        0 <= k < nodes@.len() && state_of(nodes@[k].0) == state_of(node.0);
                    assert(k == i);
                }
            }
            r
        },
        None => {
            proof {
                let j = choose|j: int|
                    0 <= j < nodes@.len() && state_of(nodes@[j].0) == state_of(node.0);
                assert(false);
            }
            node
        },
    }
}

/// The outcome that `nodes` gives the state of `node`, if its children have
/// all reported.
pub fn get_node_outcome(node: SearchNode, nodes: &[SearchNode]) -> (r: Option<Outcome>)
    requires
        states_strictly_ascending(nodes@),
        exists|j: int| 0 <= j < nodes@.len() && state_of(nodes@[j].0) == state_of(node.0),
    ensures
        ({
            let n = node_with_state(nodes@, state_of(node.0));
            r == (if report_count_of(n.0) > 0 {
                None
            } else {
                Some(Outcome(best_known_outcome_of(n.0) as i16))
            })
        }),
{
    find(node, nodes).best_outcome()
}

/// The best child of `parent` (see `best_child_of`).
#[verifier::spinoff_prover]
#[verifier::rlimit(40)]
pub fn best_child(parent: SearchNode, nodes: &[SearchNode]) -> (r: Option<SearchNode>)
    requires
        states_strictly_ascending(nodes@),
        forall|c: int|
            0 <= c < children_of(parent.0).len() ==> exists|j: int|
                0 <= j < nodes@.len() && state_of(nodes@[j].0) == state_of(
                    #[trigger] children_of(parent.0)[c],
                ),
    ensures
        r == (match best_child_of(nodes@, parent.0) {
            Some(c) => Some(SearchNode(c)),
            None => None,
        }),
{
    let children = parent.children();
    let ghost cs = children_of(parent.0);
    let ghost scores = cs.map_values(|c: u64| outcome_score(nodes@, c));
    let mut best: Option<SearchNode> = None;
    let mut best_outcome: i16 = i16::MAX;
    let mut k: usize = 0;
    while k < children.len()
        invariant
            0 <= k <= children@.len(),
            children@ == crate::children::as_search_nodes(cs),
            cs == children_of(parent.0),
            scores == cs.map_values(|c: u64| outcome_score(nodes@, c)),
            states_strictly_ascending(nodes@),
            forall|c: int|
                0 <= c < cs.len() ==> exists|j: int|
                    0 <= j < nodes@.len() && state_of(nodes@[j].0) == state_of(#[trigger] cs[c]),
            k == 0 ==> best is None && best_outcome == i16::MAX,
            k > 0 ==> {
                let m = first_min_index(scores.take(k as int));
                &&& 0 <= m < k
                &&& best == Some(SearchNode(cs[m]))
                &&& best_outcome == scores[m]
            },
        decreases children@.len() - k,
    {
        let child = children[k];
        assert(child.0 == cs[k as int]);
        assert(exists|j: int|
            0 <= j < nodes@.len() && state_of(nodes@[j].0) == state_of(cs[k as int]));
        let outcome = match get_node_outcome(child, nodes) {
            Some(o) => o,
            None => Outcome(0),
        };
        proof {
            let n = node_with_state(nodes@, state_of(cs[k as int]));
            crate::bits::lemma_field_bounds(n.0, 0);
            crate::outcome::lemma_i9_round_trip(0, (n.0 >> 0u64) & 511);
            assert(outcome.0 == scores[k as int]);
            let t = scores.take(k as int + 1);
            assert(t.drop_last() =~= scores.take(k as int));
            if k > 0 {
                lemma_first_min_index(scores.take(k as int));
            }
        }
        if outcome.0 < best_outcome {
            best = Some(child);
            best_outcome = outcome.0;
        }
        k = k + 1;
    }
    proof {
        assert(scores.take(cs.len() as int) =~= scores);
    }
    best
}

/// Maps the state of every node to its best child, leaving out the nodes
/// without children (see `best_child_of`). The nodes must be solved, hold
/// each state once, in ascending order, and hold the state of every child
/// of each of them.
pub fn best_child_map(nodes: &[SearchNode]) -> (r: StateMap<SearchNode>)
    requires
        states_strictly_ascending(nodes@),
        closed_under_children(nodes@),
        all_search_nodes(nodes@),
    ensures
        r.wf(),
        forall|i: int|
            0 <= i < nodes@.len() ==> {
                let k = state_key(#[trigger] nodes@[i].0);
                let v = best_child_value(nodes@, nodes@[i].0);
                &&& v != 0 ==> r@.contains_key(k) && r@[k] == SearchNode(v)
                &&& v == 0 ==> !r@.contains_key(k)
            },
        forall|k: u64|
            #[trigger] r@.contains_key(k) ==> exists|i: int|
                0 <= i < nodes@.len() && state_key(nodes@[i].0) == k,
{
    let mut out: StateMap<SearchNode> = StateMap::empty();
    let mut i: usize = 0;
    while i < nodes.len()
        invariant
            0 <= i <= nodes@.len(),
            out.wf(),
            states_strictly_ascending(nodes@),
            closed_under_children(nodes@),
            all_search_nodes(nodes@),
            forall|j: int|
                0 <= j < i ==> {
                    let k = state_key(#[trigger] nodes@[j].0);
                    let v = best_child_value(nodes@, nodes@[j].0);
                    &&& v != 0 ==> out@.contains_key(k) && out@[k] == SearchNode(v)
                    &&& v == 0 ==> !out@.contains_key(k)
                },
            forall|k: u64|
                #[trigger] out@.contains_key(k) ==> exists|j: int|
                    0 <= j < i && state_key(nodes@[j].0) == k,
        decreases nodes@.len() - i,
    {
        let node = nodes[i];
        assert(node.0 < crate::state_set::SEARCH_NODE_LIMIT);
        assert forall|c: int| 0 <= c < children_of(node.0).len() implies exists|j: int|
            0 <= j < nodes@.len() && state_of(nodes@[j].0) == state_of(
                #[trigger] children_of(node.0)[c],
            ) by {
            assert(children_of(nodes@[i as int].0)[c] == children_of(node.0)[c]);
        }
        let best = best_child(node, nodes);
        let value = match best {
            Some(c) => c,
            None => SearchNode::null(),
        };
        let key: u64 = node.0 >> 16u64;
        proof {
            crate::state_set::lemma_key_bits(0, node.0);
            crate::state_set::lemma_key_bits(0, key);
        }
        let ghost before = out@;
        out.add(State(key), value);
        proof {
            assert forall|j: int| 0 <= j < i + 1 implies {
                let k = state_key(#[trigger] nodes@[j].0);
                let v = best_child_value(nodes@, nodes@[j].0);
                &&& v != 0 ==> out@.contains_key(k) && out@[k] == SearchNode(v)
                &&& v == 0 ==> !out@.contains_key(k)
            } by {
                if j < i {
                    assert(state_of(nodes@[j].0) < state_of(nodes@[i as int].0));
                    crate::state_set::lemma_state_key_injective(nodes@[j].0, nodes@[i as int].0);
                }
            }
            assert forall|k: u64| #[trigger] out@.contains_key(k) implies exists|j: int|
                0 <= j < i + 1 && state_key(nodes@[j].0) == k by {
                if k != key {
                    assert(before.contains_key(k));
                } else {
                    assert(state_key(nodes@[i as int].0) == k);
                }
            }
        }
        i = i + 1;
    }
    out
}

} // verus!
