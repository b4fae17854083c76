//! The part of the game tree that matters when one player plays optimally.
use vstd::prelude::*;
use std::collections::VecDeque;
use crate::backward_pass::all_search_nodes;
use crate::best_child_map::{
    best_child, best_child_of, find, node_with_state,
    states_strictly_ascending,
};
use crate::children::children_of;
use crate::forward_pass::{child_keys, is_walk, key_of, reaches};
use crate::stat_retrograde::valid_key;
use crate::state::State;
use crate::node::{SearchNode, state_of};
use crate::outcome::Player;
use crate::state::STATE_COUNT;
use crate::state_set::{SEARCH_NODE_LIMIT, StateSet, lemma_state_key_injective, node_of_key, state_key};

verus! {

#[derive(Clone, Copy, Debug)]
struct QueueItem {
    node: SearchNode,
    active_player: Player,
}

/// The player to move after `i` plies: sente moves first.
pub open spec fn player_at(i: int) -> Player {
    if i % 2 == 0 {
        Player::Sente
    } else {
        Player::Gote
    }
}

/// The node of `nodes` that the optimal player moves to from node `x`: the
/// one with the state of the best child (see `best_child_of`).
pub open spec fn optimal_move(nodes: Seq<SearchNode>, x: u64) -> Option<SearchNode> {
    match best_child_of(nodes, x) {
        Some(c) => Some(node_with_state(nodes, state_of(c))),
        None => None,
    }
}

/// The nodes of `nodes` that the moves from node `x` lead to.
pub open spec fn any_moves(nodes: Seq<SearchNode>, x: u64) -> Seq<SearchNode> {
    children_of(x).map_values(|c: u64| node_with_state(nodes, state_of(c)))
}

/// Whether ply `i` leads from `from` to `to`: the optimal player makes its
/// optimal move, the other player any move.
pub open spec fn follows(
    nodes: Seq<SearchNode>,
    optimal: Player,
    i: int,
    from: SearchNode,
    to: SearchNode,
) -> bool {
    if player_at(i) == optimal {
        optimal_move(nodes, from.0) == Some(to)
    } else {
        any_moves(nodes, from.0).contains(to)
    }
}

/// Whether `line` is a game from `start` in which the optimal player always
/// makes its optimal move.
pub open spec fn is_line(
    nodes: Seq<SearchNode>,
    optimal: Player,
    start: SearchNode,
    line: Seq<SearchNode>,
) -> bool {
    &&& line.len() > 0
    &&& line[0] == start
    &&& forall|i: int|
        0 <= i < line.len() - 1 ==> #[trigger] follows(nodes, optimal, i, line[i], line[i + 1])
}

/// Whether, at every node that some game from `start` reaches (the optimal
/// player making its optimal move), the state of every child is the state of
/// some node. It holds when the nodes hold every state reachable from the
/// state of `start`.
pub open spec fn closed_along_lines(
    nodes: Seq<SearchNode>,
    optimal: Player,
    start: SearchNode,
) -> bool {
    forall|line: Seq<SearchNode>, c: int|
        #![trigger is_line(nodes, optimal, start, line), children_of(line.last().0)[c]]
        is_line(nodes, optimal, start, line) && 0 <= c < children_of(line.last().0).len()
            ==> exists|j: int|
            0 <= j < nodes.len() && state_of(nodes[j].0) == state_of(children_of(line.last().0)[c])
}

/// The node of `nodes` whose state has key `k`.
pub open spec fn node_with_key(nodes: Seq<SearchNode>, k: u64) -> SearchNode {
    nodes[choose|i: int| 0 <= i < nodes.len() && state_key(nodes[i].0) == k]
}

/// The children of a node whose key is reachable from the valid key `k0`
/// have their states among the nodes, when the nodes hold every state
/// reachable from `k0`; and their keys are reachable too.
#[verifier::spinoff_prover]
proof fn lemma_reachable_children_present(nodes: Seq<SearchNode>, k0: u64, x: u64)
    requires
        all_search_nodes(nodes),
        valid_key(k0),
        forall|k: u64|
            reaches(k0, k) ==> exists|j: int| 0 <= j < nodes.len() && key_of(nodes[j].0) == k,
        x < SEARCH_NODE_LIMIT,
        reaches(k0, key_of(x)),
    ensures
        forall|c: int|
            0 <= c < children_of(x).len() ==> reaches(k0, key_of(#[trigger] children_of(x)[c]))
                && exists|j: int|
                0 <= j < nodes.len() && state_of(nodes[j].0) == state_of(children_of(x)[c]),
{
    let kx = key_of(x);
    let w = choose|w: Seq<u64>| w.len() > 0 && w[0] == k0 && w.last() == kx && #[trigger] is_walk(w);
    crate::stat_retrograde::lemma_key_node_bits(k0);
    crate::retrograde::lemma_walk_valid(w);
    crate::retrograde::lemma_key_node(x);
    let y = node_of_key(State(kx)).0;
    crate::retrograde::lemma_node_facts(x, y);
    assert forall|c: int| 0 <= c < children_of(x).len() implies reaches(
        k0,
        key_of(#[trigger] children_of(x)[c]),
    ) && exists|j: int| 0 <= j < nodes.len() && state_of(nodes[j].0) == state_of(children_of(x)[c]) by {
        let ch = children_of(x)[c];
        assert(crate::lineage::child_states(x)[c] == state_of(ch));
        assert(crate::lineage::child_states(y)[c] == state_of(children_of(y)[c]));
        reveal(child_keys);
        assert(child_keys(kx)[c] == key_of(children_of(y)[c]));
        assert(child_keys(kx).contains(key_of(ch)));
        crate::forward_pass::lemma_extend_reach(k0, kx, key_of(ch));
        let j = choose|j: int| 0 <= j < nodes.len() && key_of(nodes[j].0) == key_of(ch);
        crate::forward_pass::lemma_state_bits(nodes[j].0);
        crate::forward_pass::lemma_state_bits(ch);
        if state_of(nodes[j].0) != state_of(ch) {
            lemma_state_key_injective(state_of(nodes[j].0), state_of(ch));
        }
    }
}

/// A game from `start` stays among the nodes, at reachable keys, when the
/// nodes hold every state reachable from the valid key of `start`.
#[verifier::spinoff_prover]
proof fn lemma_line_reaches(
    nodes: Seq<SearchNode>,
    optimal: Player,
    start: SearchNode,
    line: Seq<SearchNode>,
)
    requires
        all_search_nodes(nodes),
        nodes.contains(start),
        valid_key(key_of(start.0)),
        forall|k: u64|
            reaches(key_of(start.0), k) ==> exists|j: int|
                0 <= j < nodes.len() && key_of(nodes[j].0) == k,
        is_line(nodes, optimal, start, line),
    ensures
        nodes.contains(line.last()),
        reaches(key_of(start.0), key_of(line.last().0)),
    decreases line.len(),
{
    let k0 = key_of(start.0);
    if line.len() == 1 {
        let w = seq![k0];
        assert(is_walk(w));
    } else {
        let v = line.drop_last();
        assert forall|i: int| 0 <= i < v.len() - 1 implies #[trigger] follows(
            nodes,
            optimal,
            i,
            v[i],
            v[i + 1],
        ) by {
            assert(follows(nodes, optimal, i, line[i], line[i + 1]));
        }
        lemma_line_reaches(nodes, optimal, start, v);
        let n = line.len() - 2;
        let from = line[n];
        let to = line[n + 1];
        assert(v.last() == from);
        assert(follows(nodes, optimal, n, from, to));
        let f = choose|f: int| 0 <= f < nodes.len() && nodes[f] == from;
        lemma_reachable_children_present(nodes, k0, from.0);
        lemma_follows_stays_in_nodes(nodes, optimal, n, from, to);
        let cs = children_of(from.0);
        let c = if player_at(n) == optimal {
            let scores = cs.map_values(|c: u64| crate::best_child_map::outcome_score(nodes, c));
            crate::best_child_map::lemma_first_min_index(scores);
            crate::best_child_map::first_min_index(scores)
        } else {
            let moves = any_moves(nodes, from.0);
            choose|c: int| 0 <= c < moves.len() && moves[c] == to
        };
        assert(0 <= c < cs.len());
        assert(to == node_with_state(nodes, state_of(cs[c])));
        assert(reaches(k0, key_of(cs[c])));
        let j = choose|j: int| 0 <= j < nodes.len() && state_of(nodes[j].0) == state_of(cs[c]);
        assert(state_of(to.0) == state_of(cs[c]));
    }
}

/// When the nodes hold every state reachable from the valid state of
/// `start` (see `reaches`), every node that a game from `start` reaches has
/// the states of its children among the nodes: `closed_along_lines` holds.
pub proof fn lemma_reachable_nodes_are_closed_along_lines(
    nodes: Seq<SearchNode>,
    optimal: Player,
    start: SearchNode,
)
    requires
        all_search_nodes(nodes),
        nodes.contains(start),
        valid_key(key_of(start.0)),
        forall|k: u64|
            reaches(key_of(start.0), k) ==> exists|j: int|
                0 <= j < nodes.len() && key_of(nodes[j].0) == k,
    ensures
        closed_along_lines(nodes, optimal, start),
{
    assert forall|line: Seq<SearchNode>, c: int|
        is_line(nodes, optimal, start, line) && 0 <= c < children_of(line.last().0).len() implies exists|j: int|
        0 <= j < nodes.len() && state_of(nodes[j].0) == state_of(
            #[trigger] children_of(line.last().0)[c],
        ) by {
        lemma_line_reaches(nodes, optimal, start, line);
        lemma_reachable_children_present(nodes, key_of(start.0), line.last().0);
    }
}

/// Whether some game ends at the node with key `k`, with player `p` to move.
pub open spec fn line_to(
    nodes: Seq<SearchNode>,
    optimal: Player,
    start: SearchNode,
    k: u64,
    p: Player,
) -> bool {
    exists|line: Seq<SearchNode>|
        #[trigger] is_line(nodes, optimal, start, line) && line.last() == node_with_key(nodes, k)
            && player_at(line.len() - 1) == p
}

/// Whether an item for key `k`, with the optimal player to move or not as
/// `opt` says, waits in the queue.
spec fn queued(queue: Seq<QueueItem>, optimal: Player, k: u64, opt: bool) -> bool {
    exists|j: int|
        0 <= j < queue.len() && state_key(queue[j].node.0) == k && (queue[j].active_player
            == optimal) == opt
}

/// A node of `nodes` is the node with its key, and the node with its state.
proof fn lemma_stored(nodes: Seq<SearchNode>, i: int)
    requires
        states_strictly_ascending(nodes),
        all_search_nodes(nodes),
        0 <= i < nodes.len(),
    ensures
        node_with_key(nodes, state_key(nodes[i].0)) == nodes[i],
        node_with_state(nodes, state_of(nodes[i].0)) == nodes[i],
{
    let k = state_key(nodes[i].0);
    let j = choose|j: int| 0 <= j < nodes.len() && state_key(nodes[j].0) == k;
    if j != i {
        assert(nodes[j].0 < SEARCH_NODE_LIMIT);
        assert(nodes[i].0 < SEARCH_NODE_LIMIT);
        if j < i {
            lemma_state_key_injective(nodes[j].0, nodes[i].0);
        } else {
            lemma_state_key_injective(nodes[i].0, nodes[j].0);
        }
    }
    let l = choose|l: int| 0 <= l < nodes.len() && state_of(nodes[l].0) == state_of(nodes[i].0);
    if l != i {
        if l < i {
            assert(state_of(nodes[l].0) < state_of(nodes[i].0));
        } else {
            assert(state_of(nodes[i].0) < state_of(nodes[l].0));
        }
    }
}

proof fn lemma_player_alternates(i: int)
    requires
        i >= 0,
    ensures
        player_at(i + 1) != player_at(i),
{
}

/// Taking the first item out of the queue keeps every other item queued.
proof fn lemma_queued_after_pop(q: Seq<QueueItem>, optimal: Player, k: u64, t: bool)
    requires
        q.len() > 0,
        queued(q, optimal, k, t),
        !(state_key(q[0].node.0) == k && (q[0].active_player == optimal) == t),
    ensures
        queued(q.subrange(1, q.len() as int), optimal, k, t),
{
    let j = choose|j: int|
        0 <= j < q.len() && state_key(q[j].node.0) == k && (q[j].active_player == optimal) == t;
    assert(j > 0);
    assert(q.subrange(1, q.len() as int)[j - 1] == q[j]);
}

/// Adding an item to the queue keeps every item queued.
proof fn lemma_queued_push(q: Seq<QueueItem>, item: QueueItem, optimal: Player, k: u64, t: bool)
    requires
        queued(q, optimal, k, t),
    ensures
        queued(q.push(item), optimal, k, t),
{
    let j = choose|j: int|
        0 <= j < q.len() && state_key(q[j].node.0) == k && (q[j].active_player == optimal) == t;
    assert(q.push(item)[j] == q[j]);
}

/// The last item of a queue is queued.
proof fn lemma_queued_last(q: Seq<QueueItem>, item: QueueItem, optimal: Player)
    ensures
        queued(
            q.push(item),
            optimal,
            state_key(item.node.0),
            item.active_player == optimal,
        ),
{
    assert(q.push(item)[q.len() as int] == item);
}

/// The node that a ply leads to from a node of `nodes` is a node of
/// `nodes`.
proof fn lemma_follows_stays_in_nodes(
    nodes: Seq<SearchNode>,
    optimal: Player,
    i: int,
    from: SearchNode,
    to: SearchNode,
)
    requires
        forall|c: int|
            0 <= c < children_of(from.0).len() ==> exists|j: int|
                0 <= j < nodes.len() && state_of(nodes[j].0) == state_of(
                    #[trigger] children_of(from.0)[c],
                ),
        follows(nodes, optimal, i, from, to),
    ensures
        nodes.contains(to),
{
    let cs = children_of(from.0);
    let c = if player_at(i) == optimal {
        let scores = cs.map_values(|c: u64| crate::best_child_map::outcome_score(nodes, c));
        crate::best_child_map::lemma_first_min_index(scores);
        crate::best_child_map::first_min_index(scores)
    } else {
        let moves = any_moves(nodes, from.0);
        choose|c: int| 0 <= c < moves.len() && moves[c] == to
    };
    assert(0 <= c < cs.len());
    assert(exists|j: int| 0 <= j < nodes.len() && state_of(nodes[j].0) == state_of(cs[c]));
    let j = choose|j: int| 0 <= j < nodes.len() && state_of(nodes[j].0) == state_of(cs[c]);
    assert(to == node_with_state(nodes, state_of(cs[c])));
}

/// In a set of keys closed under the plies of the game, every game from the
/// start stays in the set: the keys with the optimal player to move in `o`,
/// the others in `u`.
#[verifier::spinoff_prover]
#[verifier::rlimit(40)]
proof fn lemma_lines_stay_in_sets(
    nodes: Seq<SearchNode>,
    optimal: Player,
    start: SearchNode,
    o: Set<u64>,
    u: Set<u64>,
    line: Seq<SearchNode>,
)
    requires
        states_strictly_ascending(nodes),
        closed_along_lines(nodes, optimal, start),
        all_search_nodes(nodes),
        nodes.contains(start),
        optimal == Player::Sente ==> o.contains(state_key(start.0)),
        optimal != Player::Sente ==> u.contains(state_key(start.0)),
        forall|k: u64|
            #[trigger] o.contains(k) ==> (match optimal_move(nodes, node_with_key(nodes, k).0) {
                Some(m) => u.contains(state_key(m.0)),
                None => true,
            }),
        forall|k: u64, j: int|
            #![trigger u.contains(k), any_moves(nodes, node_with_key(nodes, k).0)[j]]
            u.contains(k) && 0 <= j < any_moves(nodes, node_with_key(nodes, k).0).len()
                ==> o.contains(state_key(any_moves(nodes, node_with_key(nodes, k).0)[j].0)),
        is_line(nodes, optimal, start, line),
    ensures
        nodes.contains(line.last()),
        player_at(line.len() - 1) == optimal ==> o.contains(state_key(line.last().0)),
        player_at(line.len() - 1) != optimal ==> u.contains(state_key(line.last().0)),
    decreases line.len(),
{
    if line.len() > 1 {
        let v = line.drop_last();
        assert forall|i: int| 0 <= i < v.len() - 1 implies #[trigger] follows(
            nodes,
            optimal,
            i,
            v[i],
            v[i + 1],
        ) by {
            assert(follows(nodes, optimal, i, line[i], line[i + 1]));
        }
        lemma_lines_stay_in_sets(nodes, optimal, start, o, u, v);
        let n = line.len() - 2;
        let from = line[n];
        let to = line[n + 1];
        assert(follows(nodes, optimal, n, from, to));
        assert(is_line(nodes, optimal, start, v));
        assert(v.last() == from);
        assert forall|c: int| 0 <= c < children_of(from.0).len() implies exists|j: int|
            0 <= j < nodes.len() && state_of(nodes[j].0) == state_of(
                #[trigger] children_of(from.0)[c],
            ) by {
            assert(children_of(v.last().0)[c] == children_of(from.0)[c]);
        }
        lemma_follows_stays_in_nodes(nodes, optimal, n, from, to);
        let f = choose|f: int| 0 <= f < nodes.len() && nodes[f] == from;
        lemma_stored(nodes, f);
        lemma_player_alternates(n);
        if player_at(n) == optimal {
            assert(o.contains(state_key(from.0)));
        } else {
            let moves = any_moves(nodes, from.0);
            let c = choose|c: int| 0 <= c < moves.len() && moves[c] == to;
            assert(u.contains(state_key(from.0)));
            assert(o.contains(state_key(moves[c].0)));
        }
    }
}

/// Extending a game to the node with key `k` by one ply.
proof fn lemma_extend_line(
    nodes: Seq<SearchNode>,
    optimal: Player,
    start: SearchNode,
    k: u64,
    p: Player,
    next: SearchNode,
)
    requires
        line_to(nodes, optimal, start, k, p),
        p == optimal ==> optimal_move(nodes, node_with_key(nodes, k).0) == Some(next),
        p != optimal ==> any_moves(nodes, node_with_key(nodes, k).0).contains(next),
        states_strictly_ascending(nodes),
        all_search_nodes(nodes),
        nodes.contains(next),
    ensures
        line_to(
            nodes,
            optimal,
            start,
            state_key(next.0),
            if p == Player::Sente {
                Player::Gote
            } else {
                Player::Sente
            },
        ),
{
    let line = choose|line: Seq<SearchNode>|
        #[trigger] is_line(nodes, optimal, start, line) && line.last() == node_with_key(nodes, k)
            && player_at(line.len() - 1) == p;
    let l2 = line.push(next);
    let n = line.len() - 1;
    assert(follows(nodes, optimal, n, l2[n], l2[n + 1]));
    assert forall|i: int| 0 <= i < l2.len() - 1 implies #[trigger] follows(
        nodes,
        optimal,
        i,
        l2[i],
        l2[i + 1],
    ) by {
        if i < n {
            assert(follows(nodes, optimal, i, line[i], line[i + 1]));
        }
    }
    assert(is_line(nodes, optimal, start, l2));
    let j = choose|j: int| 0 <= j < nodes.len() && nodes[j] == next;
    lemma_stored(nodes, j);
    lemma_player_alternates(n);
}

/// The states reachable from the state of `initial_state` when
/// `optimal_player` always makes its optimal move (see `best_child_of`) and
/// the other player may make any move: a state is in the result exactly when
/// some such game reaches it. Sente moves first. The nodes must be solved,
/// hold each state once, in ascending order, and hold the state of
/// `initial_state` and of every child of each node that such a game reaches
/// (see `closed_along_lines`, which holds when the nodes hold every state
/// reachable from it: `lemma_reachable_nodes_are_closed_along_lines`); other
/// nodes may lack their children.
/// `on_node_processed` is called with each node whose moves were followed.
#[verifier::spinoff_prover]
#[verifier::rlimit(60)]
pub fn prune_assuming_one_player_plays_optimally(
    initial_state: SearchNode,
    optimal_player: Player,
    nodes: &[SearchNode],
    mut on_node_processed: impl FnMut(SearchNode),
) -> (r: StateSet)
    requires
        forall|n: SearchNode| call_requires(on_node_processed, (n,)),
        states_strictly_ascending(nodes@),
        closed_along_lines(
            nodes@,
            optimal_player,
            node_with_state(nodes@, state_of(initial_state.0)),
        ),
        all_search_nodes(nodes@),
        exists|j: int| 0 <= j < nodes@.len() && state_of(nodes@[j].0) == state_of(initial_state.0),
    ensures
        r.wf(),
        forall|k: u64|
            r@.contains(k) <==> exists|line: Seq<SearchNode>|
                #[trigger] is_line(
                    nodes@,
                    optimal_player,
                    node_with_state(nodes@, state_of(initial_state.0)),
                    line,
                ) && state_key(line.last().0) == k,
{
    let ghost ns = nodes@;
    let ghost optimal = optimal_player;
    let ghost start = node_with_state(ns, state_of(initial_state.0));
    let mut opt_set = StateSet::empty();
    let mut unp_set = StateSet::empty();
    let mut queue: VecDeque<QueueItem> = VecDeque::new();

    let initial_node = find(initial_state, nodes);
    let ghost k0 = state_key(initial_node.0);
    proof {
        let i0 = choose|i: int| 0 <= i < ns.len() && ns[i] == initial_node;
        lemma_stored(ns, i0);
        let line = seq![initial_node];
        assert(is_line(ns, optimal, start, line));
        assert(line_to(ns, optimal, start, k0, Player::Sente));
        assert(initial_node.0 < SEARCH_NODE_LIMIT);
    }
    match optimal_player {
        Player::Sente => {
            opt_set.add(initial_node);
        },
        Player::Gote => {
            unp_set.add(initial_node);
        },
    }
    queue.push_back(QueueItem { node: initial_node, active_player: Player::Sente });
    proof {
        assert(queue@[0].node == initial_node);
    }

    loop
        invariant
            forall|n: SearchNode| call_requires(on_node_processed, (n,)),
            opt_set.wf(),
            unp_set.wf(),
            states_strictly_ascending(ns),
            closed_along_lines(ns, optimal, start),
            all_search_nodes(ns),
            ns == nodes@,
            optimal == optimal_player,
            start == node_with_state(ns, state_of(initial_state.0)),
            k0 == state_key(start.0),
            (optimal == Player::Sente ==> opt_set@.contains(k0)),
            (optimal != Player::Sente ==> unp_set@.contains(k0)),
            forall|j: int|
                0 <= j < queue@.len() ==> {
                    let q = #[trigger] queue@[j];
                    &&& ns.contains(q.node)
                    &&& q.active_player == optimal ==> opt_set@.contains(state_key(q.node.0))
                    &&& q.active_player != optimal ==> unp_set@.contains(state_key(q.node.0))
                },
            forall|k: u64|
                #[trigger] opt_set@.contains(k) ==> line_to(ns, optimal, start, k, optimal),
            forall|k: u64|
                #[trigger] unp_set@.contains(k) ==> line_to(
                    ns,
                    optimal,
                    start,
                    k,
                    if optimal == Player::Sente {
                        Player::Gote
                    } else {
                        Player::Sente
                    },
                ),
            forall|k: u64|
                #[trigger] opt_set@.contains(k) ==> exists|i: int|
                    0 <= i < ns.len() && state_key(ns[i].0) == k,
            forall|k: u64|
                #[trigger] unp_set@.contains(k) ==> exists|i: int|
                    0 <= i < ns.len() && state_key(ns[i].0) == k,
            forall|k: u64|
                #[trigger] opt_set@.contains(k) && !queued(queue@, optimal, k, true) ==> (
                match optimal_move(ns, node_with_key(ns, k).0) {
                    Some(m) => unp_set@.contains(state_key(m.0)),
                    None => true,
                }),
            forall|k: u64, j: int|
                #![trigger unp_set@.contains(k), any_moves(ns, node_with_key(ns, k).0)[j]]
                unp_set@.contains(k) && !queued(queue@, optimal, k, false) && 0 <= j
                    < any_moves(ns, node_with_key(ns, k).0).len() ==> opt_set@.contains(
                    state_key(any_moves(ns, node_with_key(ns, k).0)[j].0),
                ),
        ensures
            queue@.len() == 0,
        decreases 2 * STATE_COUNT - opt_set@.len() - unp_set@.len(), queue@.len(),
    {
        proof {
            opt_set.lemma_bounded();
            unp_set.lemma_bounded();
        }
        let ghost q_before = queue@;
        let ghost o_before = opt_set@;
        let ghost u_before = unp_set@;
        let item = match queue.pop_front() {
            Some(it) => it,
            None => break,
        };
        let ghost kk = state_key(item.node.0);
        let ghost tag = item.active_player == optimal;
        let ghost unp_player = if optimal == Player::Sente {
            Player::Gote
        } else {
            Player::Sente
        };
        let ghost i_item = choose|i: int| 0 <= i < ns.len() && ns[i] == item.node;
        proof {
            assert(q_before[0] == item);
            assert(ns.contains(item.node));
            lemma_stored(ns, i_item);
            assert forall|k: u64, t: bool|
                queued(q_before, optimal, k, t) && !(k == kk && t == tag) implies queued(
                    queue@,
                    optimal,
                    k,
                    t,
                ) by {
                lemma_queued_after_pop(q_before, optimal, k, t);
            }
            let item_player = if tag {
                optimal
            } else {
                unp_player
            };
            assert(line_to(ns, optimal, start, kk, item_player));
            let line = choose|line: Seq<SearchNode>|
                #[trigger] is_line(ns, optimal, start, line) && line.last() == node_with_key(ns, kk)
                    && player_at(line.len() - 1) == item_player;
            assert(line.last() == item.node);
            assert forall|c: int| 0 <= c < children_of(item.node.0).len() implies exists|j: int|
                0 <= j < ns.len() && state_of(ns[j].0) == state_of(
                    #[trigger] children_of(item.node.0)[c],
                ) by {
                assert(children_of(line.last().0)[c] == children_of(item.node.0)[c]);
            }
        }
        let is_optimal = match (item.active_player, optimal_player) {
            (Player::Sente, Player::Sente) => true,
            (Player::Gote, Player::Gote) => true,
            _ => false,
        };
        if is_optimal {
            // The optimal player only makes its best move.
            match best_child(item.node, nodes) {
                Some(c) => {
                    let ghost bc = best_child_of(ns, item.node.0).unwrap();
                    proof {
                        let cs = children_of(item.node.0);
                        let scores = cs.map_values(
                            |c: u64| crate::best_child_map::outcome_score(ns, c),
                        );
                        crate::best_child_map::lemma_first_min_index(scores);
                        let idx = crate::best_child_map::first_min_index(scores);
                        assert(bc == cs[idx]);
                    }
                    let m = find(c, nodes);
                    proof {
                        assert(optimal_move(ns, item.node.0) == Some(m));
                        let im = choose|i: int| 0 <= i < ns.len() && ns[i] == m;
                        assert(m.0 < SEARCH_NODE_LIMIT);
                        assert(line_to(ns, optimal, start, kk, optimal));
                        lemma_extend_line(ns, optimal, start, kk, optimal, m);
                    }
                    let added = unp_set.add(m);
                    if !added.did_addend_already_exist {
                        let next = QueueItem { node: m, active_player: item.active_player.opponent() };
                        let ghost q_mid = queue@;
                        queue.push_back(next);
                        proof {
                            lemma_queued_last(q_mid, next, optimal);
                            assert forall|k: u64, t: bool| queued(q_mid, optimal, k, t) implies queued(
                                queue@,
                                optimal,
                                k,
                                t,
                            ) by {
                                lemma_queued_push(q_mid, next, optimal, k, t);
                            }
                        }
                        on_node_processed(item.node);
                    }
                },
                None => {},
            }
        } else {
            // The other player may make any move.
            let children = item.node.children();
            let ghost moves = any_moves(ns, item.node.0);
            let ghost q_start = queue@;
            let mut idx: usize = 0;
            while idx < children.len()
                invariant
                    0 <= idx <= children@.len(),
                    children@ == crate::children::as_search_nodes(children_of(item.node.0)),
                    moves == any_moves(ns, item.node.0),
                    !tag,
                    item.active_player != optimal,
                    node_with_key(ns, kk) == item.node,
                    kk == state_key(item.node.0),
                    unp_set@ == u_before,
                    line_to(ns, optimal, start, kk, unp_player),
                    unp_player == (if optimal == Player::Sente {
                        Player::Gote
                    } else {
                        Player::Sente
                    }),
                    forall|c: int|
                        0 <= c < children_of(item.node.0).len() ==> exists|j: int|
                            0 <= j < ns.len() && state_of(ns[j].0) == state_of(
                                #[trigger] children_of(item.node.0)[c],
                            ),
                    opt_set.wf(),
                    unp_set.wf(),
                    states_strictly_ascending(ns),
                    closed_along_lines(ns, optimal, start),
                    all_search_nodes(ns),
                    ns == nodes@,
                    optimal == optimal_player,
                    start == node_with_state(ns, state_of(initial_state.0)),
                    k0 == state_key(start.0),
                    (optimal == Player::Sente ==> opt_set@.contains(k0)),
                    (optimal != Player::Sente ==> unp_set@.contains(k0)),
                    opt_set@.finite(),
                    opt_set@.len() >= o_before.len(),
                    queue@.len() - q_start.len() == opt_set@.len() - o_before.len(),
                    forall|k: u64| o_before.contains(k) ==> #[trigger] opt_set@.contains(k),
                    forall|k: u64, t: bool|
                        queued(q_start, optimal, k, t) ==> #[trigger] queued(queue@, optimal, k, t),
                    forall|j: int|
                        0 <= j < queue@.len() ==> {
                            let q = #[trigger] queue@[j];
                            &&& ns.contains(q.node)
                            &&& q.active_player == optimal ==> opt_set@.contains(state_key(q.node.0))
                            &&& q.active_player != optimal ==> unp_set@.contains(state_key(q.node.0))
                        },
                    forall|k: u64|
                        #[trigger] opt_set@.contains(k) ==> line_to(ns, optimal, start, k, optimal),
                    forall|k: u64|
                        #[trigger] opt_set@.contains(k) ==> exists|i: int|
                            0 <= i < ns.len() && state_key(ns[i].0) == k,
                    forall|k: u64|
                        #[trigger] opt_set@.contains(k) && !queued(queue@, optimal, k, true) ==> (
                        match optimal_move(ns, node_with_key(ns, k).0) {
                            Some(m) => unp_set@.contains(state_key(m.0)),
                            None => true,
                        }),
                    forall|j: int| 0 <= j < idx ==> opt_set@.contains(state_key(#[trigger] moves[j].0)),
                decreases children@.len() - idx,
            {
                let c = children[idx];
                assert(c.0 == children_of(item.node.0)[idx as int]);
                let m = find(c, nodes);
                proof {
                    assert(moves[idx as int] == m);
                    assert(moves.contains(m));
                    let im = choose|i: int| 0 <= i < ns.len() && ns[i] == m;
                    assert(m.0 < SEARCH_NODE_LIMIT);
                    lemma_extend_line(ns, optimal, start, kk, unp_player, m);
                    assert(exists|i: int| 0 <= i < ns.len() && state_key(ns[i].0) == state_key(m.0));
                }
                let ghost o_mid = opt_set@;
                let ghost q_mid = queue@;
                let added = opt_set.add(m);
                if !added.did_addend_already_exist {
                    let next = QueueItem { node: m, active_player: item.active_player.opponent() };
                    queue.push_back(next);
                    proof {
                        lemma_queued_last(q_mid, next, optimal);
                    }
                }
                proof {
                    assert forall|k: u64, t: bool| queued(q_start, optimal, k, t) implies #[trigger] queued(
                        queue@,
                        optimal,
                        k,
                        t,
                    ) by {
                        assert(queued(q_mid, optimal, k, t));
                        if !added.did_addend_already_exist {
                            lemma_queued_push(q_mid, queue@.last(), optimal, k, t);
                            assert(q_mid.push(queue@.last()) == queue@);
                        }
                    }
                    assert forall|k: u64, t: bool| queued(q_mid, optimal, k, t) implies queued(
                        queue@,
                        optimal,
                        k,
                        t,
                    ) by {
                        if !added.did_addend_already_exist {
                            lemma_queued_push(q_mid, queue@.last(), optimal, k, t);
                            assert(q_mid.push(queue@.last()) == queue@);
                        }
                    }
                    assert forall|k: u64|
                        #[trigger] opt_set@.contains(k) && !queued(queue@, optimal, k, true) implies (
                        match optimal_move(ns, node_with_key(ns, k).0) {
                            Some(m) => unp_set@.contains(state_key(m.0)),
                            None => true,
                        }) by {
                        if k == state_key(m.0) && !added.did_addend_already_exist {
                            assert(queued(queue@, optimal, k, true));
                        }
                        assert(o_mid.contains(k));
                    }
                }
                idx = idx + 1;
            }
            on_node_processed(item.node);
        }
        proof {
            opt_set.lemma_bounded();
            unp_set.lemma_bounded();
        }
    }
    proof {
        let o = opt_set@;
        let u = unp_set@;
        assert forall|k: u64| #[trigger] o.contains(k) implies (match optimal_move(
            ns,
            node_with_key(ns, k).0,
        ) {
            Some(m) => u.contains(state_key(m.0)),
            None => true,
        }) by {
            assert(!queued(queue@, optimal, k, true));
        }
        assert forall|k: u64, j: int|
            #![trigger u.contains(k), any_moves(ns, node_with_key(ns, k).0)[j]]
            u.contains(k) && 0 <= j < any_moves(ns, node_with_key(ns, k).0).len() implies o.contains(
                state_key(any_moves(ns, node_with_key(ns, k).0)[j].0),
            ) by {
            assert(!queued(queue@, optimal, k, false));
        }
        let i0 = choose|i: int| 0 <= i < ns.len() && state_of(ns[i].0) == state_of(initial_state.0);
        assert(ns.contains(start));
        assert forall|line: Seq<SearchNode>| #[trigger] is_line(ns, optimal, start, line) implies o.union(
            u,
        ).contains(state_key(line.last().0)) by {
            lemma_lines_stay_in_sets(ns, optimal, start, o, u, line);
        }
        assert forall|k: u64| o.union(u).contains(k) implies exists|line: Seq<SearchNode>|
            #[trigger] is_line(ns, optimal, start, line) && state_key(line.last().0) == k by {
            let p = if o.contains(k) {
                optimal
            } else {
                if optimal == Player::Sente {
                    Player::Gote
                } else {
                    Player::Sente
                }
            };
            assert(line_to(ns, optimal, start, k, p));
            let line = choose|line: Seq<SearchNode>|
                #[trigger] is_line(ns, optimal, start, line) && line.last() == node_with_key(ns, k)
                    && player_at(line.len() - 1) == p;
            let i = choose|i: int| 0 <= i < ns.len() && state_key(ns[i].0) == k;
            lemma_stored(ns, i);
        }
    }
    opt_set.union(&unp_set)
}

} // verus!
