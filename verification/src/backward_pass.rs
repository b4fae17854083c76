//! Retrograde analysis over a slice of all reachable nodes.
use vstd::prelude::*;
use crate::bits::field;
use crate::children::{as_search_nodes, children_of};
use crate::node::{
    SearchNode, Terminality, STATE_MASK, best_known_outcome_of, report_count_of, state_of,
    terminality_of,
};
use crate::outcome::i9_encoding;
use crate::parents::parents_of;
use crate::state_set::SEARCH_NODE_LIMIT;

verus! {

/// `-201` in 9-bit two's complement, left-padded with zeros
/// to fill the 64-bit integer.
pub const NEGATIVE_201_I9: u64 = 0b1_0011_0111;

/// `201` in 9-bit two's complement, left-padded with zeros
/// to fill the 64-bit integer.
pub const POSITIVE_201_I9: u64 = 0b0_1100_1001;

/// The state stats bits of a search node.
pub const STATS_MASK: u64 = 0xffff;

/// Node `x` with required child report count `count` and best known
/// outcome encoded as `outcome`.
pub open spec fn with_stats(x: u64, count: u64, outcome: u64) -> u64 {
    (x & !STATS_MASK) | (count << 9u64) | outcome
}

/// What `with_stats` does, field by field.
pub proof fn lemma_with_stats(x: u64, count: u64, outcome: u64)
    by (bit_vector)
    requires
        count < 128,
        outcome < 512,
    ensures
        ((x & !0xffffu64) | (count << 9u64) | outcome) >> 9u64 & 127 == count,
        ((x & !0xffffu64) | (count << 9u64) | outcome) >> 0u64 & 511 == outcome,
        ((x & !0xffffu64) | (count << 9u64) | outcome) & 0x00ff_ffff_ffff_0000u64 == x
            & 0x00ff_ffff_ffff_0000u64,
        ((x & !0xffffu64) | (count << 9u64) | outcome) & !0xffffu64 == x & !0xffffu64,
        x < 0x100_0000_0000_0000 ==> ((x & !0xffffu64) | (count << 9u64) | outcome)
            < 0x100_0000_0000_0000,
{
}

/// The node with its state stats initialized: a nonterminal node has to
/// hear from all of its children and is assumed lost in the meantime; a
/// terminal node is won or lost at once.
pub open spec fn initialized(x: u64) -> u64 {
    match terminality_of(x) {
        Terminality::Nonterminal => with_stats(x, children_of(x).len() as u64, NEGATIVE_201_I9),
        Terminality::Win => with_stats(x, 0, POSITIVE_201_I9),
        Terminality::Loss => with_stats(x, 0, NEGATIVE_201_I9),
    }
}

/// Whether the nodes are sorted by state.
pub open spec fn sorted_by_state(s: Seq<SearchNode>) -> bool {
    forall|i: int, j: int| 0 <= i <= j < s.len() ==> state_of(s[i].0) <= state_of(s[j].0)
}

/// Whether every node uses only the least significant 56 bits.
pub open spec fn all_search_nodes(s: Seq<SearchNode>) -> bool {
    forall|i: int| 0 <= i < s.len() ==> (#[trigger] s[i]).0 < SEARCH_NODE_LIMIT
}

/// The sum of the required child report counts of the nodes.
pub open spec fn total_report_count(s: Seq<SearchNode>) -> nat
    decreases s.len(),
{
    if s.len() == 0 {
        0
    } else {
        total_report_count(s.drop_last()) + report_count_of(s.last().0) as nat
    }
}

proof fn lemma_total_report_count_update(s: Seq<SearchNode>, i: int, v: SearchNode)
    requires
        0 <= i < s.len(),
    ensures
        total_report_count(s.update(i, v)) + report_count_of(s[i].0) == total_report_count(s)
            + report_count_of(v.0),
    decreases s.len(),
{
    if i < s.len() - 1 {
        lemma_total_report_count_update(s.drop_last(), i, v);
        assert(s.update(i, v).drop_last() =~= s.drop_last().update(i, v));
    } else {
        assert(s.update(i, v).drop_last() =~= s.drop_last());
    }
}

/// Sorts the nodes in ascending order with std's `<[T]>::sort_unstable_by_key`,
/// keyed by the whole 64 bits of each node. The contract claims what std
/// documents of it: the same length, the same elements (a permutation), in
/// ascending order of the key.
#[verifier::external_body]
fn sort_nodes(states: &mut [SearchNode])
    ensures
        final(states)@.len() == old(states)@.len(),
        final(states)@.to_multiset() == old(states)@.to_multiset(),
        forall|i: int, j: int|
            0 <= i <= j < final(states)@.len() ==> final(states)@[i].0 <= final(states)@[j].0,
{
    states.sort_unstable_by_key(|node| node.0);
}

/// The index of a node with state `state`, if any.
pub fn find_by_state(states: &[SearchNode], state: u64) -> (r: Option<usize>)
    requires
        sorted_by_state(states@),
    ensures
        r is Some ==> r.unwrap() < states@.len() && state_of(states@[r.unwrap() as int].0)
            == state,
        r is None ==> forall|i: int| 0 <= i < states@.len() ==> state_of(states@[i].0) != state,
{
    let mut lo: usize = 0;
    let mut hi: usize = states.len();
    while lo < hi
        invariant
            0 <= lo <= hi <= states@.len(),
            sorted_by_state(states@),
            forall|i: int| 0 <= i < lo ==> state_of(states@[i].0) < state,
            forall|i: int| hi <= i < states@.len() ==> state_of(states@[i].0) > state,
        decreases hi - lo,
    {
        let mid: usize = lo + (hi - lo) / 2;
        let other: u64 = states[mid].state();
        if other == state {
            return Some(mid);
        } else if other < state {
            lo = mid + 1;
        } else {
            hi = mid;
        }
    }
    None
}

/// Initializes the state stats of every node (see `initialized`).
pub fn init_required_child_report_count_and_best_known_outcome(states: &mut [SearchNode])
    ensures
        final(states)@.len() == old(states)@.len(),
        forall|i: int|
            0 <= i < final(states)@.len() ==> (#[trigger] final(states)@[i]).0 == initialized(
                old(states)@[i].0,
            ),
{
    let mut i: usize = 0;
    while i < states.len()
        invariant
            0 <= i <= states@.len(),
            states@.len() == old(states)@.len(),
            forall|j: int| 0 <= j < i ==> (#[trigger] states@[j]).0 == initialized(old(states)@[j].0),
            forall|j: int| i <= j < states@.len() ==> states@[j] == old(states)@[j],
        decreases states@.len() - i,
    {
        let state = states[i];
        let x: u64 = state.0;
        let cleared: u64 = x & !((0b111_1111u64 << 9u64) | (0b1_1111_1111u64 << 0u64));
        assert(!((0b111_1111u64 << 9u64) | (0b1_1111_1111u64 << 0u64)) == !0xffffu64)
            by (bit_vector);
        let updated: u64 = match state.terminality() {
            Terminality::Nonterminal => {
                let count: u64 = state.total_child_count() as u64;
                cleared | (count << 9u64) | (NEGATIVE_201_I9 << 0u64)
            },
            Terminality::Win => cleared | (0u64 << 9u64) | (POSITIVE_201_I9 << 0u64),
            Terminality::Loss => cleared | (0u64 << 9u64) | (NEGATIVE_201_I9 << 0u64),
        };
        assert(updated == initialized(x)) by {
            assert((NEGATIVE_201_I9 << 0u64) == NEGATIVE_201_I9 && (POSITIVE_201_I9 << 0u64)
                == POSITIVE_201_I9 && (0u64 << 9u64) == 0u64 * 512) by (bit_vector);
        }
        states[i] = SearchNode(updated);
        i = i + 1;
    }
}

/// Pushes the terminal nodes, in order.
pub fn add_terminal_nodes(states: &[SearchNode], stack: &mut Vec<SearchNode>)
    ensures
        final(stack)@ == old(stack)@ + states@.filter(
            |n: SearchNode| terminality_of(n.0) != Terminality::Nonterminal,
        ),
{
    let ghost pred = |n: SearchNode| terminality_of(n.0) != Terminality::Nonterminal;
    let mut i: usize = 0;
    while i < states.len()
        invariant
            0 <= i <= states@.len(),
            stack@ == old(stack)@ + states@.take(i as int).filter(pred),
            pred == (|n: SearchNode| terminality_of(n.0) != Terminality::Nonterminal),
        decreases states@.len() - i,
    {
        let state = states[i];
        proof {
            assert(states@.take(i as int + 1).drop_last() =~= states@.take(i as int));
            reveal(Seq::filter);
        }
        if state.is_terminal() {
            stack.push(state);
        }
        assert(stack@ =~= old(stack)@ + states@.take(i as int + 1).filter(pred));
        i = i + 1;
    }
    assert(states@.take(states@.len() as int) =~= states@);
}

/// How replacing the best known outcome, and taking one from the required
/// child report count, change a node.
proof fn lemma_stat_updates(x: u64, enc: u64)
    by (bit_vector)
    requires
        enc < 512,
    ensures
        ((x & !(511u64 << 0u64)) | (enc << 0u64)) & 0x00ff_ffff_ffff_0000u64 == x
            & 0x00ff_ffff_ffff_0000u64,
        (((x & !(511u64 << 0u64)) | (enc << 0u64)) >> 9u64) & 127 == (x >> 9u64) & 127,
        (((x & !(511u64 << 0u64)) | (enc << 0u64)) >> 0u64) & 511 == enc,
        x < 0x100_0000_0000_0000 ==> ((x & !(511u64 << 0u64)) | (enc << 0u64))
            < 0x100_0000_0000_0000,
        (x >> 9u64) & 127 > 0 ==> ((x - 512) as u64) & 0x00ff_ffff_ffff_0000u64 == x
            & 0x00ff_ffff_ffff_0000u64,
        (x >> 9u64) & 127 > 0 ==> (((x - 512) as u64) >> 0u64) & 511 == (x >> 0u64) & 511,
        (x >> 9u64) & 127 > 0 && x < 0x100_0000_0000_0000 ==> (x - 512) < 0x100_0000_0000_0000,
{
}

/// Ordering nodes orders their states.
proof fn lemma_state_monotone(a: u64, b: u64)
    by (bit_vector)
    requires
        a <= b,
    ensures
        a & 0x00ff_ffff_ffff_0000u64 <= b & 0x00ff_ffff_ffff_0000u64 || b >= 0x100_0000_0000_0000,
{
}

/// Nodes with one state have one terminality.
pub proof fn lemma_terminality_by_state(a: u64, b: u64)
    requires
        state_of(a) == state_of(b),
    ensures
        terminality_of(a) == terminality_of(b),
{
    assert((a >> 20u64) & 15 == (b >> 20u64) & 15 && (a >> 22u64) & 3 == (b >> 22u64) & 3)
        by (bit_vector)
        requires
            a & 0x00ff_ffff_ffff_0000u64 == b & 0x00ff_ffff_ffff_0000u64,
    ;
}

/// What initializing the state stats of a node gives.
pub proof fn lemma_initialized(x: u64)
    ensures
        state_of(initialized(x)) == state_of(x),
        x < SEARCH_NODE_LIMIT ==> initialized(x) < SEARCH_NODE_LIMIT,
        terminality_of(initialized(x)) == terminality_of(x),
        report_count_of(initialized(x)) == (if terminality_of(x) == Terminality::Nonterminal {
            children_of(x).len()
        } else {
            0
        }),
        best_known_outcome_of(initialized(x)) == (if terminality_of(x) == Terminality::Win {
            201
        } else {
            -201
        }),
{
    crate::children::lemma_children_len(x);
    let count: u64 = if terminality_of(x) == Terminality::Nonterminal {
        children_of(x).len() as u64
    } else {
        0
    };
    let outcome: u64 = if terminality_of(x) == Terminality::Win {
        POSITIVE_201_I9
    } else {
        NEGATIVE_201_I9
    };
    lemma_with_stats(x, count, outcome);
    lemma_terminality_by_state(initialized(x), x);
}

/// Whether some parent of node `x` has state `st`.
pub open spec fn has_parent_with_state(x: u64, st: u64) -> bool {
    exists|q: int| 0 <= q < parents_of(x).len() && state_of(#[trigger] parents_of(x)[q]) == st
}

/// Whether the best known outcome of `s[i]` is what a settled node of `s`,
/// of which `s[i]` has the state of a parent, reported: that node's outcome
/// seen from `s[i]`.
pub open spec fn node_witnessed(s: Seq<SearchNode>, i: int) -> bool {
    exists|c: int|
        #![trigger s[c]]
        0 <= c < s.len() && report_count_of(s[c].0) == 0 && has_parent_with_state(
            s[c].0,
            state_of(s[i].0),
        ) && best_known_outcome_of(s[i].0) == crate::node::child_challenger(
            best_known_outcome_of(s[c].0),
        )
}

/// Whether node `s[i]` has heard of outcome `o` from a child: it is
/// settled, or its best known outcome is at least `o` seen from it.
pub open spec fn node_heard(s: Seq<SearchNode>, i: int, o: int) -> bool {
    report_count_of(s[i].0) == 0 || best_known_outcome_of(s[i].0)
        >= crate::node::child_challenger(o)
}

/// Whether some node of `s` has state `st`.
pub open spec fn has_state(s: Seq<SearchNode>, st: u64) -> bool {
    exists|i: int| 0 <= i < s.len() && state_of(#[trigger] s[i].0) == st
}

/// Whether some node of `s` with state `st` has heard of outcome `o`.
pub open spec fn heard_at_state(s: Seq<SearchNode>, st: u64, o: int) -> bool {
    exists|i: int| 0 <= i < s.len() && state_of(#[trigger] s[i].0) == st && node_heard(s, i, o)
}

/// Whether node `s[c]` has reported its best known outcome to each of its
/// parents in `s`: for each parent state that some node of `s` has, a node
/// with that state has heard of it.
pub open spec fn node_reported_to_parents(s: Seq<SearchNode>, c: int) -> bool {
    forall|q: int|
        0 <= q < parents_of(s[c].0).len() && has_state(s, state_of(#[trigger] parents_of(s[c].0)[q]))
            ==> heard_at_state(s, state_of(parents_of(s[c].0)[q]), best_known_outcome_of(s[c].0))
}

/// Whether node `c` of `s`, initialized as `init[c]`, reports its outcome:
/// it is terminal, or it had children to hear from and has heard from
/// them all.
pub open spec fn node_reporting(s: Seq<SearchNode>, init: Seq<SearchNode>, c: int) -> bool {
    terminality_of(init[c].0) != Terminality::Nonterminal || (report_count_of(init[c].0) > 0
        && report_count_of(s[c].0) == 0)
}

/// Whether a copy of node `x` waits on the stack.
spec fn stacked(stack: Seq<SearchNode>, x: SearchNode) -> bool {
    exists|j: int| 0 <= j < stack.len() && stack[j] == x
}

/// Updating one unsettled node so that its best known outcome does not get
/// worse keeps what the nodes have heard and reported.
proof fn lemma_heard_update(before: Seq<SearchNode>, idx: int, v: SearchNode)
    requires
        0 <= idx < before.len(),
        report_count_of(before[idx].0) > 0,
        state_of(v.0) == state_of(before[idx].0),
        best_known_outcome_of(v.0) >= best_known_outcome_of(before[idx].0),
    ensures
        forall|st: u64, o: int|
            heard_at_state(before, st, o) ==> #[trigger] heard_at_state(before.update(idx, v), st, o),
        forall|st: u64| #[trigger] has_state(before.update(idx, v), st) == has_state(before, st),
        forall|c: int|
            0 <= c < before.len() && c != idx && node_reported_to_parents(before, c)
                ==> #[trigger] node_reported_to_parents(before.update(idx, v), c),
{
    let after = before.update(idx, v);
    assert forall|st: u64, o: int| heard_at_state(before, st, o) implies #[trigger] heard_at_state(
        after,
        st,
        o,
    ) by {
        let i = choose|i: int|
            0 <= i < before.len() && state_of(#[trigger] before[i].0) == st && node_heard(before, i, o);
        assert(state_of(after[i].0) == st);
        assert(node_heard(after, i, o));
    }
    assert forall|st: u64| #[trigger] has_state(after, st) == has_state(before, st) by {
        if has_state(before, st) {
            let i = choose|i: int| 0 <= i < before.len() && state_of(#[trigger] before[i].0) == st;
            assert(state_of(after[i].0) == st);
        }
        if has_state(after, st) {
            let i = choose|i: int| 0 <= i < after.len() && state_of(#[trigger] after[i].0) == st;
            assert(state_of(before[i].0) == st);
        }
    }
    assert forall|c: int|
        0 <= c < before.len() && c != idx && node_reported_to_parents(before, c) implies #[trigger] node_reported_to_parents(
        after,
        c,
    ) by {
        assert(after[c] == before[c]);
        assert forall|q: int|
            0 <= q < parents_of(after[c].0).len() && has_state(
                after,
                state_of(#[trigger] parents_of(after[c].0)[q]),
            ) implies heard_at_state(
            after,
            state_of(parents_of(after[c].0)[q]),
            best_known_outcome_of(after[c].0),
        ) by {
            let st = state_of(parents_of(before[c].0)[q]);
            assert(has_state(before, st));
            assert(heard_at_state(before, st, best_known_outcome_of(before[c].0)));
        }
    }
}

/// Solves the game, given every reachable node: sorts the nodes by state,
/// then works back from the terminal nodes. Each node whose children have
/// all reported is settled and reports its best outcome to each of its
/// parents in the slice; a parent takes the best of what it hears (one ply
/// later, from the other side) and is settled once every child has
/// reported. A node that has already heard from as many children as it has
/// is left as it is.
///
/// The result holds the same states, sorted, each with its own state stats:
/// a node that had nothing to hear is as initialized (see `initialized`),
/// and no node has more children left to hear from than it has children.
/// `on_node_processed` is called with each node once it has reported.
#[verifier::spinoff_prover]
pub fn solve(states: &mut [SearchNode], mut on_node_processed: impl FnMut(SearchNode))
    requires
        all_search_nodes(old(states)@),
        forall|n: SearchNode| call_requires(on_node_processed, (n,)),
    ensures
        final(states)@.len() == old(states)@.len(),
        all_search_nodes(final(states)@),
        sorted_by_state(final(states)@),
        exists|sorted: Seq<SearchNode>|
            {
                &&& #[trigger] sorted.to_multiset() == old(states)@.to_multiset()
                &&& sorted.len() == final(states)@.len()
                &&& forall|i: int|
                    0 <= i < sorted.len() ==> state_of(#[trigger] final(states)@[i].0) == state_of(
                        sorted[i].0,
                    )
                &&& forall|i: int|
                    0 <= i < sorted.len() ==> report_count_of(#[trigger] final(states)@[i].0)
                        <= report_count_of(initialized(sorted[i].0))
                &&& forall|i: int|
                    0 <= i < sorted.len() && report_count_of(initialized(sorted[i].0)) == 0
                        ==> #[trigger] final(states)@[i].0 == initialized(sorted[i].0)
                &&& forall|i: int|
                    0 <= i < sorted.len() ==> best_known_outcome_of(#[trigger] final(states)@[i].0)
                        >= best_known_outcome_of(initialized(sorted[i].0))
                &&& forall|i: int|
                    0 <= i < sorted.len() ==> best_known_outcome_of(#[trigger] final(states)@[i].0)
                        == best_known_outcome_of(initialized(sorted[i].0)) || node_witnessed(
                        final(states)@,
                        i,
                    )
                &&& forall|i: int|
                    0 <= i < sorted.len() && (terminality_of(sorted[i].0) != Terminality::Nonterminal
                        || (report_count_of(initialized(sorted[i].0)) > 0 && report_count_of(
                        final(states)@[i].0,
                    ) == 0)) ==> #[trigger] node_reported_to_parents(final(states)@, i)
            },
        crate::retrograde::all_reachable(old(states)@) ==> crate::retrograde::solved(
            final(states)@,
        ),
        crate::retrograde::all_reachable(old(states)@) ==> exists|ord: Seq<u64>|
            crate::retrograde::settled_in_order(final(states)@, ord),
        crate::retrograde::all_reachable(old(states)@) ==> crate::retrograde::counts_unheard(
            final(states)@,
        ),
{
    sort_nodes(states);
    let ghost sorted = states@;
    proof {
        assert(sorted.to_multiset() == old(states)@.to_multiset());
        if crate::retrograde::all_reachable(old(states)@) {
            crate::retrograde::lemma_reachable_permuted(old(states)@, sorted);
        }
        assert forall|i: int| 0 <= i < sorted.len() implies (#[trigger] sorted[i]).0
            < SEARCH_NODE_LIMIT by {
            broadcast use vstd::seq_lib::group_to_multiset_ensures;
            assert(sorted.contains(sorted[i]));
            assert(sorted.to_multiset().count(sorted[i]) > 0);
            assert(old(states)@.to_multiset().count(sorted[i]) > 0);
            assert(old(states)@.contains(sorted[i]));
            let j = choose|j: int| 0 <= j < old(states)@.len() && old(states)@[j] == sorted[i];
            assert(old(states)@[j].0 < SEARCH_NODE_LIMIT);
        }
    }
    init_required_child_report_count_and_best_known_outcome(states);
    let ghost init = states@;
    proof {
        assert forall|i: int| 0 <= i < init.len() implies state_of((#[trigger] init[i]).0)
            == state_of(sorted[i].0) && init[i].0 < SEARCH_NODE_LIMIT by {
            lemma_initialized(sorted[i].0);
        }
        assert forall|i: int, j: int| 0 <= i <= j < init.len() implies state_of(init[i].0)
            <= state_of(init[j].0) by {
            lemma_state_monotone(sorted[i].0, sorted[j].0);
            lemma_initialized(sorted[i].0);
            lemma_initialized(sorted[j].0);
        }
    }

    let mut known_stack: Vec<SearchNode> = Vec::new();
    add_terminal_nodes(states, &mut known_stack);
    proof {
        let pred = |n: SearchNode| terminality_of(n.0) != Terminality::Nonterminal;
        assert forall|j: int| 0 <= j < known_stack@.len() implies report_count_of(
            (#[trigger] known_stack@[j]).0,
        ) == 0 && exists|i: int| 0 <= i < states@.len() && states@[i] == known_stack@[j] by {
            let f = states@.filter(pred);
            assert(known_stack@ == f);
            assert(f.contains(f[j]));
            states@.lemma_filter_contains_rev(pred, f[j]);
            let i = choose|i: int| 0 <= i < states@.len() && states@[i] == f[j];
            lemma_initialized(sorted[i].0);
            lemma_terminality_by_state(init[i].0, sorted[i].0);
        }
        assert forall|c: int|
            0 <= c < init.len() && terminality_of((#[trigger] init[c]).0)
                != Terminality::Nonterminal implies report_count_of(init[c].0) == 0 by {
            lemma_initialized(sorted[c].0);
        }
        assert forall|c: int|
            0 <= c < init.len() && #[trigger] node_reporting(states@, init, c) implies node_reported_to_parents(
            states@,
            c,
        ) || stacked(known_stack@, states@[c]) by {
            let f = states@.filter(pred);
            assert(known_stack@ == f);
            states@.lemma_filter_contains(pred, c);
            assert(f.contains(states@[c]));
        }
        if crate::retrograde::all_reachable(sorted) {
            crate::retrograde::lemma_solver_start(sorted, init, known_stack@);
        }
    }
    let ghost mut reported: Set<u64> = Set::empty();
    let ghost mut ord: Seq<u64> = Seq::empty();
    proof {
        crate::retrograde::lemma_slice_order_start(sorted);
    }

    loop
        invariant
            states@.len() == init.len(),
            forall|n: SearchNode| call_requires(on_node_processed, (n,)),
            init.len() == sorted.len(),
            forall|i: int| 0 <= i < init.len() ==> (#[trigger] init[i]).0 == initialized(sorted[i].0),
            forall|i: int|
                0 <= i < init.len() ==> state_of(#[trigger] states@[i].0) == state_of(init[i].0),
            forall|i: int| 0 <= i < init.len() ==> (#[trigger] states@[i]).0 < SEARCH_NODE_LIMIT,
            forall|i: int|
                0 <= i < init.len() ==> report_count_of(#[trigger] states@[i].0)
                    <= report_count_of(init[i].0),
            forall|i: int|
                0 <= i < init.len() && report_count_of(init[i].0) == 0 ==> #[trigger] states@[i]
                    == init[i],
            sorted_by_state(states@),
            forall|j: int|
                0 <= j < known_stack@.len() ==> report_count_of((#[trigger] known_stack@[j]).0) == 0
                    && exists|i: int| 0 <= i < states@.len() && states@[i] == known_stack@[j],
            forall|i: int|
                0 <= i < init.len() ==> best_known_outcome_of(#[trigger] states@[i].0)
                    >= best_known_outcome_of(init[i].0),
            forall|i: int|
                0 <= i < init.len() ==> best_known_outcome_of(#[trigger] states@[i].0)
                    == best_known_outcome_of(init[i].0) || node_witnessed(states@, i),
            forall|c: int|
                0 <= c < init.len() && terminality_of((#[trigger] init[c]).0)
                    != Terminality::Nonterminal ==> report_count_of(init[c].0) == 0,
            forall|c: int|
                0 <= c < init.len() && #[trigger] node_reporting(states@, init, c)
                    ==> node_reported_to_parents(states@, c) || stacked(known_stack@, states@[c]),
            crate::retrograde::all_reachable(sorted) ==> crate::retrograde::between_reports(
                states@,
                sorted,
                init,
                reported,
                known_stack@,
            ),
            crate::retrograde::all_reachable(sorted) ==> crate::retrograde::slice_order(
                sorted,
                ord,
                reported,
            ),
        ensures
            known_stack@.len() == 0,
        decreases total_report_count(states@), known_stack.len(),
    {
        let ghost stack_before = known_stack@;
        let top = match known_stack.pop() {
            Some(t) => t,
            None => break,
        };
        assert(stack_before[stack_before.len() - 1] == top);
        let ghost i_top = choose|i: int| 0 <= i < states@.len() && states@[i] == top;
        assert forall|j: int| 0 <= j < known_stack@.len() implies report_count_of(
            (#[trigger] known_stack@[j]).0,
        ) == 0 && exists|i: int| 0 <= i < states@.len() && states@[i] == known_stack@[j] by {
            assert(known_stack@[j] == stack_before[j]);
        }
        assert forall|c: int|
            0 <= c < init.len() && #[trigger] node_reporting(states@, init, c) implies node_reported_to_parents(
            states@,
            c,
        ) || stacked(known_stack@, states@[c]) || states@[c] == top by {
            if !node_reported_to_parents(states@, c) {
                let j = choose|j: int| 0 <= j < stack_before.len() && stack_before[j] == states@[c];
                if j < known_stack@.len() {
                    assert(known_stack@[j] == stack_before[j]);
                }
            }
        }
        let outcome = top.best_known_outcome();
        proof {
            crate::bits::lemma_field_bounds(top.0, 0);
            crate::outcome::lemma_i9_round_trip(0, (top.0 >> 0u64) & 511);
        }
        let parents = top.parents();
        proof {
            if crate::retrograde::all_reachable(sorted) {
                assert(known_stack@ == stack_before.drop_last());
                crate::retrograde::lemma_solver_pop(
                    states@,
                    sorted,
                    init,
                    reported,
                    stack_before,
                    i_top,
                );
                crate::retrograde::lemma_slice_order_pop(
                    states@,
                    sorted,
                    init,
                    reported,
                    stack_before,
                    i_top,
                    ord,
                );
            }
            ord = ord.push(state_of(sorted[i_top].0));
        }
        let ghost total0 = total_report_count(states@);
        let ghost len0 = known_stack.len();
        let mut k: usize = 0;
        while k < parents.len()
            invariant
                0 <= k <= parents.len(),
                -256 <= outcome.0 <= 255,
                states@.len() == init.len(),
                init.len() == sorted.len(),
                forall|i: int|
                    0 <= i < init.len() ==> state_of(#[trigger] states@[i].0) == state_of(
                        init[i].0,
                    ),
                forall|i: int| 0 <= i < init.len() ==> (#[trigger] states@[i]).0 < SEARCH_NODE_LIMIT,
                forall|i: int|
                    0 <= i < init.len() ==> report_count_of(#[trigger] states@[i].0)
                        <= report_count_of(init[i].0),
                forall|i: int|
                    0 <= i < init.len() && report_count_of(init[i].0) == 0 ==> #[trigger] states@[i]
                        == init[i],
                sorted_by_state(states@),
                known_stack.len() >= len0,
                total_report_count(states@) + (known_stack.len() - len0) <= total0,
                0 <= i_top < states@.len(),
                states@[i_top] == top,
                report_count_of(top.0) == 0,
                outcome.0 == best_known_outcome_of(top.0),
                parents@ == as_search_nodes(parents_of(top.0)),
                forall|j: int|
                    0 <= j < known_stack@.len() ==> report_count_of((#[trigger] known_stack@[j]).0)
                        == 0 && exists|i: int| 0 <= i < states@.len() && states@[i] == known_stack@[j],
                forall|i: int|
                    0 <= i < init.len() ==> best_known_outcome_of(#[trigger] states@[i].0)
                        >= best_known_outcome_of(init[i].0),
                forall|i: int|
                    0 <= i < init.len() ==> best_known_outcome_of(#[trigger] states@[i].0)
                        == best_known_outcome_of(init[i].0) || node_witnessed(states@, i),
                forall|c: int|
                    0 <= c < init.len() && terminality_of((#[trigger] init[c]).0)
                        != Terminality::Nonterminal ==> report_count_of(init[c].0) == 0,
                forall|c: int|
                    0 <= c < init.len() && #[trigger] node_reporting(states@, init, c)
                        ==> node_reported_to_parents(states@, c) || stacked(known_stack@, states@[c])
                        || states@[c] == top,
                forall|q: int|
                    0 <= q < k && has_state(states@, state_of(#[trigger] parents_of(top.0)[q]))
                        ==> heard_at_state(states@, state_of(parents_of(top.0)[q]), outcome.0 as int),
                crate::retrograde::all_reachable(sorted) ==> crate::retrograde::while_reporting(
                    states@,
                    sorted,
                    init,
                    reported,
                    known_stack@,
                    i_top,
                    outcome.0 as int,
                    k as int,
                ),
                crate::retrograde::all_reachable(sorted) ==> crate::lineage::parent_states(top.0)
                    == crate::lineage::parent_states(sorted[i_top].0),
                crate::retrograde::all_reachable(sorted) ==> crate::retrograde::slice_order(
                    sorted,
                    ord,
                    reported.insert(state_of(sorted[i_top].0)),
                ),
            decreases parents.len() - k,
        {
            let parent_state: u64 = parents[k].state();
            match find_by_state(states, parent_state) {
                Some(idx) => {
                    let parent = states[idx];
                    if parent.required_child_report_count() > 0 {
                        let recorded = parent.record_child_outcome(outcome);
                        proof {
                            let ch = crate::node::child_challenger(outcome.0 as int);
                            lemma_stat_updates(parent.0, i9_encoding(ch));
                        }
                        let updated = recorded.decrement_required_child_report_count();
                        proof {
                            lemma_stat_updates(recorded.0, 0);
                            lemma_total_report_count_update(states@, idx as int, updated);
                        }
                        let ghost before = states@;
                        let ghost stack_mid = known_stack@;
                        states[idx] = updated;
                        proof {
                            let ch = crate::node::child_challenger(outcome.0 as int);
                            crate::outcome::lemma_i9_round_trip(ch, 0);
                            assert(states@ == before.update(idx as int, updated));
                            assert forall|i: int, j: int| 0 <= i <= j < states@.len() implies state_of(
                                states@[i].0,
                            ) <= state_of(states@[j].0) by {
                                assert(state_of(states@[i].0) == state_of(before[i].0));
                                assert(state_of(states@[j].0) == state_of(before[j].0));
                            }
                            assert(best_known_outcome_of(updated.0) == if ch > best_known_outcome_of(
                                parent.0,
                            ) {
                                ch
                            } else {
                                best_known_outcome_of(parent.0)
                            });
                            assert(idx != i_top);
                            assert(has_parent_with_state(top.0, state_of(states@[idx as int].0))) by {
                                assert(state_of(parents_of(top.0)[k as int]) == state_of(
                                    states@[idx as int].0,
                                ));
                            }
                            assert forall|i: int| 0 <= i < init.len() implies best_known_outcome_of(
                                #[trigger] states@[i].0,
                            ) == best_known_outcome_of(init[i].0) || node_witnessed(states@, i) by {
                                if i == idx && ch > best_known_outcome_of(parent.0) {
                                    assert(states@[i_top] == top);
                                } else if best_known_outcome_of(before[i].0) != best_known_outcome_of(
                                    init[i].0,
                                ) {
                                    assert(node_witnessed(before, i));
                                    let c = choose|c: int|
                                        #![trigger before[c]]
                                        0 <= c < before.len() && report_count_of(before[c].0) == 0
                                            && has_parent_with_state(
                                            before[c].0,
                                            state_of(before[i].0),
                                        ) && best_known_outcome_of(before[i].0)
                                            == crate::node::child_challenger(
                                            best_known_outcome_of(before[c].0),
                                        );
                                    assert(c != idx);
                                    assert(states@[c] == before[c]);
                                }
                            }
                            assert forall|j: int| 0 <= j < stack_mid.len() implies exists|i: int|
                                0 <= i < states@.len() && states@[i] == #[trigger] stack_mid[j] by {
                                assert(report_count_of(stack_mid[j].0) == 0);
                                let i = choose|i: int| 0 <= i < before.len() && before[i] == stack_mid[j];
                                assert(i != idx);
                                assert(states@[i] == before[i]);
                            }
                        }
                        if updated.required_child_report_count() == 0 {
                            known_stack.push(updated);
                            proof {
                                assert(states@[idx as int] == updated);
                            }
                        }
                        proof {
                            assert forall|j: int| 0 <= j < known_stack@.len() implies report_count_of(
                                (#[trigger] known_stack@[j]).0,
                            ) == 0 && exists|i: int|
                                0 <= i < states@.len() && states@[i] == known_stack@[j] by {
                                if j < stack_mid.len() {
                                    assert(known_stack@[j] == stack_mid[j]);
                                } else {
                                    assert(states@[idx as int] == known_stack@[j]);
                                }
                            }
                        }
                        proof {
                            let st = state_of(parents_of(top.0)[k as int]);
                            assert(parents@[k as int] == SearchNode(parents_of(top.0)[k as int]));
                            lemma_heard_update(before, idx as int, updated);
                            assert(node_heard(states@, idx as int, outcome.0 as int));
                            assert(heard_at_state(states@, st, outcome.0 as int));
                            assert forall|q: int|
                                0 <= q < k + 1 && has_state(
                                    states@,
                                    state_of(#[trigger] parents_of(top.0)[q]),
                                ) implies heard_at_state(
                                states@,
                                state_of(parents_of(top.0)[q]),
                                outcome.0 as int,
                            ) by {
                                if q < k {
                                    let sq = state_of(parents_of(top.0)[q]);
                                    assert(has_state(before, sq));
                                    assert(heard_at_state(before, sq, outcome.0 as int));
                                }
                            }
                            assert forall|c: int|
                                0 <= c < init.len() && #[trigger] node_reporting(
                                    states@,
                                    init,
                                    c,
                                ) implies node_reported_to_parents(states@, c) || stacked(
                                known_stack@,
                                states@[c],
                            ) || states@[c] == top by {
                                if c == idx {
                                    assert(known_stack@[known_stack@.len() - 1] == updated);
                                } else {
                                    assert(states@[c] == before[c]);
                                    assert(node_reporting(before, init, c));
                                    if node_reported_to_parents(before, c) {
                                    } else if stacked(stack_mid, before[c]) {
                                        let j = choose|j: int|
                                            0 <= j < stack_mid.len() && stack_mid[j] == before[c];
                                        assert(known_stack@[j] == stack_mid[j]);
                                    }
                                }
                            }
                        }
                        proof {
                            if crate::retrograde::all_reachable(sorted) {
                                let ps = crate::lineage::parent_states(top.0);
                                assert(ps[k as int] == parent_state);
                                crate::retrograde::lemma_solver_heard(
                                    before,
                                    states@,
                                    sorted,
                                    init,
                                    reported,
                                    stack_mid,
                                    known_stack@,
                                    i_top,
                                    outcome.0 as int,
                                    k as int,
                                    idx as int,
                                    updated,
                                );
                            }
                        }
                    } else {
                        proof {
                            assert(parents@[k as int] == SearchNode(parents_of(top.0)[k as int]));
                            assert(node_heard(states@, idx as int, outcome.0 as int));
                            if crate::retrograde::all_reachable(sorted) {
                                let ps = crate::lineage::parent_states(top.0);
                                assert(ps[k as int] == parent_state);
                                crate::retrograde::lemma_solver_guard(
                                    states@,
                                    sorted,
                                    init,
                                    reported,
                                    known_stack@,
                                    i_top,
                                    outcome.0 as int,
                                    k as int,
                                    idx as int,
                                );
                            }
                        }
                    }
                },
                None => {
                    proof {
                        assert(parents@[k as int] == SearchNode(parents_of(top.0)[k as int]));
                        if crate::retrograde::all_reachable(sorted) {
                            let ps = crate::lineage::parent_states(top.0);
                            assert(ps[k as int] == parent_state);
                            crate::retrograde::lemma_solver_skip(
                                states@,
                                sorted,
                                init,
                                reported,
                                known_stack@,
                                i_top,
                                outcome.0 as int,
                                k as int,
                            );
                        }
                    }
                },
            }
            k = k + 1;
        }
        proof {
            if crate::retrograde::all_reachable(sorted) {
                crate::retrograde::lemma_solver_reported(
                    states@,
                    sorted,
                    init,
                    reported,
                    known_stack@,
                    i_top,
                    outcome.0 as int,
                );
            }
            reported = reported.insert(state_of(sorted[i_top].0));
            assert forall|c: int|
                0 <= c < init.len() && #[trigger] node_reporting(states@, init, c) implies node_reported_to_parents(
                states@,
                c,
            ) || stacked(known_stack@, states@[c]) by {
                if states@[c] == top && !stacked(known_stack@, states@[c]) {
                    assert forall|q: int|
                        0 <= q < parents_of(states@[c].0).len() && has_state(
                            states@,
                            state_of(#[trigger] parents_of(states@[c].0)[q]),
                        ) implies heard_at_state(
                        states@,
                        state_of(parents_of(states@[c].0)[q]),
                        best_known_outcome_of(states@[c].0),
                    ) by {
                        assert(parents_of(top.0)[q] == parents_of(states@[c].0)[q]);
                    }
                }
            }
        }
        on_node_processed(top);
    }
    proof {
        if crate::retrograde::all_reachable(sorted) {
            assert(known_stack@ =~= Seq::<SearchNode>::empty());
            crate::retrograde::lemma_solver_done(states@, sorted, init, reported);
            crate::retrograde::lemma_slice_order_done(states@, sorted, init, reported, ord);
            crate::retrograde::lemma_counts_done(states@, sorted, init, reported);
        }
        assert forall|i: int|
            0 <= i < sorted.len() && report_count_of(initialized(sorted[i].0)) == 0 implies #[trigger] states@[i].0
            == initialized(sorted[i].0) by {
            assert(init[i].0 == initialized(sorted[i].0));
        }
        assert(sorted.to_multiset() == old(states)@.to_multiset());
        assert forall|i: int| 0 <= i < sorted.len() implies best_known_outcome_of(
            #[trigger] states@[i].0,
        ) == best_known_outcome_of(initialized(sorted[i].0)) || node_witnessed(states@, i) by {
            assert(init[i].0 == initialized(sorted[i].0));
        }
        assert forall|i: int| 0 <= i < sorted.len() implies best_known_outcome_of(
            #[trigger] states@[i].0,
        ) >= best_known_outcome_of(initialized(sorted[i].0)) by {
            assert(init[i].0 == initialized(sorted[i].0));
        }
        assert forall|i: int|
            0 <= i < sorted.len() && (terminality_of(sorted[i].0) != Terminality::Nonterminal || (
            report_count_of(initialized(sorted[i].0)) > 0 && report_count_of(states@[i].0) == 0)) implies #[trigger] node_reported_to_parents(
            states@,
            i,
        ) by {
            assert(init[i].0 == initialized(sorted[i].0));
            lemma_initialized(sorted[i].0);
            assert(node_reporting(states@, init, i));
        }
    }
}

} // verus!
