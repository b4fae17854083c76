//! What solving a slice of all reachable nodes achieves: every node that
//! has heard from its children holds the best outcome among them, seen from
//! it, and every node that has not is waiting for a child that has not
//! been settled either.
use vstd::prelude::*;
use crate::children::children_of;
use crate::parents::parents_of;
use crate::forward_pass::{child_keys, is_walk, key_of, reaches};
use crate::state::State;
use crate::state_set::node_of_key;
use crate::lineage::{child_states, co, is_valid, pieces_placed};
use crate::node::{
    SearchNode, Terminality, best_known_outcome_of, built, child_challenger, report_count_of,
    state_of, terminality_of,
};

verus! {

/// How many of the states `cs` the set `p` holds.
pub open spec fn count_in(cs: Seq<u64>, p: Set<u64>) -> nat {
    cs.filter(|st: u64| p.contains(st)).len()
}

/// Counting states in a set, element by element.
proof fn lemma_count_in_step(cs: Seq<u64>, p: Set<u64>)
    requires
        cs.len() > 0,
    ensures
        count_in(cs, p) == count_in(cs.drop_last(), p) + (if p.contains(cs.last()) {
            1nat
        } else {
            0nat
        }),
{
    reveal(Seq::filter);
    let pred = |st: u64| p.contains(st);
    assert(cs.filter(pred) == if pred(cs.last()) {
        cs.drop_last().filter(pred).push(cs.last())
    } else {
        cs.drop_last().filter(pred)
    });
}

/// A set holds at most all of the states, and holds them all only if it
/// holds each.
pub proof fn lemma_count_in_bounds(cs: Seq<u64>, p: Set<u64>)
    ensures
        count_in(cs, p) <= cs.len(),
        count_in(cs, p) == cs.len() ==> forall|j: int| 0 <= j < cs.len() ==> p.contains(
            #[trigger] cs[j],
        ),
        (forall|j: int| 0 <= j < cs.len() ==> p.contains(#[trigger] cs[j])) ==> count_in(cs, p)
            == cs.len(),
    decreases cs.len(),
{
    if cs.len() > 0 {
        lemma_count_in_step(cs, p);
        lemma_count_in_bounds(cs.drop_last(), p);
        if forall|j: int| 0 <= j < cs.len() ==> p.contains(#[trigger] cs[j]) {
            assert forall|j: int| 0 <= j < cs.drop_last().len() implies p.contains(
                #[trigger] cs.drop_last()[j],
            ) by {
                assert(cs.drop_last()[j] == cs[j]);
            }
            assert(p.contains(cs[cs.len() - 1]));
        }
        if count_in(cs, p) == cs.len() {
            assert forall|j: int| 0 <= j < cs.len() implies p.contains(#[trigger] cs[j]) by {
                if j < cs.len() - 1 {
                    assert(cs.drop_last()[j] == cs[j]);
                }
            }
        }
    }
}

/// The empty set holds none of the states.
pub proof fn lemma_count_in_empty(cs: Seq<u64>)
    ensures
        count_in(cs, Set::empty()) == 0,
    decreases cs.len(),
{
    if cs.len() > 0 {
        lemma_count_in_step(cs, Set::empty());
        lemma_count_in_empty(cs.drop_last());
    }
}

/// Adding a state to the set counts it once more if the states, all
/// distinct, hold it.
pub proof fn lemma_count_in_insert(cs: Seq<u64>, p: Set<u64>, t: u64)
    requires
        cs.no_duplicates(),
        !p.contains(t),
    ensures
        count_in(cs, p.insert(t)) == count_in(cs, p) + (if cs.contains(t) {
            1nat
        } else {
            0nat
        }),
    decreases cs.len(),
{
    if cs.len() > 0 {
        let rest = cs.drop_last();
        assert(rest.no_duplicates());
        lemma_count_in_step(cs, p);
        lemma_count_in_step(cs, p.insert(t));
        lemma_count_in_insert(rest, p, t);
        if cs.last() == t {
            assert(!rest.contains(t)) by {
                if rest.contains(t) {
                    let j = choose|j: int| 0 <= j < rest.len() && rest[j] == t;
                    assert(cs[j] == cs[cs.len() - 1]);
                }
            }
            assert(cs[cs.len() - 1] == t);
        } else {
            if cs.contains(t) {
                let j = choose|j: int| 0 <= j < cs.len() && cs[j] == t;
                assert(rest[j] == t);
            }
            if rest.contains(t) {
                let j = choose|j: int| 0 <= j < rest.len() && rest[j] == t;
                assert(cs[j] == t);
            }
        }
    } else {
        assert(!cs.contains(t));
    }
}

/// Whether every node is valid (see `lineage::is_valid`) and built.
pub open spec fn valid_nodes(s: Seq<SearchNode>) -> bool {
    forall|i: int| 0 <= i < s.len() ==> is_valid(#[trigger] s[i].0) && built(s[i].0) == s[i].0
}

/// Whether no two nodes have the same state.
pub open spec fn distinct_states(s: Seq<SearchNode>) -> bool {
    forall|i: int, j: int|
        0 <= i < s.len() && 0 <= j < s.len() && i != j ==> state_of(#[trigger] s[i].0) != state_of(
            #[trigger] s[j].0,
        )
}

/// Whether some node has state `st`.
pub open spec fn has_node(s: Seq<SearchNode>, st: u64) -> bool {
    exists|k: int| 0 <= k < s.len() && state_of(#[trigger] s[k].0) == st
}

/// Whether the state of every child of every node is some node's state.
pub open spec fn closed_under_children(s: Seq<SearchNode>) -> bool {
    forall|i: int, j: int|
        0 <= i < s.len() && 0 <= j < child_states(s[i].0).len() ==> has_node(
            s,
            #[trigger] child_states(s[i].0)[j],
        )
}

/// Whether the nodes are all the nodes reachable from some start, as the
/// forward pass gives them: valid, built, below the top byte, each state
/// once, and every child's state among them.
pub open spec fn all_reachable(s: Seq<SearchNode>) -> bool {
    &&& valid_nodes(s)
    &&& distinct_states(s)
    &&& closed_under_children(s)
    &&& forall|i: int| 0 <= i < s.len() ==> (#[trigger] s[i]).0 < 0x100_0000_0000_0000
}

/// Whether node `x` is settled: terminal, or with children all of which it
/// has heard from.
pub open spec fn settled(x: u64) -> bool {
    terminality_of(x) != Terminality::Nonterminal || (children_of(x).len() > 0 && report_count_of(
        x,
    ) == 0)
}

/// Whether node `k` of `s` has state `st` and is settled.
pub open spec fn settled_at(s: Seq<SearchNode>, st: u64, k: int) -> bool {
    0 <= k < s.len() && state_of(s[k].0) == st && settled(s[k].0)
}

/// Whether settled node `i` is no worse than its `j`-th child, which is
/// settled.
pub open spec fn child_heard(s: Seq<SearchNode>, i: int, j: int) -> bool {
    settled(s[i].0) ==> exists|k: int|
        #[trigger] settled_at(s, child_states(s[i].0)[j], k) && best_known_outcome_of(s[i].0)
            >= child_challenger(best_known_outcome_of(s[k].0))
}

/// Whether the best outcome of settled node `i` is what one of its settled
/// children gives.
pub open spec fn best_from_child(s: Seq<SearchNode>, i: int) -> bool {
    settled(s[i].0) ==> exists|j: int, k: int|
        0 <= j < child_states(s[i].0).len() && #[trigger] settled_at(s, child_states(s[i].0)[j], k)
            && best_known_outcome_of(s[i].0) == child_challenger(best_known_outcome_of(s[k].0))
}

/// Whether unsettled node `i`, if it has children, waits for a child that
/// is unsettled too.
pub open spec fn waits_for_child(s: Seq<SearchNode>, i: int) -> bool {
    child_states(s[i].0).len() > 0 && !settled(s[i].0) ==> exists|j: int, k: int|
        0 <= j < child_states(s[i].0).len() && 0 <= k < s.len() && state_of(s[k].0)
            == #[trigger] child_states(s[i].0)[j] && !settled(#[trigger] s[k].0)
}

/// What solving promises of every nonterminal node: once settled, each of
/// its children is settled and no better for it than its best outcome,
/// which one of them gives; while unsettled, it waits for a child that is
/// unsettled too.
pub open spec fn solved(s: Seq<SearchNode>) -> bool {
    &&& forall|i: int|
        0 <= i < s.len() && terminality_of((#[trigger] s[i]).0) == Terminality::Nonterminal
            ==> best_from_child(s, i) && waits_for_child(s, i)
    &&& forall|i: int, j: int|
        0 <= i < s.len() && terminality_of(s[i].0) == Terminality::Nonterminal && 0 <= j
            < child_states(s[i].0).len() ==> #[trigger] child_heard(s, i, j)
}

/// Whether `cur` holds, node for node, the states of `srt`, below the top
/// byte.
pub open spec fn tracks(cur: Seq<SearchNode>, srt: Seq<SearchNode>) -> bool {
    &&& cur.len() == srt.len()
    &&& forall|i: int|
        0 <= i < cur.len() ==> state_of((#[trigger] cur[i]).0) == state_of(srt[i].0) && cur[i].0
            < 0x100_0000_0000_0000
}

/// A node with the state of a valid, built node has its children, its
/// terminality, its validity and its parents' states.
pub proof fn lemma_node_facts(x: u64, y: u64)
    requires
        is_valid(y),
        built(y) == y,
        x < 0x100_0000_0000_0000,
        y < 0x100_0000_0000_0000,
        state_of(x) == state_of(y),
    ensures
        x == crate::lineage::set_low(y, crate::lineage::low(x)),
        child_states(x) == child_states(y),
        children_of(x).len() == children_of(y).len(),
        terminality_of(x) == terminality_of(y),
        is_valid(x),
        built(x) == x,
        crate::lineage::parent_states(x) == crate::lineage::parent_states(y),
{
    crate::lineage::lemma_set_own_low(x);
    crate::lineage::lemma_set_own_low(y);
    let l = crate::lineage::low(x);
    crate::lineage::lemma_same_state(y, x, l);
    crate::lineage::lemma_set_low_parts(y, l);
    assert(crate::lineage::co(y, 0) != crate::lineage::co(y, 1)) by {
        if crate::lineage::co(y, 0) == crate::lineage::co(y, 1) {
            assert(crate::lineage::co(y, 0) == 15);
        }
    }
    crate::lineage::lemma_child_states_low(y, l);
    crate::lineage::lemma_children_low(y, l);
    crate::lineage::lemma_low_commutes(y, l);
    assert(crate::lineage::pieces_placed(x)) by {
        assert forall|r: u8| r <= 7 implies #[trigger] crate::lineage::tri(x, r) == crate::lineage::tri(
            y,
            r,
        ) by {}
        assert forall|q: u8| q <= 7 implies (#[trigger] crate::lineage::co(x, q) == 15
            || crate::coords::is_board_square(crate::lineage::co(x, q))) by {
            assert(crate::lineage::tri(x, q) == crate::lineage::tri(y, q));
        }
        assert forall|q: u8, r: u8|
            q <= 7 && r <= 7 && q != r && #[trigger] crate::lineage::co(x, q)
                == #[trigger] crate::lineage::co(x, r) implies crate::lineage::co(x, q) == 15 by {
            assert(crate::lineage::tri(x, q) == crate::lineage::tri(y, q));
            assert(crate::lineage::tri(x, r) == crate::lineage::tri(y, r));
        }
        assert forall|q: u8|
            (q == 2 || q == 3) && crate::lineage::co(x, q) == 15 implies #[trigger] crate::lineage::pr(
            x,
            q,
        ) == 0 by {
            assert(crate::lineage::tri(x, q) == crate::lineage::tri(y, q));
        }
    }
    assert(crate::lineage::tri(x, 0) == crate::lineage::tri(y, 0));
    crate::lineage::lemma_parents_low(y, l);
    let a = crate::lineage::parent_states(x);
    let b = crate::lineage::parent_states(y);
    assert forall|j: int| 0 <= j < b.len() implies #[trigger] a[j] == b[j] by {
        crate::lineage::lemma_state_of_set_low(parents_of(y)[j], l);
    }
    assert(a =~= b);
}

/// Whether each nonterminal node still has to hear from exactly its
/// children whose states `p` does not hold, apart from those parents in
/// `extra` that have already heard from the node being reported.
pub open spec fn counted(
    cur: Seq<SearchNode>,
    srt: Seq<SearchNode>,
    p: Set<u64>,
    extra: Seq<u64>,
) -> bool {
    forall|i: int|
        0 <= i < cur.len() && terminality_of(srt[i].0) == Terminality::Nonterminal
            ==> report_count_of((#[trigger] cur[i]).0) + count_in(child_states(srt[i].0), p) + (if extra.contains(
            state_of(cur[i].0),
        ) {
            1nat
        } else {
            0nat
        }) == child_states(srt[i].0).len()
}

/// Whether node `i` has taken into account each child whose state `p`
/// holds: that child is settled and no better for it than its best
/// outcome.
pub open spec fn heard_all(cur: Seq<SearchNode>, srt: Seq<SearchNode>, p: Set<u64>, i: int) -> bool {
    forall|j: int|
        0 <= j < child_states(srt[i].0).len() && p.contains(#[trigger] child_states(srt[i].0)[j])
            ==> exists|k: int|
            #[trigger] settled_at(cur, child_states(srt[i].0)[j], k) && best_known_outcome_of(
                cur[i].0,
            ) >= child_challenger(best_known_outcome_of(cur[k].0))
}

/// Whether the best outcome of node `i` is still its first guess, or what
/// one of its settled children whose state `p` holds gives.
pub open spec fn witnessed_by_child(
    cur: Seq<SearchNode>,
    srt: Seq<SearchNode>,
    ini: Seq<SearchNode>,
    p: Set<u64>,
    i: int,
) -> bool {
    ||| best_known_outcome_of(cur[i].0) == best_known_outcome_of(ini[i].0)
    ||| exists|j: int, k: int|
        0 <= j < child_states(srt[i].0).len() && p.contains(child_states(srt[i].0)[j])
            && #[trigger] settled_at(cur, child_states(srt[i].0)[j], k) && best_known_outcome_of(
            cur[i].0,
        ) == child_challenger(best_known_outcome_of(cur[k].0))
}

/// What node `i` has heard: from the children whose states `p` holds, and,
/// if it is in `extra`, from the node being reported, whose best outcome
/// is `tb`.
pub open spec fn heard_from(
    cur: Seq<SearchNode>,
    srt: Seq<SearchNode>,
    ini: Seq<SearchNode>,
    p: Set<u64>,
    extra: Seq<u64>,
    tb: int,
    i: int,
) -> bool {
    &&& heard_all(cur, srt, p, i)
    &&& extra.contains(state_of(cur[i].0)) ==> best_known_outcome_of(cur[i].0) >= child_challenger(
        tb,
    )
    &&& witnessed_by_child(cur, srt, ini, p, i) || (extra.contains(state_of(cur[i].0))
        && best_known_outcome_of(cur[i].0) == child_challenger(tb))
}

/// What every nonterminal node has heard.
pub open spec fn all_heard(
    cur: Seq<SearchNode>,
    srt: Seq<SearchNode>,
    ini: Seq<SearchNode>,
    p: Set<u64>,
    extra: Seq<u64>,
    tb: int,
) -> bool {
    forall|i: int|
        0 <= i < cur.len() && terminality_of(srt[i].0) == Terminality::Nonterminal
            ==> #[trigger] heard_from(cur, srt, ini, p, extra, tb, i)
}

/// Whether a node with state `st` waits on the stack.
pub open spec fn stacked_state(stack: Seq<SearchNode>, st: u64) -> bool {
    exists|j: int| 0 <= j < stack.len() && state_of((#[trigger] stack[j]).0) == st
}

/// The bookkeeping of the reports: `p` holds the states of settled nodes
/// that have reported; the stack holds settled nodes, each state once,
/// that are yet to report; every settled node has reported, waits on the
/// stack or is being reported (state `t`); every best outcome is at most a
/// win right away and at least a loss right away.
pub open spec fn books(
    cur: Seq<SearchNode>,
    p: Set<u64>,
    stack: Seq<SearchNode>,
    t: Option<u64>,
) -> bool {
    &&& forall|st: u64| #[trigger] p.contains(st) ==> exists|k: int| #[trigger] settled_at(cur, st, k)
    &&& forall|j: int|
        0 <= j < stack.len() ==> settled((#[trigger] stack[j]).0) && !p.contains(
            state_of(stack[j].0),
        ) && t != Some(state_of(stack[j].0)) && exists|k: int|
            0 <= k < cur.len() && #[trigger] cur[k] == stack[j]
    &&& forall|j1: int, j2: int|
        0 <= j1 < stack.len() && 0 <= j2 < stack.len() && j1 != j2 ==> state_of(
            (#[trigger] stack[j1]).0,
        ) != state_of((#[trigger] stack[j2]).0)
    &&& forall|k: int|
        0 <= k < cur.len() && settled((#[trigger] cur[k]).0) ==> p.contains(state_of(cur[k].0))
            || stacked_state(stack, state_of(cur[k].0)) || t == Some(state_of(cur[k].0))
    &&& forall|k: int| 0 <= k < cur.len() ==> -201 <= best_known_outcome_of((#[trigger] cur[k]).0) <= 201
}

/// Once nothing waits on the stack, a nonterminal node is solved.
#[verifier::spinoff_prover]
proof fn lemma_node_solved_at_end(
    cur: Seq<SearchNode>,
    srt: Seq<SearchNode>,
    ini: Seq<SearchNode>,
    p: Set<u64>,
    i: int,
)
    requires
        tracks(cur, srt),
        ini.len() == srt.len(),
        0 <= i < cur.len(),
        is_valid(srt[i].0),
        built(srt[i].0) == srt[i].0,
        srt[i].0 < 0x100_0000_0000_0000,
        forall|j: int|
            0 <= j < child_states(srt[i].0).len() ==> has_node(
                srt,
                #[trigger] child_states(srt[i].0)[j],
            ),
        terminality_of(cur[i].0) == Terminality::Nonterminal,
        best_known_outcome_of(ini[i].0) == -201,
        report_count_of(cur[i].0) + count_in(child_states(srt[i].0), p) == child_states(
            srt[i].0,
        ).len(),
        heard_from(cur, srt, ini, p, Seq::empty(), 0, i),
        forall|k: int|
            0 <= k < cur.len() && settled((#[trigger] cur[k]).0) ==> p.contains(state_of(cur[k].0)),
        forall|k: int| 0 <= k < cur.len() ==> -201 <= best_known_outcome_of((#[trigger] cur[k]).0) <= 201,
    ensures
        best_from_child(cur, i),
        waits_for_child(cur, i),
        forall|j: int| 0 <= j < child_states(cur[i].0).len() ==> #[trigger] child_heard(cur, i, j),
{
    let x = cur[i].0;
    lemma_node_facts(x, srt[i].0);
    let cs = child_states(x);
    assert(!Seq::<u64>::empty().contains(state_of(cur[i].0)));
    lemma_count_in_bounds(cs, p);
    assert forall|j: int| 0 <= j < child_states(cur[i].0).len() implies #[trigger] child_heard(
        cur,
        i,
        j,
    ) by {
        if settled(x) {
            assert(cs[j] == child_states(srt[i].0)[j]);
            assert(p.contains(cs[j]));
            assert(heard_all(cur, srt, p, i));
            let k = choose|k: int|
                #[trigger] settled_at(cur, child_states(srt[i].0)[j], k) && best_known_outcome_of(
                    cur[i].0,
                ) >= child_challenger(best_known_outcome_of(cur[k].0));
            assert(settled_at(cur, child_states(cur[i].0)[j], k));
        }
    }
    if settled(x) {
        if best_known_outcome_of(x) == best_known_outcome_of(ini[i].0) {
            assert(child_heard(cur, i, 0));
            let k = choose|k: int|
                #[trigger] settled_at(cur, child_states(cur[i].0)[0], k) && best_known_outcome_of(
                    cur[i].0,
                ) >= child_challenger(best_known_outcome_of(cur[k].0));
            assert(-201 <= best_known_outcome_of(cur[k].0) <= 201);
            assert(false);
        }
        assert(witnessed_by_child(cur, srt, ini, p, i));
        let (j, k) = choose|j: int, k: int|
            0 <= j < child_states(srt[i].0).len() && p.contains(child_states(srt[i].0)[j])
                && #[trigger] settled_at(cur, child_states(srt[i].0)[j], k) && best_known_outcome_of(
                cur[i].0,
            ) == child_challenger(best_known_outcome_of(cur[k].0));
        assert(settled_at(cur, cs[j], k));
    }
    if cs.len() > 0 && !settled(x) {
        assert(report_count_of(x) > 0);
        let j = choose|j: int| 0 <= j < cs.len() && !p.contains(#[trigger] cs[j]);
        assert(has_node(srt, child_states(srt[i].0)[j]));
        let k = choose|k: int| 0 <= k < srt.len() && state_of(#[trigger] srt[k].0) == cs[j];
        assert(state_of(cur[k].0) == cs[j]);
        assert(0 <= k < cur.len() && state_of(cur[k].0) == cs[j] && !settled(cur[k].0));
    }
}

/// Once nothing waits on the stack, the nodes are solved.
pub proof fn lemma_solved_at_end(
    cur: Seq<SearchNode>,
    srt: Seq<SearchNode>,
    ini: Seq<SearchNode>,
    p: Set<u64>,
)
    requires
        all_reachable(srt),
        tracks(cur, srt),
        ini.len() == srt.len(),
        forall|i: int|
            0 <= i < srt.len() && terminality_of(srt[i].0) == Terminality::Nonterminal
                ==> best_known_outcome_of((#[trigger] ini[i]).0) == -201,
        counted(cur, srt, p, Seq::empty()),
        all_heard(cur, srt, ini, p, Seq::empty(), 0),
        books(cur, p, Seq::empty(), None),
    ensures
        solved(cur),
{
    assert forall|i: int|
        0 <= i < cur.len() && terminality_of((#[trigger] cur[i]).0) == Terminality::Nonterminal
            implies best_from_child(cur, i) && waits_for_child(cur, i) && forall|j: int|
            0 <= j < child_states(cur[i].0).len() ==> #[trigger] child_heard(cur, i, j) by {
        lemma_node_facts(cur[i].0, srt[i].0);
        assert(heard_from(cur, srt, ini, p, Seq::empty(), 0, i));
        assert(!Seq::<u64>::empty().contains(state_of(cur[i].0)));
        assert forall|k: int|
            0 <= k < cur.len() && settled((#[trigger] cur[k]).0) implies p.contains(
            state_of(cur[k].0),
        ) by {
            if !p.contains(state_of(cur[k].0)) {
                assert(!stacked_state(Seq::<SearchNode>::empty(), state_of(cur[k].0)));
            }
        }
        lemma_node_solved_at_end(cur, srt, ini, p, i);
    }
}

/// Filtering keeps a sequence free of repeats.
proof fn lemma_filter_no_dup(s: Seq<SearchNode>, pred: spec_fn(SearchNode) -> bool)
    requires
        s.no_duplicates(),
    ensures
        s.filter(pred).no_duplicates(),
    decreases s.len(),
{
    reveal(Seq::filter);
    if s.len() > 0 {
        let rest = s.drop_last();
        assert(rest.no_duplicates());
        lemma_filter_no_dup(rest, pred);
        let f = rest.filter(pred);
        if pred(s.last()) {
            assert(!f.contains(s.last())) by {
                if f.contains(s.last()) {
                    rest.lemma_filter_contains_rev(pred, s.last());
                    let j = choose|j: int| 0 <= j < rest.len() && rest[j] == s.last();
                    assert(s[j] == s[s.len() - 1]);
                }
            }
            assert(s.filter(pred) == f.push(s.last()));
            assert forall|a: int, b: int|
                0 <= a < f.len() + 1 && 0 <= b < f.len() + 1 && a != b implies f.push(s.last())[a]
                != f.push(s.last())[b] by {
                if a < f.len() && b == f.len() {
                    assert(f.contains(f[a]));
                } else if b < f.len() && a == f.len() {
                    assert(f.contains(f[b]));
                }
            }
        } else {
            assert(s.filter(pred) == f);
        }
    }
}

/// What the nodes hold once initialized, before any report: nothing
/// reported yet, and exactly the terminal nodes waiting on the stack.
pub proof fn lemma_inv_start(srt: Seq<SearchNode>, ini: Seq<SearchNode>, stack: Seq<SearchNode>)
    requires
        all_reachable(srt),
        ini.len() == srt.len(),
        forall|i: int|
            0 <= i < ini.len() ==> (#[trigger] ini[i]).0 == crate::backward_pass::initialized(
                srt[i].0,
            ),
        stack == ini.filter(|n: SearchNode| terminality_of(n.0) != Terminality::Nonterminal),
    ensures
        tracks(ini, srt),
        counted(ini, srt, Set::empty(), Seq::empty()),
        all_heard(ini, srt, ini, Set::empty(), Seq::empty(), 0),
        books(ini, Set::empty(), stack, None),
        forall|i: int|
            0 <= i < srt.len() && terminality_of(srt[i].0) == Terminality::Nonterminal
                ==> best_known_outcome_of((#[trigger] ini[i]).0) == -201,
{
    let pred = |n: SearchNode| terminality_of(n.0) != Terminality::Nonterminal;
    assert forall|i: int| 0 <= i < ini.len() implies state_of((#[trigger] ini[i]).0) == state_of(
        srt[i].0,
    ) && ini[i].0 < 0x100_0000_0000_0000 && terminality_of(ini[i].0) == terminality_of(srt[i].0)
        && children_of(ini[i].0).len() == children_of(srt[i].0).len() by {
        crate::backward_pass::lemma_initialized(srt[i].0);
        lemma_node_facts(ini[i].0, srt[i].0);
    }
    assert forall|i: int|
        0 <= i < ini.len() && terminality_of(srt[i].0) == Terminality::Nonterminal implies report_count_of(
        (#[trigger] ini[i]).0,
    ) + count_in(child_states(srt[i].0), Set::empty()) + (if Seq::<u64>::empty().contains(
        state_of(ini[i].0),
    ) {
        1nat
    } else {
        0nat
    }) == child_states(srt[i].0).len() by {
        crate::backward_pass::lemma_initialized(srt[i].0);
        lemma_count_in_empty(child_states(srt[i].0));
    }
    assert forall|i: int|
        0 <= i < ini.len() && terminality_of(srt[i].0) == Terminality::Nonterminal implies #[trigger] heard_from(
        ini,
        srt,
        ini,
        Set::empty(),
        Seq::empty(),
        0,
        i,
    ) by {}
    assert forall|k: int| 0 <= k < ini.len() && settled((#[trigger] ini[k]).0) implies stacked_state(
        stack,
        state_of(ini[k].0),
    ) by {
        crate::backward_pass::lemma_initialized(srt[k].0);
        assert(pred(ini[k]));
        ini.lemma_filter_contains(pred, k);
        let j = choose|j: int| 0 <= j < stack.len() && stack[j] == ini[k];
        assert(state_of(stack[j].0) == state_of(ini[k].0));
    }
    assert(ini.no_duplicates()) by {
        assert forall|a: int, b: int| 0 <= a < ini.len() && 0 <= b < ini.len() && a != b implies ini[a]
            != ini[b] by {
            assert(state_of(srt[a].0) != state_of(srt[b].0));
        }
    }
    lemma_filter_no_dup(ini, pred);
    assert forall|j: int| 0 <= j < stack.len() implies settled((#[trigger] stack[j]).0) && exists|k: int|
        0 <= k < ini.len() && #[trigger] ini[k] == stack[j] by {
        assert(stack.contains(stack[j]));
        ini.lemma_filter_contains_rev(pred, stack[j]);
    }
    assert forall|j1: int, j2: int|
        0 <= j1 < stack.len() && 0 <= j2 < stack.len() && j1 != j2 implies state_of(
        (#[trigger] stack[j1]).0,
    ) != state_of((#[trigger] stack[j2]).0) by {
        assert(stack.contains(stack[j1]));
        assert(stack.contains(stack[j2]));
        ini.lemma_filter_contains_rev(pred, stack[j1]);
        ini.lemma_filter_contains_rev(pred, stack[j2]);
        let a = choose|a: int| 0 <= a < ini.len() && ini[a] == stack[j1];
        let b = choose|b: int| 0 <= b < ini.len() && ini[b] == stack[j2];
        assert(a != b);
        assert(state_of(srt[a].0) != state_of(srt[b].0));
    }
    assert forall|k: int| 0 <= k < ini.len() implies -201 <= best_known_outcome_of(
        (#[trigger] ini[k]).0,
    ) <= 201 by {
        crate::backward_pass::lemma_initialized(srt[k].0);
    }
    assert forall|i: int|
        0 <= i < srt.len() && terminality_of(srt[i].0) == Terminality::Nonterminal implies best_known_outcome_of(
        (#[trigger] ini[i]).0,
    ) == -201 by {
        crate::backward_pass::lemma_initialized(srt[i].0);
    }
}

/// The node being reported (`i_top`, settled, not reported yet) and what
/// the states of its parents say of the other nodes.
pub open spec fn reporting_top(
    cur: Seq<SearchNode>,
    srt: Seq<SearchNode>,
    p: Set<u64>,
    i_top: int,
    tb: int,
) -> bool {
    &&& 0 <= i_top < cur.len()
    &&& settled(cur[i_top].0)
    &&& best_known_outcome_of(cur[i_top].0) == tb
    &&& !p.contains(state_of(srt[i_top].0))
}

/// A parent state of the node being reported that is some node's state is
/// the state of a nonterminal node that still has to hear from it.
pub proof fn lemma_report_guard(
    cur: Seq<SearchNode>,
    srt: Seq<SearchNode>,
    p: Set<u64>,
    i_top: int,
    tb: int,
    k: int,
    idx: int,
)
    requires
        all_reachable(srt),
        tracks(cur, srt),
        reporting_top(cur, srt, p, i_top, tb),
        0 <= k < crate::lineage::parent_states(srt[i_top].0).len(),
        counted(cur, srt, p, crate::lineage::parent_states(srt[i_top].0).take(k)),
        0 <= idx < cur.len(),
        state_of(cur[idx].0) == crate::lineage::parent_states(srt[i_top].0)[k],
    ensures
        terminality_of(srt[idx].0) == Terminality::Nonterminal,
        child_states(srt[idx].0).contains(state_of(srt[i_top].0)),
        !crate::lineage::parent_states(srt[i_top].0).take(k).contains(state_of(cur[idx].0)),
        report_count_of(cur[idx].0) > 0,
{
    let ps = crate::lineage::parent_states(srt[i_top].0);
    let top = srt[i_top].0;
    let par = srt[idx].0;
    crate::lineage::lemma_parent_ends(top, k);
    crate::backward_pass::lemma_terminality_by_state(parents_of(top)[k], par);
    crate::lineage::lemma_state_consistency(par, top);
    crate::lineage::lemma_parent_states_unique(top);
    if ps.take(k).contains(state_of(cur[idx].0)) {
        let j = choose|j: int|
            0 <= j < ps.take(k).len() && #[trigger] ps.take(k)[j] == state_of(cur[idx].0);
        assert(ps[j] == ps[k]);
    }
    let cs = child_states(par);
    lemma_count_in_bounds(cs, p);
    if count_in(cs, p) == cs.len() {
        let j = choose|j: int| 0 <= j < cs.len() && #[trigger] cs[j] == state_of(top);
        assert(p.contains(cs[j]));
    }
}

/// A parent state of the node being reported that is no node's state
/// changes nothing.
pub proof fn lemma_report_skip(
    cur: Seq<SearchNode>,
    srt: Seq<SearchNode>,
    ini: Seq<SearchNode>,
    p: Set<u64>,
    i_top: int,
    tb: int,
    k: int,
)
    requires
        0 <= k < crate::lineage::parent_states(srt[i_top].0).len(),
        counted(cur, srt, p, crate::lineage::parent_states(srt[i_top].0).take(k)),
        all_heard(cur, srt, ini, p, crate::lineage::parent_states(srt[i_top].0).take(k), tb),
        forall|i: int|
            0 <= i < cur.len() ==> state_of((#[trigger] cur[i]).0) != crate::lineage::parent_states(
                srt[i_top].0,
            )[k],
    ensures
        counted(cur, srt, p, crate::lineage::parent_states(srt[i_top].0).take(k + 1)),
        all_heard(cur, srt, ini, p, crate::lineage::parent_states(srt[i_top].0).take(k + 1), tb),
{
    let ps = crate::lineage::parent_states(srt[i_top].0);
    assert(ps.take(k + 1) == ps.take(k).push(ps[k]));
    assert forall|i: int| 0 <= i < cur.len() implies #[trigger] ps.take(k + 1).contains(
        state_of(cur[i].0),
    ) == ps.take(k).contains(state_of(cur[i].0)) by {
        if ps.take(k + 1).contains(state_of(cur[i].0)) {
            let j = choose|j: int|
                0 <= j < ps.take(k + 1).len() && #[trigger] ps.take(k + 1)[j] == state_of(cur[i].0);
            assert(j < k);
            assert(ps.take(k)[j] == state_of(cur[i].0));
        }
        if ps.take(k).contains(state_of(cur[i].0)) {
            let j = choose|j: int|
                0 <= j < ps.take(k).len() && #[trigger] ps.take(k)[j] == state_of(cur[i].0);
            assert(ps.take(k + 1)[j] == state_of(cur[i].0));
        }
    }
    assert forall|i: int|
        0 <= i < cur.len() && terminality_of(srt[i].0) == Terminality::Nonterminal implies #[trigger] heard_from(
        cur,
        srt,
        ini,
        p,
        ps.take(k + 1),
        tb,
        i,
    ) by {
        assert(heard_from(cur, srt, ini, p, ps.take(k), tb, i));
        assert(ps.take(k + 1).contains(state_of(cur[i].0)) == ps.take(k).contains(
            state_of(cur[i].0),
        ));
    }
    assert forall|i: int|
        0 <= i < cur.len() && terminality_of(srt[i].0) == Terminality::Nonterminal implies report_count_of(
        (#[trigger] cur[i]).0,
    ) + count_in(child_states(srt[i].0), p) + (if ps.take(k + 1).contains(state_of(cur[i].0)) {
        1nat
    } else {
        0nat
    }) == child_states(srt[i].0).len() by {
        assert(ps.take(k + 1).contains(state_of(cur[i].0)) == ps.take(k).contains(
            state_of(cur[i].0),
        ));
    }
}

/// Whether `cur2` is `cur` with node `idx` having heard from a child with
/// best outcome `tb`: one fewer child to hear from, and the better of its
/// best outcome and what that child gives.
pub open spec fn heard_once(
    cur: Seq<SearchNode>,
    cur2: Seq<SearchNode>,
    idx: int,
    upd: SearchNode,
    tb: int,
) -> bool {
    &&& 0 <= idx < cur.len()
    &&& cur2 == cur.update(idx, upd)
    &&& state_of(upd.0) == state_of(cur[idx].0)
    &&& upd.0 < 0x100_0000_0000_0000
    &&& report_count_of(upd.0) + 1 == report_count_of(cur[idx].0)
    &&& best_known_outcome_of(upd.0) == if child_challenger(tb) > best_known_outcome_of(
        cur[idx].0,
    ) {
        child_challenger(tb)
    } else {
        best_known_outcome_of(cur[idx].0)
    }
}

/// The prefix of a sequence one longer holds what the shorter one holds
/// and the next element.
pub proof fn lemma_take_push(ps: Seq<u64>, k: int, x: u64)
    requires
        0 <= k < ps.len(),
    ensures
        ps.take(k + 1).contains(x) == (ps.take(k).contains(x) || ps[k] == x),
{
    assert(ps.take(k + 1) == ps.take(k).push(ps[k]));
    if ps.take(k + 1).contains(x) {
        let j = choose|j: int| 0 <= j < ps.take(k + 1).len() && #[trigger] ps.take(k + 1)[j] == x;
        if j < k {
            assert(ps.take(k)[j] == x);
        }
    }
    if ps.take(k).contains(x) {
        let j = choose|j: int| 0 <= j < ps.take(k).len() && #[trigger] ps.take(k)[j] == x;
        assert(ps.take(k + 1)[j] == x);
    }
    if ps[k] == x {
        assert(ps.take(k + 1)[k] == x);
    }
}

/// Hearing from the node being reported keeps the counts.
#[verifier::spinoff_prover]
proof fn lemma_report_counted(
    cur: Seq<SearchNode>,
    cur2: Seq<SearchNode>,
    srt: Seq<SearchNode>,
    p: Set<u64>,
    ps: Seq<u64>,
    k: int,
    idx: int,
    upd: SearchNode,
    tb: int,
)
    requires
        distinct_states(srt),
        tracks(cur, srt),
        0 <= k < ps.len(),
        counted(cur, srt, p, ps.take(k)),
        heard_once(cur, cur2, idx, upd, tb),
        state_of(cur[idx].0) == ps[k],
        !ps.take(k).contains(ps[k]),
    ensures
        tracks(cur2, srt),
        counted(cur2, srt, p, ps.take(k + 1)),
{
    assert forall|i: int|
        0 <= i < cur2.len() && terminality_of(srt[i].0) == Terminality::Nonterminal implies report_count_of(
        (#[trigger] cur2[i]).0,
    ) + count_in(child_states(srt[i].0), p) + (if ps.take(k + 1).contains(state_of(cur2[i].0)) {
        1nat
    } else {
        0nat
    }) == child_states(srt[i].0).len() by {
        lemma_take_push(ps, k, state_of(cur2[i].0));
        if i != idx {
            assert(cur2[i] == cur[i]);
            assert(state_of(srt[i].0) != state_of(srt[idx].0));
        }
    }
}

/// Hearing from the node being reported keeps what every node has heard.
#[verifier::spinoff_prover]
proof fn lemma_report_heard(
    cur: Seq<SearchNode>,
    cur2: Seq<SearchNode>,
    srt: Seq<SearchNode>,
    ini: Seq<SearchNode>,
    p: Set<u64>,
    ps: Seq<u64>,
    k: int,
    idx: int,
    upd: SearchNode,
    tb: int,
)
    requires
        distinct_states(srt),
        tracks(cur, srt),
        0 <= k < ps.len(),
        all_heard(cur, srt, ini, p, ps.take(k), tb),
        heard_once(cur, cur2, idx, upd, tb),
        state_of(cur[idx].0) == ps[k],
        !ps.take(k).contains(ps[k]),
        !settled(cur[idx].0),
    ensures
        all_heard(cur2, srt, ini, p, ps.take(k + 1), tb),
{
    assert forall|i: int|
        0 <= i < cur2.len() && terminality_of(srt[i].0) == Terminality::Nonterminal implies #[trigger] heard_from(
        cur2,
        srt,
        ini,
        p,
        ps.take(k + 1),
        tb,
        i,
    ) by {
        assert(heard_from(cur, srt, ini, p, ps.take(k), tb, i));
        lemma_take_push(ps, k, state_of(cur2[i].0));
        assert(best_known_outcome_of(cur2[i].0) >= best_known_outcome_of(cur[i].0));
        if i != idx {
            assert(cur2[i] == cur[i]);
            assert(state_of(srt[i].0) != state_of(srt[idx].0));
        }
        assert forall|j: int|
            0 <= j < child_states(srt[i].0).len() && p.contains(
                #[trigger] child_states(srt[i].0)[j],
            ) implies exists|kk: int|
            #[trigger] settled_at(cur2, child_states(srt[i].0)[j], kk) && best_known_outcome_of(
                cur2[i].0,
            ) >= child_challenger(best_known_outcome_of(cur2[kk].0)) by {
            let kk = choose|kk: int|
                #[trigger] settled_at(cur, child_states(srt[i].0)[j], kk) && best_known_outcome_of(
                    cur[i].0,
                ) >= child_challenger(best_known_outcome_of(cur[kk].0));
            assert(kk != idx);
            assert(cur2[kk] == cur[kk]);
            assert(settled_at(cur2, child_states(srt[i].0)[j], kk));
        }
        if !(ps.take(k + 1).contains(state_of(cur2[i].0)) && best_known_outcome_of(cur2[i].0)
            == child_challenger(tb)) {
            if best_known_outcome_of(cur[i].0) != best_known_outcome_of(ini[i].0) {
                let (j, kk) = choose|j: int, kk: int|
                    0 <= j < child_states(srt[i].0).len() && p.contains(child_states(srt[i].0)[j])
                        && #[trigger] settled_at(cur, child_states(srt[i].0)[j], kk)
                        && best_known_outcome_of(cur[i].0) == child_challenger(
                        best_known_outcome_of(cur[kk].0),
                    );
                assert(kk != idx);
                assert(cur2[kk] == cur[kk]);
                assert(settled_at(cur2, child_states(srt[i].0)[j], kk));
            }
        }
    }
}

/// Hearing from the node being reported keeps the bookkeeping: a node
/// that has now heard from all its children waits on the stack.
#[verifier::spinoff_prover]
proof fn lemma_report_books(
    cur: Seq<SearchNode>,
    cur2: Seq<SearchNode>,
    srt: Seq<SearchNode>,
    p: Set<u64>,
    stack: Seq<SearchNode>,
    stack2: Seq<SearchNode>,
    t: u64,
    i_top: int,
    idx: int,
    upd: SearchNode,
    tb: int,
)
    requires
        all_reachable(srt),
        tracks(cur, srt),
        books(cur, p, stack, Some(t)),
        heard_once(cur, cur2, idx, upd, tb),
        0 <= i_top < cur.len(),
        state_of(cur[i_top].0) == t,
        settled(cur[i_top].0),
        best_known_outcome_of(cur[i_top].0) == tb,
        terminality_of(srt[idx].0) == Terminality::Nonterminal,
        report_count_of(cur[idx].0) > 0,
        child_states(srt[idx].0).contains(t),
        stack2 == if report_count_of(upd.0) == 0 {
            stack.push(upd)
        } else {
            stack
        },
    ensures
        books(cur2, p, stack2, Some(t)),
        !settled(cur[idx].0),
        idx != i_top,
        cur2[i_top] == cur[i_top],
{
    lemma_node_facts(cur[idx].0, srt[idx].0);
    lemma_node_facts(upd.0, srt[idx].0);
    assert(!settled(cur[idx].0));
    assert(idx != i_top);
    assert(-201 <= tb <= 201);
    assert forall|st: u64| #[trigger] p.contains(st) implies exists|kk: int| #[trigger] settled_at(
        cur2,
        st,
        kk,
    ) by {
        let kk = choose|kk: int| #[trigger] settled_at(cur, st, kk);
        assert(kk != idx);
        assert(cur2[kk] == cur[kk]);
        assert(settled_at(cur2, st, kk));
    }
    assert forall|j: int| #![trigger stack[j]] 0 <= j < stack.len() implies exists|kk: int|
        0 <= kk < cur2.len() && #[trigger] cur2[kk] == stack[j] by {
        let kk = choose|kk: int| 0 <= kk < cur.len() && #[trigger] cur[kk] == stack[j];
        assert(settled(stack[j].0));
        assert(kk != idx);
        assert(cur2[kk] == cur[kk]);
    }
    if report_count_of(upd.0) == 0 {
        assert(children_of(srt[idx].0).len() > 0);
        assert(settled(upd.0));
        assert(!p.contains(state_of(upd.0))) by {
            if p.contains(state_of(upd.0)) {
                let kk = choose|kk: int| #[trigger] settled_at(cur, state_of(upd.0), kk);
                if kk != idx {
                    assert(state_of(srt[kk].0) == state_of(srt[idx].0));
                }
            }
        }
        assert(state_of(upd.0) != t) by {
            assert(state_of(srt[i_top].0) != state_of(srt[idx].0));
        }
        assert forall|j: int| 0 <= j < stack.len() implies state_of(stack[j].0) != state_of(
            upd.0,
        ) by {
            let kk = choose|kk: int| 0 <= kk < cur.len() && #[trigger] cur[kk] == stack[j];
            assert(settled(stack[j].0));
            assert(kk != idx);
            assert(state_of(srt[kk].0) != state_of(srt[idx].0));
        }
        assert(stack2[stack.len() as int] == upd);
        assert(cur2[idx] == upd);
    }
    assert forall|kk: int|
        0 <= kk < cur2.len() && settled((#[trigger] cur2[kk]).0) implies p.contains(
        state_of(cur2[kk].0),
    ) || stacked_state(stack2, state_of(cur2[kk].0)) || Some(t) == Some(state_of(cur2[kk].0)) by {
        if kk != idx {
            assert(cur2[kk] == cur[kk]);
            if stacked_state(stack, state_of(cur[kk].0)) {
                let j = choose|j: int|
                    0 <= j < stack.len() && state_of((#[trigger] stack[j]).0) == state_of(
                        cur[kk].0,
                    );
                assert(stack2[j] == stack[j]);
            }
        } else {
            assert(stack2[stack.len() as int] == upd);
        }
    }
    assert forall|kk: int| 0 <= kk < cur2.len() implies -201 <= best_known_outcome_of(
        (#[trigger] cur2[kk]).0,
    ) <= 201 by {
        if kk == idx {
            assert(-201 <= best_known_outcome_of(cur[idx].0) <= 201);
        } else {
            assert(cur2[kk] == cur[kk]);
        }
    }
    assert forall|j: int| 0 <= j < stack2.len() implies settled((#[trigger] stack2[j]).0)
        && !p.contains(state_of(stack2[j].0)) && Some(t) != Some(state_of(stack2[j].0)) && exists|
        kk: int,
    | 0 <= kk < cur2.len() && #[trigger] cur2[kk] == stack2[j] by {
        if j < stack.len() {
            assert(stack2[j] == stack[j]);
        } else {
            assert(cur2[idx] == stack2[j]);
        }
    }
    assert forall|j1: int, j2: int|
        0 <= j1 < stack2.len() && 0 <= j2 < stack2.len() && j1 != j2 implies state_of(
        (#[trigger] stack2[j1]).0,
    ) != state_of((#[trigger] stack2[j2]).0) by {
        if j1 < stack.len() {
            assert(stack2[j1] == stack[j1]);
        }
        if j2 < stack.len() {
            assert(stack2[j2] == stack[j2]);
        }
    }
}

/// Once every parent state of the node being reported has been visited,
/// the node counts as reported.
#[verifier::spinoff_prover]
pub proof fn lemma_report_finish(
    cur: Seq<SearchNode>,
    srt: Seq<SearchNode>,
    ini: Seq<SearchNode>,
    p: Set<u64>,
    stack: Seq<SearchNode>,
    i_top: int,
    tb: int,
)
    requires
        all_reachable(srt),
        tracks(cur, srt),
        reporting_top(cur, srt, p, i_top, tb),
        counted(cur, srt, p, crate::lineage::parent_states(srt[i_top].0)),
        all_heard(cur, srt, ini, p, crate::lineage::parent_states(srt[i_top].0), tb),
        books(cur, p, stack, Some(state_of(srt[i_top].0))),
    ensures
        counted(cur, srt, p.insert(state_of(srt[i_top].0)), Seq::empty()),
        all_heard(cur, srt, ini, p.insert(state_of(srt[i_top].0)), Seq::empty(), 0),
        books(cur, p.insert(state_of(srt[i_top].0)), stack, None),
{
    let t = state_of(srt[i_top].0);
    let ps = crate::lineage::parent_states(srt[i_top].0);
    let p2 = p.insert(t);
    assert(settled_at(cur, t, i_top));
    assert forall|i: int|
        0 <= i < cur.len() && terminality_of(srt[i].0) == Terminality::Nonterminal implies child_states(
        srt[i].0,
    ).contains(t) == ps.contains(state_of((#[trigger] cur[i]).0)) by {
        crate::lineage::lemma_state_consistency(srt[i].0, srt[i_top].0);
    }
    assert forall|i: int|
        0 <= i < cur.len() && terminality_of(srt[i].0) == Terminality::Nonterminal implies report_count_of(
        (#[trigger] cur[i]).0,
    ) + count_in(child_states(srt[i].0), p2) + (if Seq::<u64>::empty().contains(state_of(cur[i].0)) {
        1nat
    } else {
        0nat
    }) == child_states(srt[i].0).len() by {
        crate::lineage::lemma_child_states_unique(srt[i].0);
        lemma_count_in_insert(child_states(srt[i].0), p, t);
    }
    assert forall|i: int|
        0 <= i < cur.len() && terminality_of(srt[i].0) == Terminality::Nonterminal implies #[trigger] heard_from(
        cur,
        srt,
        ini,
        p2,
        Seq::empty(),
        0,
        i,
    ) by {
        assert(heard_from(cur, srt, ini, p, ps, tb, i));
        let cs = child_states(srt[i].0);
        assert forall|j: int| 0 <= j < cs.len() && p2.contains(#[trigger] cs[j]) implies exists|
            kk: int,
        | #[trigger] settled_at(cur, cs[j], kk) && best_known_outcome_of(cur[i].0)
            >= child_challenger(best_known_outcome_of(cur[kk].0)) by {
            if !p.contains(cs[j]) {
                assert(cs[j] == t);
                assert(cs.contains(t));
                assert(settled_at(cur, cs[j], i_top));
            }
        }
        if !witnessed_by_child(cur, srt, ini, p, i) {
            assert(ps.contains(state_of(cur[i].0)));
            assert(cs.contains(t));
            let j = choose|j: int| 0 <= j < cs.len() && #[trigger] cs[j] == t;
            assert(settled_at(cur, cs[j], i_top));
        } else if best_known_outcome_of(cur[i].0) != best_known_outcome_of(ini[i].0) {
            let (j, kk) = choose|j: int, kk: int|
                0 <= j < cs.len() && p.contains(cs[j]) && #[trigger] settled_at(cur, cs[j], kk)
                    && best_known_outcome_of(cur[i].0) == child_challenger(
                    best_known_outcome_of(cur[kk].0),
                );
            assert(p2.contains(cs[j]));
        }
    }
    assert forall|st: u64| #[trigger] p2.contains(st) implies exists|kk: int| #[trigger] settled_at(
        cur,
        st,
        kk,
    ) by {
        if st == t {
            assert(settled_at(cur, st, i_top));
        }
    }
    assert forall|kk: int|
        0 <= kk < cur.len() && settled((#[trigger] cur[kk]).0) implies p2.contains(
        state_of(cur[kk].0),
    ) || stacked_state(stack, state_of(cur[kk].0)) || None::<u64> == Some(state_of(cur[kk].0)) by {}
    assert forall|j: int| 0 <= j < stack.len() implies settled((#[trigger] stack[j]).0)
        && !p2.contains(state_of(stack[j].0)) && None::<u64> != Some(state_of(stack[j].0)) && exists|
        kk: int,
    | 0 <= kk < cur.len() && #[trigger] cur[kk] == stack[j] by {}
}

/// Taking the top node off the stack to report it keeps the bookkeeping.
pub proof fn lemma_report_pop(cur: Seq<SearchNode>, p: Set<u64>, stack: Seq<SearchNode>)
    requires
        books(cur, p, stack, None),
        stack.len() > 0,
    ensures
        books(cur, p, stack.drop_last(), Some(state_of(stack.last().0))),
        settled(stack.last().0),
        !p.contains(state_of(stack.last().0)),
{
    let rest = stack.drop_last();
    let t = state_of(stack.last().0);
    assert(stack[stack.len() - 1] == stack.last());
    assert forall|j: int| 0 <= j < rest.len() implies settled((#[trigger] rest[j]).0) && !p.contains(
        state_of(rest[j].0),
    ) && Some(t) != Some(state_of(rest[j].0)) && exists|kk: int|
        0 <= kk < cur.len() && #[trigger] cur[kk] == rest[j] by {
        assert(rest[j] == stack[j]);
        assert(j != stack.len() - 1);
    }
    assert forall|j1: int, j2: int|
        0 <= j1 < rest.len() && 0 <= j2 < rest.len() && j1 != j2 implies state_of(
        (#[trigger] rest[j1]).0,
    ) != state_of((#[trigger] rest[j2]).0) by {
        assert(rest[j1] == stack[j1]);
        assert(rest[j2] == stack[j2]);
    }
    assert forall|kk: int|
        0 <= kk < cur.len() && settled((#[trigger] cur[kk]).0) implies p.contains(
        state_of(cur[kk].0),
    ) || stacked_state(rest, state_of(cur[kk].0)) || Some(t) == Some(state_of(cur[kk].0)) by {
        if stacked_state(stack, state_of(cur[kk].0)) && state_of(cur[kk].0) != t {
            let j = choose|j: int|
                0 <= j < stack.len() && state_of((#[trigger] stack[j]).0) == state_of(cur[kk].0);
            assert(j != stack.len() - 1);
            assert(rest[j] == stack[j]);
        }
    }
}

/// Sequences with one multiset hold the same elements: each element of
/// one stands somewhere in the other.
proof fn lemma_permuted_find(a: Seq<SearchNode>, b: Seq<SearchNode>, i: int) -> (k: int)
    requires
        a.to_multiset() == b.to_multiset(),
        0 <= i < b.len(),
    ensures
        0 <= k < a.len(),
        a[k] == b[i],
{
    broadcast use vstd::seq_lib::group_to_multiset_ensures;

    assert(b.contains(b[i]));
    assert(b.to_multiset().count(b[i]) > 0);
    assert(a.to_multiset().count(b[i]) > 0);
    assert(a.contains(b[i]));
    choose|k: int| 0 <= k < a.len() && a[k] == b[i]
}

/// A sequence with the multiset of one without repeats has no repeats.
proof fn lemma_permuted_no_duplicates(a: Seq<SearchNode>, b: Seq<SearchNode>)
    requires
        a.to_multiset() == b.to_multiset(),
        a.no_duplicates(),
    ensures
        b.no_duplicates(),
{
    broadcast use vstd::seq_lib::group_to_multiset_ensures;

    a.lemma_multiset_has_no_duplicates();
    assert forall|x: SearchNode| b.to_multiset().contains(x) implies b.to_multiset().count(x) == 1 by {
        assert(a.to_multiset().contains(x));
    }
    b.lemma_multiset_has_no_duplicates_conv();
}

/// All reachable nodes, put in another order, are still all reachable
/// nodes.
#[verifier::spinoff_prover]
pub proof fn lemma_reachable_permuted(a: Seq<SearchNode>, b: Seq<SearchNode>)
    requires
        all_reachable(a),
        a.to_multiset() == b.to_multiset(),
    ensures
        all_reachable(b),
{
    assert(a.no_duplicates()) by {
        assert forall|x: int, y: int| 0 <= x < a.len() && 0 <= y < a.len() && x != y implies a[x]
            != a[y] by {
            assert(state_of(a[x].0) != state_of(a[y].0));
        }
    }
    lemma_permuted_no_duplicates(a, b);
    assert forall|i: int| 0 <= i < b.len() implies is_valid(#[trigger] b[i].0) && built(b[i].0)
        == b[i].0 by {
        let k = lemma_permuted_find(a, b, i);
        assert(is_valid(a[k].0));
    }
    assert forall|i: int| 0 <= i < b.len() implies (#[trigger] b[i]).0 < 0x100_0000_0000_0000 by {
        let k = lemma_permuted_find(a, b, i);
        assert(a[k].0 < 0x100_0000_0000_0000);
    }
    assert forall|i: int, j: int|
        0 <= i < b.len() && 0 <= j < b.len() && i != j implies state_of(#[trigger] b[i].0)
        != state_of(#[trigger] b[j].0) by {
        let x = lemma_permuted_find(a, b, i);
        let y = lemma_permuted_find(a, b, j);
        assert(b[i] != b[j]);
        assert(x != y);
    }
    assert forall|i: int, j: int|
        0 <= i < b.len() && 0 <= j < child_states(b[i].0).len() implies has_node(
        b,
        #[trigger] child_states(b[i].0)[j],
    ) by {
        let x = lemma_permuted_find(a, b, i);
        assert(has_node(a, child_states(a[x].0)[j]));
        let y = choose|k: int| 0 <= k < a.len() && state_of(#[trigger] a[k].0) == child_states(
            a[x].0,
        )[j];
        let z = lemma_permuted_find(b, a, y);
        assert(state_of(b[z].0) == child_states(b[i].0)[j]);
    }
}

/// The state of the solver between two reports: all reachable nodes,
/// sorted `srt`, first guesses `ini`, now `cur`; the states of the nodes
/// that have reported in `p`; settled nodes that are yet to report on
/// `stack`.
pub closed spec fn between_reports(
    cur: Seq<SearchNode>,
    srt: Seq<SearchNode>,
    ini: Seq<SearchNode>,
    p: Set<u64>,
    stack: Seq<SearchNode>,
) -> bool {
    &&& all_reachable(srt)
    &&& tracks(cur, srt)
    &&& ini.len() == srt.len()
    &&& forall|i: int|
        0 <= i < srt.len() && terminality_of(srt[i].0) == Terminality::Nonterminal
            ==> best_known_outcome_of((#[trigger] ini[i]).0) == -201
    &&& counted(cur, srt, p, Seq::empty())
    &&& all_heard(cur, srt, ini, p, Seq::empty(), 0)
    &&& books(cur, p, stack, None)
}

/// The state of the solver while node `i_top`, with best outcome `tb`,
/// reports to the first `k` of its parent states.
pub closed spec fn while_reporting(
    cur: Seq<SearchNode>,
    srt: Seq<SearchNode>,
    ini: Seq<SearchNode>,
    p: Set<u64>,
    stack: Seq<SearchNode>,
    i_top: int,
    tb: int,
    k: int,
) -> bool {
    let ps = crate::lineage::parent_states(srt[i_top].0);
    &&& all_reachable(srt)
    &&& tracks(cur, srt)
    &&& ini.len() == srt.len()
    &&& forall|i: int|
        0 <= i < srt.len() && terminality_of(srt[i].0) == Terminality::Nonterminal
            ==> best_known_outcome_of((#[trigger] ini[i]).0) == -201
    &&& reporting_top(cur, srt, p, i_top, tb)
    &&& 0 <= k <= ps.len()
    &&& counted(cur, srt, p, ps.take(k))
    &&& all_heard(cur, srt, ini, p, ps.take(k), tb)
    &&& books(cur, p, stack, Some(state_of(srt[i_top].0)))
}

/// Before any report, the initialized nodes with the terminal ones on the
/// stack are between reports, none reported yet.
pub proof fn lemma_solver_start(srt: Seq<SearchNode>, ini: Seq<SearchNode>, stack: Seq<SearchNode>)
    requires
        all_reachable(srt),
        ini.len() == srt.len(),
        forall|i: int|
            0 <= i < ini.len() ==> (#[trigger] ini[i]).0 == crate::backward_pass::initialized(
                srt[i].0,
            ),
        stack == ini.filter(|n: SearchNode| terminality_of(n.0) != Terminality::Nonterminal),
    ensures
        between_reports(ini, srt, ini, Set::empty(), stack),
{
    lemma_inv_start(srt, ini, stack);
}

/// Taking the top node off the stack starts its report.
pub proof fn lemma_solver_pop(
    cur: Seq<SearchNode>,
    srt: Seq<SearchNode>,
    ini: Seq<SearchNode>,
    p: Set<u64>,
    stack: Seq<SearchNode>,
    i_top: int,
)
    requires
        between_reports(cur, srt, ini, p, stack),
        stack.len() > 0,
        0 <= i_top < cur.len(),
        cur[i_top] == stack.last(),
    ensures
        while_reporting(
            cur,
            srt,
            ini,
            p,
            stack.drop_last(),
            i_top,
            best_known_outcome_of(cur[i_top].0),
            0,
        ),
        crate::lineage::parent_states(cur[i_top].0) == crate::lineage::parent_states(srt[i_top].0),
{
    lemma_report_pop(cur, p, stack);
    lemma_node_facts(cur[i_top].0, srt[i_top].0);
    let ps = crate::lineage::parent_states(srt[i_top].0);
    let tb = best_known_outcome_of(cur[i_top].0);
    assert(ps.take(0) =~= Seq::<u64>::empty());
    assert forall|i: int|
        0 <= i < cur.len() && terminality_of(srt[i].0) == Terminality::Nonterminal implies #[trigger] heard_from(
        cur,
        srt,
        ini,
        p,
        ps.take(0),
        tb,
        i,
    ) by {
        assert(heard_from(cur, srt, ini, p, Seq::empty(), 0, i));
        assert(!Seq::<u64>::empty().contains(state_of(cur[i].0)));
    }
}

/// A parent state of the reporting node that is the state of node `idx`
/// belongs to a node that still has to hear from it.
pub proof fn lemma_solver_guard(
    cur: Seq<SearchNode>,
    srt: Seq<SearchNode>,
    ini: Seq<SearchNode>,
    p: Set<u64>,
    stack: Seq<SearchNode>,
    i_top: int,
    tb: int,
    k: int,
    idx: int,
)
    requires
        while_reporting(cur, srt, ini, p, stack, i_top, tb, k),
        k < crate::lineage::parent_states(srt[i_top].0).len(),
        0 <= idx < cur.len(),
        state_of(cur[idx].0) == crate::lineage::parent_states(srt[i_top].0)[k],
    ensures
        report_count_of(cur[idx].0) > 0,
{
    lemma_report_guard(cur, srt, p, i_top, tb, k, idx);
}

/// The parent with the `k`-th parent state hearing from the reporting node
/// goes on with its report.
pub proof fn lemma_solver_heard(
    cur: Seq<SearchNode>,
    cur2: Seq<SearchNode>,
    srt: Seq<SearchNode>,
    ini: Seq<SearchNode>,
    p: Set<u64>,
    stack: Seq<SearchNode>,
    stack2: Seq<SearchNode>,
    i_top: int,
    tb: int,
    k: int,
    idx: int,
    upd: SearchNode,
)
    requires
        while_reporting(cur, srt, ini, p, stack, i_top, tb, k),
        k < crate::lineage::parent_states(srt[i_top].0).len(),
        state_of(cur[idx].0) == crate::lineage::parent_states(srt[i_top].0)[k],
        heard_once(cur, cur2, idx, upd, tb),
        stack2 == if report_count_of(upd.0) == 0 {
            stack.push(upd)
        } else {
            stack
        },
    ensures
        while_reporting(cur2, srt, ini, p, stack2, i_top, tb, k + 1),
{
    let ps = crate::lineage::parent_states(srt[i_top].0);
    let t = state_of(srt[i_top].0);
    lemma_report_guard(cur, srt, p, i_top, tb, k, idx);
    lemma_report_books(cur, cur2, srt, p, stack, stack2, t, i_top, idx, upd, tb);
    lemma_report_counted(cur, cur2, srt, p, ps, k, idx, upd, tb);
    lemma_report_heard(cur, cur2, srt, ini, p, ps, k, idx, upd, tb);
}

/// A parent state of the reporting node that is no node's state is
/// passed over.
pub proof fn lemma_solver_skip(
    cur: Seq<SearchNode>,
    srt: Seq<SearchNode>,
    ini: Seq<SearchNode>,
    p: Set<u64>,
    stack: Seq<SearchNode>,
    i_top: int,
    tb: int,
    k: int,
)
    requires
        while_reporting(cur, srt, ini, p, stack, i_top, tb, k),
        k < crate::lineage::parent_states(srt[i_top].0).len(),
        forall|i: int|
            0 <= i < cur.len() ==> state_of((#[trigger] cur[i]).0) != crate::lineage::parent_states(
                srt[i_top].0,
            )[k],
    ensures
        while_reporting(cur, srt, ini, p, stack, i_top, tb, k + 1),
{
    lemma_report_skip(cur, srt, ini, p, i_top, tb, k);
}

/// Once the reporting node has gone through all its parent states, it has
/// reported.
pub proof fn lemma_solver_reported(
    cur: Seq<SearchNode>,
    srt: Seq<SearchNode>,
    ini: Seq<SearchNode>,
    p: Set<u64>,
    stack: Seq<SearchNode>,
    i_top: int,
    tb: int,
)
    requires
        while_reporting(
            cur,
            srt,
            ini,
            p,
            stack,
            i_top,
            tb,
            crate::lineage::parent_states(srt[i_top].0).len() as int,
        ),
    ensures
        between_reports(cur, srt, ini, p.insert(state_of(srt[i_top].0)), stack),
{
    let ps = crate::lineage::parent_states(srt[i_top].0);
    assert(ps.take(ps.len() as int) =~= ps);
    lemma_report_finish(cur, srt, ini, p, stack, i_top, tb);
}

/// Once no node waits on the stack, the nodes are solved.
pub proof fn lemma_solver_done(
    cur: Seq<SearchNode>,
    srt: Seq<SearchNode>,
    ini: Seq<SearchNode>,
    p: Set<u64>,
)
    requires
        between_reports(cur, srt, ini, p, Seq::empty()),
    ensures
        solved(cur),
{
    lemma_solved_at_end(cur, srt, ini, p);
}

/// A child of a valid, built, nonterminal node is valid and built.
pub proof fn lemma_child_valid(x: u64, i: int)
    requires
        is_valid(x),
        built(x) == x,
        !crate::node::is_terminal_node(x),
        0 <= i < children_of(x).len(),
    ensures
        is_valid(children_of(x)[i]),
        built(children_of(x)[i]) == children_of(x)[i],
{
    let r = crate::lineage::lemma_child_index(x, i);
    let p = r.0;
    let j = r.1;
    let b = crate::node::board_of(x);
    let ac = crate::children::actor_children(x, p);
    crate::bits::lemma_field_bounds(x, crate::pieces::coords_offset_of(p));
    assert(co(x, 1) != 15);
    crate::lineage::lemma_tri_bounds(x, 1);
    let m: u64 = if crate::pieces::coords_of(x, p) == 15 {
        let es = crate::coords::empty_squares_of(b);
        let d = es[j];
        assert(es.contains(d));
        crate::movement::lemma_filter_contains_iff(
            crate::coords::board_squares(),
            |c: u64| crate::coords::square_of(b, c) == 0,
            d,
        );
        crate::lineage::lemma_board_squares_are_board_squares(d);
        assert(ac[j] == crate::children::drop_child(x, p, d));
        assert(p != 1);
        let m = crate::bits::with_field(x, crate::lineage::co_offset(p), 15, d);
        crate::lineage::lemma_set_co(x, p, d);
        crate::lineage::lemma_empty_square_free(x, d);
        crate::lineage::lemma_placed_move(x, m, p);
        assert(crate::lineage::tri(m, 1) == crate::lineage::tri(x, 1));
        m
    } else {
        let legal = crate::movement::legal_squares_of(
            p,
            crate::pieces::is_promoted_in(x, p),
            crate::movement::Unknown::Dest,
            crate::pieces::coords_of(x, p),
        );
        let pred = |e: u64| crate::children::vacated(x, b, e) != 0;
        let f = legal.filter(pred);
        let d = f[j];
        assert(f.contains(d));
        crate::movement::lemma_filter_contains_iff(legal, pred, d);
        crate::lineage::lemma_destination(p, crate::pieces::is_promoted_in(x, p), co(x, p), d);
        let v = crate::children::vacated(x, b, d);
        let k = crate::lineage::lemma_vacated_cases(x, d);
        if k == 0 {
            crate::lineage::lemma_captured_parts(x, 1);
            crate::lineage::lemma_placed_move(x, v, 0);
        } else if k != 8 {
            crate::lineage::lemma_captured_parts(x, k);
            crate::lineage::lemma_placed_move(x, v, k);
        }
        assert(pieces_placed(v));
        if k != 8 {
            assert(crate::lineage::tri(v, 1) == crate::lineage::tri(x, 1));
        }
        let m = crate::pieces::moved_and_promoted(v, p, d);
        crate::lineage::lemma_moved_parts(v, p, d);
        assert forall|q: u8| q <= 7 && q != p implies #[trigger] co(v, q) != d by {
            if k == 8 {
            } else if k == 0 {
                if q != 0 {
                    assert(crate::lineage::tri(v, q) == crate::lineage::tri(x, q));
                }
            } else {
                if q != k {
                    assert(crate::lineage::tri(v, q) == crate::lineage::tri(x, q));
                }
            }
        }
        crate::lineage::lemma_placed_move(v, m, p);
        assert(ac[j] == crate::children::move_child(v, p, d));
        if p != 1 {
            assert(crate::lineage::tri(m, 1) == crate::lineage::tri(v, 1));
        }
        m
    };
    assert(children_of(x)[i] == built(crate::node::inverted(m)));
    assert(is_valid(x));
    assert(pieces_placed(m));
    assert(crate::coords::is_board_square(co(m, 1)));
    let y = crate::node::inverted(m);
    crate::lineage::lemma_inverted_placed(m);
    crate::lineage::lemma_inverted_parts(m);
    crate::lineage::lemma_inverted_square(co(m, 1));
    crate::lineage::lemma_built_parts(y);
    crate::lineage::lemma_equiv_placed(built(y), y);
    crate::lineage::lemma_equiv_built(built(y), y);
}

/// The node of the key of a node's state, with all state stats zero, has
/// that state.
pub proof fn lemma_key_node(c: u64)
    requires
        c < 0x100_0000_0000_0000,
    ensures
        key_of(c) < 0x100_0000_0000,
        node_of_key(State(key_of(c))).0 < 0x100_0000_0000_0000,
        state_of(node_of_key(State(key_of(c))).0) == state_of(c),
        node_of_key(State(key_of(c))).0 == state_of(c),
{
    let s = state_of(c);
    let k = key_of(c);
    crate::forward_pass::lemma_state_bits(c);
    let n = node_of_key(State(k)).0;
    crate::state_set::lemma_key_bits(k, n);
    if state_of(n) != state_of(s) {
        crate::state_set::lemma_state_key_injective(n, s);
    }
}

/// The end of a walk from the key of a valid, built node is the key of a
/// valid, built node.
pub proof fn lemma_walk_valid(w: Seq<u64>)
    requires
        w.len() > 0,
        is_walk(w),
        w[0] < 0x100_0000_0000,
        is_valid(node_of_key(State(w[0])).0),
        built(node_of_key(State(w[0])).0) == node_of_key(State(w[0])).0,
    ensures
        w.last() < 0x100_0000_0000,
        is_valid(node_of_key(State(w.last())).0),
        built(node_of_key(State(w.last())).0) == node_of_key(State(w.last())).0,
    decreases w.len(),
{
    if w.len() > 1 {
        let v = w.drop_last();
        assert(is_walk(v)) by {
            assert forall|i: int| 0 <= i < v.len() - 1 implies #[trigger] child_keys(
                v[i],
            ).contains(v[i + 1]) by {
                assert(child_keys(w[i]).contains(w[i + 1]));
            }
        }
        lemma_walk_valid(v);
        let n = w.len() - 2;
        assert(v.last() == w[n]);
        assert(child_keys(w[n]).contains(w[n + 1]));
        let x = node_of_key(State(w[n])).0;
        crate::state_set::lemma_key_bits(w[n], x);
        let j = choose|j: int| 0 <= j < child_keys(w[n]).len() && child_keys(w[n])[j] == w[n + 1];
        reveal(child_keys);
        assert(!crate::node::is_terminal_node(x));
        let c = children_of(x)[j];
        assert(w.last() == key_of(c));
        lemma_child_valid(x, j);
        crate::lineage::lemma_child_ends(x, j);
        crate::lineage::lemma_set_own_low(x);
        crate::lineage::lemma_set_own_low(c);
        lemma_key_node(c);
        lemma_node_facts(node_of_key(State(key_of(c))).0, c);
    }
}

/// The nodes that the forward pass gives (each reachable state from the
/// state of a valid, built node, once, in ascending order, with all state
/// stats zero) are all the reachable nodes in the sense of `all_reachable`.
pub proof fn lemma_forward_pass_gives_all_reachable(x0: u64, r: Seq<SearchNode>)
    requires
        is_valid(x0),
        built(x0) == x0,
        x0 < 0x100_0000_0000_0000,
        forall|i: int, j: int| 0 <= i < j < r.len() ==> r[i].0 < r[j].0,
        forall|i: int| 0 <= i < r.len() ==> state_of((#[trigger] r[i]).0) == r[i].0,
        forall|i: int| 0 <= i < r.len() ==> reaches(key_of(x0), key_of((#[trigger] r[i]).0)),
        forall|k: u64|
            reaches(key_of(x0), k) ==> exists|i: int| 0 <= i < r.len() && key_of(#[trigger] r[i].0) == k,
    ensures
        all_reachable(r),
{
    let k0 = key_of(x0);
    lemma_key_node(x0);
    lemma_node_facts(node_of_key(State(k0)).0, x0);
    assert forall|i: int| 0 <= i < r.len() implies is_valid(#[trigger] r[i].0) && built(r[i].0)
        == r[i].0 && r[i].0 < 0x100_0000_0000_0000 by {
        let x = r[i].0;
        crate::forward_pass::lemma_state_bits(x);
        assert(reaches(k0, key_of(x)));
        let w = choose|w: Seq<u64>| w.len() > 0 && w[0] == k0 && w.last() == key_of(x) && #[trigger] is_walk(w);
        lemma_walk_valid(w);
        lemma_key_node(x);
        lemma_node_facts(x, node_of_key(State(key_of(x))).0);
    }
    assert forall|i: int| 0 <= i < r.len() implies (#[trigger] r[i]).0 < 0x100_0000_0000_0000 by {
        crate::forward_pass::lemma_state_bits(r[i].0);
    }
    assert forall|i: int, j: int|
        0 <= i < r.len() && 0 <= j < r.len() && i != j implies state_of(#[trigger] r[i].0) != state_of(
        #[trigger] r[j].0,
    ) by {
        if i < j {
            assert(r[i].0 < r[j].0);
        } else {
            assert(r[j].0 < r[i].0);
        }
    }
    assert forall|i: int, j: int|
        0 <= i < r.len() && 0 <= j < child_states(r[i].0).len() implies has_node(
        r,
        #[trigger] child_states(r[i].0)[j],
    ) by {
        let x = r[i].0;
        crate::forward_pass::lemma_state_bits(x);
        lemma_key_node(x);
        let c = children_of(x)[j];
        assert(child_states(x)[j] == state_of(c));
        reveal(child_keys);
        assert(child_keys(key_of(x))[j] == key_of(c));
        assert(child_keys(key_of(x)).contains(key_of(c)));
        crate::forward_pass::lemma_extend_reach(k0, key_of(x), key_of(c));
        let i2 = choose|i2: int| 0 <= i2 < r.len() && key_of(#[trigger] r[i2].0) == key_of(c);
        crate::forward_pass::lemma_state_bits(r[i2].0);
        crate::forward_pass::lemma_state_bits(c);
        if r[i2].0 != state_of(c) {
            crate::state_set::lemma_state_key_injective(r[i2].0, state_of(c));
        }
        assert(state_of(r[i2].0) == child_states(x)[j]);
    }
}

/// The squares of the pieces of the initial node, and its pieces in order.
proof fn lemma_initial_node_bits()
    by (bit_vector)
    ensures
        (0x2b_2078_5c1d_0000u64 >> 16u64) & 15 == 13,
        (0x2b_2078_5c1d_0000u64 >> 20u64) & 15 == 1,
        (0x2b_2078_5c1d_0000u64 >> 51u64) & 15 == 5,
        (0x2b_2078_5c1d_0000u64 >> 45u64) & 15 == 9,
        (0x2b_2078_5c1d_0000u64 >> 39u64) & 15 == 0,
        (0x2b_2078_5c1d_0000u64 >> 34u64) & 15 == 14,
        (0x2b_2078_5c1d_0000u64 >> 29u64) & 15 == 2,
        (0x2b_2078_5c1d_0000u64 >> 24u64) & 15 == 12,
        (0x2b_2078_5c1d_0000u64 & !0x00ff_ffff_ff00_0000u64) | (10u64 << 50u64) | (50u64 << 44u64)
            | (0u64 << 39u64) | (30u64 << 34u64) | (2u64 << 29u64) | (28u64 << 24u64)
            == 0x2b_2078_5c1d_0000u64,
        (0x2b_2078_5c1d_0000u64 >> 50u64) & 63 == 10,
        (0x2b_2078_5c1d_0000u64 >> 44u64) & 63 == 50,
        (0x2b_2078_5c1d_0000u64 >> 39u64) & 31 == 0,
        (0x2b_2078_5c1d_0000u64 >> 34u64) & 31 == 30,
        (0x2b_2078_5c1d_0000u64 >> 29u64) & 31 == 2,
        (0x2b_2078_5c1d_0000u64 >> 24u64) & 31 == 28,
{
}

/// The initial node is valid and built.
pub proof fn lemma_initial_node_valid()
    ensures
        is_valid(crate::node::INITIAL_NODE),
        built(crate::node::INITIAL_NODE) == crate::node::INITIAL_NODE,
        crate::node::INITIAL_NODE < 0x100_0000_0000_0000,
{
    let x = crate::node::INITIAL_NODE;
    lemma_initial_node_bits();
    assert(co(x, 0) == 13);
    assert(co(x, 1) == 1);
    assert(co(x, 2) == 5);
    assert(co(x, 3) == 9);
    assert(co(x, 4) == 0);
    assert(co(x, 5) == 14);
    assert(co(x, 6) == 2);
    assert(co(x, 7) == 12);
    assert forall|q: u8| q <= 7 implies (#[trigger] co(x, q) == 15 || crate::coords::is_board_square(
        co(x, q),
    )) by {
        assert(q == 0 || q == 1 || q == 2 || q == 3 || q == 4 || q == 5 || q == 6 || q == 7);
    }
    assert forall|q: u8, r: u8|
        q <= 7 && r <= 7 && q != r && #[trigger] co(x, q) == #[trigger] co(x, r) implies co(x, q)
        == 15 by {
        assert(q == 0 || q == 1 || q == 2 || q == 3 || q == 4 || q == 5 || q == 6 || q == 7);
        assert(r == 0 || r == 1 || r == 2 || r == 3 || r == 4 || r == 5 || r == 6 || r == 7);
    }
    assert(pieces_placed(x));
}

/// Whether `ord` lists the states of the settled nodes of `s` once each,
/// each settled on account of those before it: terminal, or with the
/// states of all its children listed earlier. No node is settled on
/// account of itself, so nodes that only lead to each other stay
/// unsettled.
pub open spec fn settled_in_order(s: Seq<SearchNode>, ord: Seq<u64>) -> bool {
    &&& ord.no_duplicates()
    &&& forall|st: u64| #[trigger] ord.contains(st) <==> exists|k: int| settled_at(s, st, k)
    &&& forall|i: int, k: int|
        0 <= i < ord.len() && 0 <= k < s.len() && state_of((#[trigger] s[k]).0) == #[trigger] ord[i]
            ==> terminality_of(s[k].0) != Terminality::Nonterminal || forall|j: int|
            0 <= j < child_states(s[k].0).len() ==> crate::stat_retrograde::prefix_set(
                ord,
                i,
            ).contains(#[trigger] child_states(s[k].0)[j])
}

/// The order in which the nodes of the sorted slice `srt` reported: their
/// states `p`, listed by `ord`, each on account of those before it.
pub closed spec fn slice_order(srt: Seq<SearchNode>, ord: Seq<u64>, p: Set<u64>) -> bool {
    &&& ord.no_duplicates()
    &&& forall|st: u64| #[trigger] p.contains(st) <==> ord.contains(st)
    &&& forall|i: int, k: int|
        0 <= i < ord.len() && 0 <= k < srt.len() && state_of((#[trigger] srt[k]).0)
            == #[trigger] ord[i] ==> terminality_of(srt[k].0) != Terminality::Nonterminal
            || forall|j: int|
            0 <= j < child_states(srt[k].0).len() ==> crate::stat_retrograde::prefix_set(
                ord,
                i,
            ).contains(#[trigger] child_states(srt[k].0)[j])
}

/// Before any report, nothing is listed.
pub proof fn lemma_slice_order_start(srt: Seq<SearchNode>)
    ensures
        slice_order(srt, Seq::empty(), Set::empty()),
{
}

/// The node taken off the stack to report has heard from all its
/// children, so it joins the list on account of those before it.
pub proof fn lemma_slice_order_pop(
    cur: Seq<SearchNode>,
    srt: Seq<SearchNode>,
    ini: Seq<SearchNode>,
    p: Set<u64>,
    stack: Seq<SearchNode>,
    i_top: int,
    ord: Seq<u64>,
)
    requires
        between_reports(cur, srt, ini, p, stack),
        slice_order(srt, ord, p),
        stack.len() > 0,
        0 <= i_top < cur.len(),
        cur[i_top] == stack.last(),
    ensures
        slice_order(
            srt,
            ord.push(state_of(srt[i_top].0)),
            p.insert(state_of(srt[i_top].0)),
        ),
{
    let t = state_of(srt[i_top].0);
    let ord2 = ord.push(t);
    let p2 = p.insert(t);
    assert(stack[stack.len() - 1] == stack.last());
    assert(settled(cur[i_top].0) && !p.contains(state_of(cur[i_top].0)));
    assert(!ord.contains(t));
    lemma_node_facts(cur[i_top].0, srt[i_top].0);
    if terminality_of(srt[i_top].0) == Terminality::Nonterminal {
        let cs = child_states(srt[i_top].0);
        assert(!Seq::<u64>::empty().contains(state_of(cur[i_top].0)));
        lemma_count_in_bounds(cs, p);
    }
    assert forall|st: u64| #[trigger] p2.contains(st) <==> ord2.contains(st) by {
        if ord2.contains(st) && st != t {
            let a = choose|a: int| 0 <= a < ord2.len() && ord2[a] == st;
            assert(ord[a] == st);
        }
        if ord.contains(st) {
            let a = choose|a: int| 0 <= a < ord.len() && ord[a] == st;
            assert(ord2[a] == st);
        }
        if st == t {
            assert(ord2[ord.len() as int] == t);
        }
    }
    assert forall|i: int, k: int|
        0 <= i < ord2.len() && 0 <= k < srt.len() && state_of((#[trigger] srt[k]).0)
            == #[trigger] ord2[i] implies terminality_of(srt[k].0) != Terminality::Nonterminal
        || forall|j: int|
        0 <= j < child_states(srt[k].0).len() ==> crate::stat_retrograde::prefix_set(
            ord2,
            i,
        ).contains(#[trigger] child_states(srt[k].0)[j]) by {
        assert forall|x: u64| crate::stat_retrograde::prefix_set(ord2, i).contains(x)
            == crate::stat_retrograde::prefix_set(ord, i).contains(x) by {
            if crate::stat_retrograde::prefix_set(ord2, i).contains(x) {
                let a = choose|a: int| 0 <= a < i && ord2[a] == x;
                if a < ord.len() {
                    assert(ord[a] == x);
                }
            }
            if crate::stat_retrograde::prefix_set(ord, i).contains(x) {
                let a = choose|a: int| 0 <= a < i && ord[a] == x;
                assert(ord2[a] == x);
            }
        }
        if i < ord.len() {
            assert(ord2[i] == ord[i]);
        } else {
            if k != i_top {
                assert(state_of(srt[k].0) != state_of(srt[i_top].0));
            }
            if terminality_of(srt[k].0) == Terminality::Nonterminal {
                assert forall|j: int| 0 <= j < child_states(srt[k].0).len() implies crate::stat_retrograde::prefix_set(
                    ord2,
                    i,
                ).contains(#[trigger] child_states(srt[k].0)[j]) by {
                    let x = child_states(srt[k].0)[j];
                    assert(p.contains(x));
                    assert(ord.contains(x));
                    let a = choose|a: int| 0 <= a < ord.len() && ord[a] == x;
                    assert(ord2[a] == x);
                }
            }
        }
    }
}

/// Once nothing waits on the stack, the reported states list the settled
/// nodes, each on account of those before it.
pub proof fn lemma_slice_order_done(
    cur: Seq<SearchNode>,
    srt: Seq<SearchNode>,
    ini: Seq<SearchNode>,
    p: Set<u64>,
    ord: Seq<u64>,
)
    requires
        between_reports(cur, srt, ini, p, Seq::empty()),
        slice_order(srt, ord, p),
    ensures
        settled_in_order(cur, ord),
{
    assert forall|st: u64| #[trigger] ord.contains(st) <==> exists|k: int| settled_at(cur, st, k) by {
        assert(p.contains(st) == ord.contains(st));
        if exists|k: int| settled_at(cur, st, k) {
            let k = choose|k: int| settled_at(cur, st, k);
            assert(settled(cur[k].0));
            assert(!stacked_state(Seq::<SearchNode>::empty(), state_of(cur[k].0)));
        }
    }
    assert forall|i: int, k: int|
        0 <= i < ord.len() && 0 <= k < cur.len() && state_of((#[trigger] cur[k]).0)
            == #[trigger] ord[i] implies terminality_of(cur[k].0) != Terminality::Nonterminal
        || forall|j: int|
        0 <= j < child_states(cur[k].0).len() ==> crate::stat_retrograde::prefix_set(
            ord,
            i,
        ).contains(#[trigger] child_states(cur[k].0)[j]) by {
        lemma_node_facts(cur[k].0, srt[k].0);
        assert(state_of(srt[k].0) == ord[i]);
    }
}

/// The states of the settled nodes of `s`.
pub open spec fn settled_states(s: Seq<SearchNode>) -> Set<u64> {
    Set::new(|st: u64| exists|k: int| settled_at(s, st, k))
}

/// Whether each nonterminal node still has to hear from exactly its
/// children that are not settled.
pub open spec fn counts_unheard(s: Seq<SearchNode>) -> bool {
    forall|i: int|
        0 <= i < s.len() && terminality_of((#[trigger] s[i]).0) == Terminality::Nonterminal
            ==> report_count_of(s[i].0) + count_in(child_states(s[i].0), settled_states(s))
            == child_states(s[i].0).len()
}

/// Once nothing waits on the stack, each nonterminal node has exactly its
/// unsettled children to hear from.
pub proof fn lemma_counts_done(
    cur: Seq<SearchNode>,
    srt: Seq<SearchNode>,
    ini: Seq<SearchNode>,
    p: Set<u64>,
)
    requires
        between_reports(cur, srt, ini, p, Seq::empty()),
    ensures
        counts_unheard(cur),
{
    assert forall|st: u64| p.contains(st) == settled_states(cur).contains(st) by {
        if settled_states(cur).contains(st) {
            let k = choose|k: int| settled_at(cur, st, k);
            assert(settled(cur[k].0));
            assert(!stacked_state(Seq::<SearchNode>::empty(), state_of(cur[k].0)));
        }
    }
    assert(p =~= settled_states(cur));
    assert forall|i: int|
        0 <= i < cur.len() && terminality_of((#[trigger] cur[i]).0) == Terminality::Nonterminal
            implies report_count_of(cur[i].0) + count_in(child_states(cur[i].0), settled_states(cur))
        == child_states(cur[i].0).len() by {
        lemma_node_facts(cur[i].0, srt[i].0);
        assert(!Seq::<u64>::empty().contains(state_of(cur[i].0)));
    }
}

} // verus!
