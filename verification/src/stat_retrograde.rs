//! What solving a map from all reachable states to their stats achieves:
//! a state that still has children to hear from waits on a child that is
//! not settled and has lost to none of them; a settled state has heard
//! from all its children and is no worse than any of them, or has won
//! through a child that lost.
use vstd::prelude::*;
use crate::children::children_of;
use crate::forward_pass::{child_keys, is_walk, key_of, reaches};
use crate::lineage::{child_states, is_valid, parent_states};
use crate::node::{Terminality, built, child_challenger, state_of, terminality_of};
use crate::parents::parents_of;
use crate::retrograde::{count_in, lemma_key_node, lemma_node_facts};
use crate::state::State;
use crate::state_set::{node_of_key, state_key};
use crate::outcome::Outcome;
use crate::stat_solver::{heard_update, stats_advanced};
use crate::state_stats::{
    StateStats, guessed_stats, parent_keys, state_terminality, stats_outcome, stats_report_count,
};

verus! {

/// The node of key `k`, with all state stats zero.
pub open spec fn key_node(k: u64) -> u64 {
    node_of_key(State(k)).0
}

/// Whether `k` is the key of a valid, built node.
pub open spec fn valid_key(k: u64) -> bool {
    &&& k < 0x100_0000_0000
    &&& is_valid(key_node(k))
    &&& built(key_node(k)) == key_node(k)
}

/// The node of a key is its own state, and gives the key back.
pub proof fn lemma_key_node_bits(k: u64)
    requires
        k < 0x100_0000_0000,
    ensures
        key_node(k) < 0x100_0000_0000_0000,
        state_of(key_node(k)) == key_node(k),
        state_key(key_node(k)) == k,
        key_of(key_node(k)) == k,
{
    crate::state_set::lemma_key_bits(k, key_node(k));
}

/// Two nodes below the top byte whose states have one key have one state.
proof fn lemma_same_key(a: u64, b: u64)
    requires
        a < 0x100_0000_0000_0000,
        b < 0x100_0000_0000_0000,
        key_of(a) == key_of(b),
    ensures
        state_of(a) == state_of(b),
{
    crate::forward_pass::lemma_state_bits(a);
    crate::forward_pass::lemma_state_bits(b);
    if state_of(a) != state_of(b) {
        crate::state_set::lemma_state_key_injective(state_of(a), state_of(b));
    }
}

/// The child keys of a valid nonterminal key: one per child, no two the
/// same, each valid.
pub proof fn lemma_child_keys(k: u64)
    requires
        valid_key(k),
        state_terminality(k) == Terminality::Nonterminal,
    ensures
        child_keys(k).len() == children_of(key_node(k)).len(),
        child_keys(k).no_duplicates(),
        forall|j: int| 0 <= j < child_keys(k).len() ==> valid_key(#[trigger] child_keys(k)[j]),
{
    let x = key_node(k);
    lemma_key_node_bits(k);
    reveal(child_keys);
    let cs = children_of(x);
    crate::lineage::lemma_set_own_low(x);
    assert forall|j: int| 0 <= j < cs.len() implies #[trigger] cs[j] < 0x100_0000_0000_0000 by {
        crate::lineage::lemma_child_ends(x, j);
        crate::lineage::lemma_set_own_low(cs[j]);
    }
    crate::lineage::lemma_child_states_unique(x);
    assert forall|i: int, j: int|
        0 <= i < child_keys(k).len() && 0 <= j < child_keys(k).len() && i != j implies child_keys(
        k,
    )[i] != child_keys(k)[j] by {
        if child_keys(k)[i] == child_keys(k)[j] {
            lemma_same_key(cs[i], cs[j]);
            assert(child_states(x)[i] == child_states(x)[j]);
        }
    }
    assert forall|j: int| 0 <= j < child_keys(k).len() implies valid_key(
        #[trigger] child_keys(k)[j],
    ) by {
        let c = cs[j];
        crate::retrograde::lemma_child_valid(x, j);
        lemma_key_node(c);
        lemma_node_facts(key_node(key_of(c)), c);
    }
}

/// The parent keys of a valid key: no two the same.
pub proof fn lemma_parent_keys_unique(t: u64)
    requires
        valid_key(t),
    ensures
        parent_keys(t).no_duplicates(),
{
    let y = key_node(t);
    lemma_key_node_bits(t);
    let ps = parents_of(y);
    crate::lineage::lemma_set_own_low(y);
    crate::lineage::lemma_parent_states_unique(y);
    assert forall|i: int, j: int|
        0 <= i < parent_keys(t).len() && 0 <= j < parent_keys(t).len() && i != j implies parent_keys(
        t,
    )[i] != parent_keys(t)[j] by {
        if parent_keys(t)[i] == parent_keys(t)[j] {
            crate::lineage::lemma_parent_ends(y, i);
            crate::lineage::lemma_parent_ends(y, j);
            crate::lineage::lemma_set_own_low(ps[i]);
            crate::lineage::lemma_set_own_low(ps[j]);
            lemma_same_key(ps[i], ps[j]);
            assert(parent_states(y)[i] == parent_states(y)[j]);
        }
    }
}

/// For valid keys `p` and `t`: `p` is a parent key of `t` exactly when
/// `p` is nonterminal and `t` is a child key of `p`.
pub proof fn lemma_key_consistency(p: u64, t: u64)
    requires
        valid_key(p),
        valid_key(t),
    ensures
        parent_keys(t).contains(p) <==> (state_terminality(p) == Terminality::Nonterminal
            && child_keys(p).contains(t)),
{
    let x = key_node(p);
    let y = key_node(t);
    lemma_key_node_bits(p);
    lemma_key_node_bits(t);
    reveal(child_keys);
    if parent_keys(t).contains(p) {
        let i = choose|i: int| 0 <= i < parent_keys(t).len() && parent_keys(t)[i] == p;
        let par = parents_of(y)[i];
        crate::lineage::lemma_parent_ends(y, i);
        crate::lineage::lemma_set_own_low(y);
        crate::lineage::lemma_set_own_low(par);
        lemma_same_key(par, x);
        lemma_node_facts(par, x);
        assert(parent_states(y)[i] == state_of(x));
        crate::lineage::lemma_state_consistency(x, y);
        let j = choose|j: int| 0 <= j < child_states(x).len() && child_states(x)[j] == state_of(y);
        let c = children_of(x)[j];
        crate::forward_pass::lemma_state_bits(c);
        assert(key_of(c) == t);
        assert(child_keys(p)[j] == t);
    }
    if state_terminality(p) == Terminality::Nonterminal && child_keys(p).contains(t) {
        let j = choose|j: int| 0 <= j < child_keys(p).len() && child_keys(p)[j] == t;
        let c = children_of(x)[j];
        crate::lineage::lemma_child_ends(x, j);
        crate::lineage::lemma_set_own_low(x);
        crate::lineage::lemma_set_own_low(c);
        lemma_same_key(c, y);
        assert(child_states(x)[j] == state_of(y));
        crate::lineage::lemma_state_consistency(x, y);
        let i = choose|i: int| 0 <= i < parent_states(y).len() && parent_states(y)[i] == state_of(x);
        let par = parents_of(y)[i];
        crate::forward_pass::lemma_state_bits(par);
        assert(key_of(par) == p);
        assert(parent_keys(t)[i] == p);
    }
}

/// The count of children still to hear from of stats `m[k]`.
pub open spec fn rc(m: Map<u64, StateStats>, k: u64) -> int {
    stats_report_count(m[k].0) as int
}

/// The best known outcome of stats `m[k]`.
pub open spec fn oc(m: Map<u64, StateStats>, k: u64) -> int {
    stats_outcome(m[k].0)
}

/// Whether the map holds exactly reachable states from a valid start: each
/// key valid, the child keys of each key keys too, and every key mapped to
/// the stats it starts with.
pub open spec fn map_reachable(m: Map<u64, StateStats>) -> bool {
    &&& forall|k: u64| #[trigger] m.contains_key(k) ==> valid_key(k)
    &&& forall|k: u64, j: int|
        #![trigger m.contains_key(k), child_keys(k)[j]]
        m.contains_key(k) && 0 <= j < child_keys(k).len() ==> m.contains_key(child_keys(k)[j])
    &&& forall|k: u64| #[trigger] m.contains_key(k) ==> m[k].0 == guessed_stats(k)
}

/// Whether state `k` is settled in `m`: terminal, or with children and
/// none left to hear from.
pub open spec fn settled_in(m: Map<u64, StateStats>, k: u64) -> bool {
    state_terminality(k) != Terminality::Nonterminal || (child_keys(k).len() > 0 && rc(m, k) == 0)
}

/// The settled states of `m`.
pub open spec fn settled_keys(m: Map<u64, StateStats>) -> Set<u64> {
    Set::new(|k: u64| m.contains_key(k) && settled_in(m, k))
}

/// What an unsettled state `k` has heard from the children in `p`: it has
/// exactly the others still to hear from, none of them lost, and it is no
/// worse than any of them.
pub open spec fn heard_some(m: Map<u64, StateStats>, p: Set<u64>, k: u64) -> bool {
    &&& rc(m, k) + count_in(child_keys(k), p) == child_keys(k).len()
    &&& oc(m, k) <= 0
    &&& forall|j: int|
        0 <= j < child_keys(k).len() && p.contains(#[trigger] child_keys(k)[j]) ==> oc(
            m,
            child_keys(k)[j],
        ) >= 0 && oc(m, k) >= child_challenger(oc(m, child_keys(k)[j]))
}

/// Whether state `k` has heard from all its children, each in `p`, and is
/// no worse than any of them.
pub open spec fn heard_every(m: Map<u64, StateStats>, p: Set<u64>, k: u64) -> bool {
    &&& count_in(child_keys(k), p) == child_keys(k).len()
    &&& forall|j: int|
        0 <= j < child_keys(k).len() ==> oc(m, k) >= child_challenger(
            oc(m, #[trigger] child_keys(k)[j]),
        )
}

/// Whether state `k` has won through a child in `p` that lost: its best
/// outcome is what that child gives.
pub open spec fn won_through(m: Map<u64, StateStats>, p: Set<u64>, k: u64) -> bool {
    exists|j: int|
        0 <= j < child_keys(k).len() && p.contains(#[trigger] child_keys(k)[j]) && oc(
            m,
            child_keys(k)[j],
        ) < 0 && oc(m, k) == child_challenger(oc(m, child_keys(k)[j]))
}

/// What a nonterminal state with children has heard.
pub open spec fn node_heard(m: Map<u64, StateStats>, p: Set<u64>, k: u64) -> bool {
    state_terminality(k) == Terminality::Nonterminal && child_keys(k).len() > 0 ==> if rc(m, k)
        > 0 {
        heard_some(m, p, k)
    } else {
        heard_every(m, p, k) || won_through(m, p, k)
    }
}

/// The state of the solver: the map `m` grown from `m0`, the reported
/// states `p`, and the queue `q` of settled states yet to report, each
/// once.
pub closed spec fn solver_state(
    m0: Map<u64, StateStats>,
    m: Map<u64, StateStats>,
    p: Set<u64>,
    q: Seq<(State, Outcome)>,
) -> bool {
    &&& map_reachable(m0)
    &&& stats_advanced(m0, m)
    &&& forall|k: u64| #[trigger] p.contains(k) ==> m.contains_key(k) && settled_in(m, k)
    &&& forall|j: int|
        0 <= j < q.len() ==> m.contains_key((#[trigger] q[j]).0.0) && settled_in(m, q[j].0.0)
            && !p.contains(q[j].0.0) && oc(m, q[j].0.0) == q[j].1.0
    &&& forall|j1: int, j2: int|
        0 <= j1 < j2 < q.len() ==> (#[trigger] q[j1]).0.0 != (#[trigger] q[j2]).0.0
    &&& forall|k: u64|
        #[trigger] m.contains_key(k) && settled_in(m, k) ==> p.contains(k) || exists|j: int|
            0 <= j < q.len() && q[j].0.0 == k
    &&& forall|k: u64| #[trigger] m.contains_key(k) ==> node_heard(m, p, k)
}

/// What solving a map of all reachable states achieves. For every
/// nonterminal state with children: while it has children to hear from,
/// their number is that of its unsettled children, one of which it waits
/// on, none of its settled children lost, and it is no worse than any of
/// them; once settled, either all its children are settled and it is no
/// worse than any of them, or it won through a settled child that lost,
/// with the outcome that child gives.
pub open spec fn map_solved(m: Map<u64, StateStats>) -> bool {
    forall|k: u64|
        #[trigger] m.contains_key(k) && state_terminality(k) == Terminality::Nonterminal
            && child_keys(k).len() > 0 ==> if rc(m, k) > 0 {
            &&& rc(m, k) + count_in(child_keys(k), settled_keys(m)) == child_keys(k).len()
            &&& exists|j: int|
                0 <= j < child_keys(k).len() && !settled_in(m, #[trigger] child_keys(k)[j])
            &&& forall|j: int|
                0 <= j < child_keys(k).len() && settled_in(m, #[trigger] child_keys(k)[j]) ==> oc(
                    m,
                    child_keys(k)[j],
                ) >= 0 && oc(m, k) >= child_challenger(oc(m, child_keys(k)[j]))
        } else {
            ||| forall|j: int|
                0 <= j < child_keys(k).len() ==> settled_in(m, #[trigger] child_keys(k)[j]) && oc(
                    m,
                    k,
                ) >= child_challenger(oc(m, child_keys(k)[j]))
            ||| exists|j: int|
                0 <= j < child_keys(k).len() && settled_in(m, #[trigger] child_keys(k)[j]) && oc(
                    m,
                    child_keys(k)[j],
                ) < 0 && oc(m, k) == child_challenger(oc(m, child_keys(k)[j]))
        }
}

/// A settled state of the map has nothing left to hear from, so a report
/// to another state leaves its stats as they are.
proof fn lemma_settled_kept(
    m0: Map<u64, StateStats>,
    m: Map<u64, StateStats>,
    m2: Map<u64, StateStats>,
    c: u64,
    x: u64,
)
    requires
        map_reachable(m0),
        stats_advanced(m0, m),
        m.contains_key(x),
        settled_in(m, x),
        forall|y: u64|
            #[trigger] m2.contains_key(y) ==> if parent_keys(c).contains(y) && rc(m, y) > 0 {
                heard_update(m[y].0, m2[y].0, oc(m, c))
            } else {
                m2[y] == m[y]
            },
        m2.dom() == m.dom(),
    ensures
        rc(m, x) == 0,
        m2[x] == m[x],
{
    assert(m0.contains_key(x));
    crate::state_stats::lemma_stats_of(0, 201);
    crate::state_stats::lemma_stats_of(0, -201);
    assert(m2.contains_key(x));
}

/// A report of settled state `c` to its parents keeps what state `k` has
/// heard, with `c` now among the reported states.
#[verifier::spinoff_prover]
proof fn lemma_step_key(
    m0: Map<u64, StateStats>,
    m: Map<u64, StateStats>,
    m2: Map<u64, StateStats>,
    p: Set<u64>,
    c: u64,
    k: u64,
)
    requires
        map_reachable(m0),
        m.dom() == m0.dom(),
        m2.dom() == m.dom(),
        stats_advanced(m0, m),
        forall|x: u64| #[trigger] p.contains(x) ==> m.contains_key(x) && settled_in(m, x),
        m.contains_key(c),
        settled_in(m, c),
        !p.contains(c),
        forall|y: u64|
            #[trigger] m2.contains_key(y) ==> if parent_keys(c).contains(y) && rc(m, y) > 0 {
                heard_update(m[y].0, m2[y].0, oc(m, c))
            } else {
                m2[y] == m[y]
            },
        m.contains_key(k),
        node_heard(m, p, k),
    ensures
        node_heard(m2, p.insert(c), k),
{
    let p2 = p.insert(c);
    if state_terminality(k) == Terminality::Nonterminal && child_keys(k).len() > 0 {
        let ck = child_keys(k);
        assert(m0.contains_key(k) && m0.contains_key(c));
        lemma_child_keys(k);
        lemma_key_consistency(k, c);
        let isp = ck.contains(c);
        crate::retrograde::lemma_count_in_insert(ck, p, c);
        lemma_settled_kept(m0, m, m2, c, c);
        assert forall|j: int| 0 <= j < ck.len() && p2.contains(#[trigger] ck[j]) implies m2[ck[j]]
            == m[ck[j]] by {
            if ck[j] != c {
                lemma_settled_kept(m0, m, m2, c, ck[j]);
            }
        }
        let o = oc(m, c);
        assert(m2.contains_key(k));
        if rc(m, k) > 0 && isp {
            assert(heard_update(m[k].0, m2[k].0, o));
            let jc = choose|jc: int| 0 <= jc < ck.len() && ck[jc] == c;
            if o < 0 {
                assert(won_through(m2, p2, k)) by {
                    assert(p2.contains(ck[jc]));
                }
            } else {
                crate::retrograde::lemma_count_in_bounds(ck, p2);
                if rc(m2, k) == 0 {
                    assert forall|j: int| 0 <= j < ck.len() implies oc(m2, k) >= child_challenger(
                        oc(m2, #[trigger] ck[j]),
                    ) by {
                        assert(p2.contains(ck[j]));
                        if ck[j] != c {
                            assert(p.contains(ck[j]));
                        }
                    }
                    assert(heard_every(m2, p2, k));
                } else {
                    assert forall|j: int|
                        0 <= j < ck.len() && p2.contains(#[trigger] ck[j]) implies oc(m2, ck[j]) >= 0
                        && oc(m2, k) >= child_challenger(oc(m2, ck[j])) by {
                        if ck[j] != c {
                            assert(p.contains(ck[j]));
                        }
                    }
                    assert(heard_some(m2, p2, k));
                }
            }
        } else if rc(m, k) > 0 {
            assert(m2[k] == m[k]);
            assert forall|j: int|
                0 <= j < ck.len() && p2.contains(#[trigger] ck[j]) implies oc(m2, ck[j]) >= 0 && oc(
                m2,
                k,
            ) >= child_challenger(oc(m2, ck[j])) by {
                assert(ck[j] != c);
                assert(p.contains(ck[j]));
            }
            assert(heard_some(m2, p2, k));
        } else {
            assert(m2[k] == m[k]);
            if heard_every(m, p, k) {
                crate::retrograde::lemma_count_in_bounds(ck, p);
                if isp {
                    let jc = choose|jc: int| 0 <= jc < ck.len() && ck[jc] == c;
                    assert(p.contains(ck[jc]));
                }
                assert forall|j: int| 0 <= j < ck.len() implies oc(m2, k) >= child_challenger(
                    oc(m2, #[trigger] ck[j]),
                ) by {
                    assert(p.contains(ck[j]));
                }
                assert(heard_every(m2, p2, k));
            } else {
                let j = choose|j: int|
                    0 <= j < ck.len() && p.contains(#[trigger] ck[j]) && oc(m, ck[j]) < 0 && oc(m, k)
                        == child_challenger(oc(m, ck[j]));
                assert(p2.contains(ck[j]));
                assert(won_through(m2, p2, k));
            }
        }
    }
}

/// Reporting the state at the front of the queue to its parents, which
/// queues the parents it settles, keeps the state of the solver.
#[verifier::spinoff_prover]
pub proof fn lemma_solver_step(
    m0: Map<u64, StateStats>,
    m: Map<u64, StateStats>,
    m2: Map<u64, StateStats>,
    p: Set<u64>,
    q: Seq<(State, Outcome)>,
    q2: Seq<(State, Outcome)>,
)
    requires
        solver_state(m0, m, p, q),
        q.len() > 0,
        m2.dom() == m.dom(),
        stats_advanced(m, m2),
        parent_keys(q[0].0.0).no_duplicates() ==> forall|k: u64| #[trigger]
            m2.contains_key(k) ==> if parent_keys(q[0].0.0).contains(k) && stats_report_count(
                m[k].0,
            ) > 0 {
                heard_update(m[k].0, m2[k].0, q[0].1.0 as int)
            } else {
                m2[k] == m[k]
            },
        q2.len() >= q.len() - 1,
        forall|j: int| 0 <= j < q.len() - 1 ==> #[trigger] q2[j] == q[j + 1],
        forall|j: int|
            q.len() - 1 <= j < q2.len() ==> parent_keys(q[0].0.0).contains((#[trigger] q2[j]).0.0)
                && stats_report_count(m[q2[j].0.0].0) > 0,
        parent_keys(q[0].0.0).no_duplicates() ==> forall|j1: int, j2: int|
            q.len() - 1 <= j1 < j2 < q2.len() ==> (#[trigger] q2[j1]).0.0 != (#[trigger] q2[j2]).0.0,
        crate::stat_solver::reports_settled(m2, q2),
        forall|k: u64|
            #[trigger] m2.contains_key(k) && stats_report_count(m[k].0) > 0 && stats_report_count(
                m2[k].0,
            ) == 0 ==> exists|j: int| q.len() - 1 <= j < q2.len() && q2[j].0.0 == k,
    ensures
        solver_state(m0, m2, p.insert(q[0].0.0), q2),
{
    let c = q[0].0.0;
    let p2 = p.insert(c);
    assert(m.contains_key(c) && settled_in(m, c) && !p.contains(c));
    assert(m0.contains_key(c));
    lemma_parent_keys_unique(c);
    assert forall|k: u64| #[trigger] m2.contains_key(k) implies if parent_keys(c).contains(k) && rc(
        m,
        k,
    ) > 0 {
        heard_update(m[k].0, m2[k].0, oc(m, c))
    } else {
        m2[k] == m[k]
    } by {}
    assert(stats_advanced(m0, m2)) by {
        assert forall|k: u64| #[trigger] m2.contains_key(k) implies {
            &&& stats_report_count(m2[k].0) <= stats_report_count(m0[k].0)
            &&& stats_report_count(m0[k].0) == 0 ==> m2[k] == m0[k]
            &&& stats_outcome(m2[k].0) >= stats_outcome(m0[k].0)
        } by {
            assert(m.contains_key(k));
        }
    }
    assert forall|x: u64| #[trigger] p2.contains(x) implies m2.contains_key(x) && settled_in(m2, x) by {
        lemma_settled_kept(m0, m, m2, c, x);
    }
    assert forall|j: int| 0 <= j < q2.len() implies m2.contains_key((#[trigger] q2[j]).0.0)
        && settled_in(m2, q2[j].0.0) && !p2.contains(q2[j].0.0) && oc(m2, q2[j].0.0) == q2[j].1.0 by {
        let x = q2[j].0.0;
        if j < q.len() - 1 {
            assert(q2[j] == q[j + 1]);
            assert(q[0].0.0 != q[j + 1].0.0);
            lemma_settled_kept(m0, m, m2, c, x);
        } else {
            assert(m0.contains_key(x));
            lemma_key_consistency(x, c);
            assert(!settled_in(m, x));
        }
    }
    assert forall|j1: int, j2: int| 0 <= j1 < j2 < q2.len() implies (#[trigger] q2[j1]).0.0 != (
    #[trigger] q2[j2]).0.0 by {
        if j2 < q.len() - 1 {
            assert(q2[j1] == q[j1 + 1]);
            assert(q2[j2] == q[j2 + 1]);
        } else if j1 < q.len() - 1 {
            assert(q2[j1] == q[j1 + 1]);
            let x = q2[j2].0.0;
            assert(m0.contains_key(x));
            lemma_key_consistency(x, c);
            assert(settled_in(m, q[j1 + 1].0.0));
        }
    }
    assert forall|k: u64| #[trigger] m2.contains_key(k) && settled_in(m2, k) implies p2.contains(k)
        || exists|j: int| 0 <= j < q2.len() && q2[j].0.0 == k by {
        assert(m.contains_key(k) && m0.contains_key(k));
        if settled_in(m, k) {
            if !p.contains(k) {
                let j = choose|j: int| 0 <= j < q.len() && q[j].0.0 == k;
                if j > 0 {
                    assert(q2[j - 1] == q[j]);
                }
            }
        } else {
            assert(rc(m, k) > 0);
        }
    }
    assert forall|k: u64| #[trigger] m2.contains_key(k) implies node_heard(m2, p2, k) by {
        assert(m.contains_key(k));
        lemma_step_key(m0, m, m2, p, c, k);
    }
}

/// Filtering keeps keys in strictly ascending order.
proof fn lemma_filter_keys_ascending(
    e: Seq<(State, StateStats)>,
    pred: spec_fn((State, StateStats)) -> bool,
)
    requires
        forall|i: int, j: int| 0 <= i < j < e.len() ==> e[i].0.0 < e[j].0.0,
    ensures
        forall|i: int, j: int|
            0 <= i < j < e.filter(pred).len() ==> e.filter(pred)[i].0.0 < e.filter(pred)[j].0.0,
    decreases e.len(),
{
    reveal(Seq::filter);
    if e.len() > 0 {
        let rest = e.drop_last();
        lemma_filter_keys_ascending(rest, pred);
        let f = rest.filter(pred);
        if pred(e.last()) {
            assert(e.filter(pred) == f.push(e.last()));
            assert forall|i: int| 0 <= i < f.len() implies f[i].0.0 < e.last().0.0 by {
                assert(f.contains(f[i]));
                rest.lemma_filter_contains_rev(pred, f[i]);
                let a = choose|a: int| 0 <= a < rest.len() && rest[a] == f[i];
                assert(e[a] == f[i]);
            }
        } else {
            assert(e.filter(pred) == f);
        }
    }
}

/// Before any report, with the terminal states queued in ascending order
/// of key, nothing is reported and the solver's state holds.
pub proof fn lemma_solver_start(m: Map<u64, StateStats>, e: Seq<(State, StateStats)>)
    requires
        map_reachable(m),
        forall|i: int, j: int| 0 <= i < j < e.len() ==> e[i].0.0 < e[j].0.0,
        forall|i: int|
            0 <= i < e.len() ==> m.contains_key(#[trigger] e[i].0.0) && m[e[i].0.0] == e[i].1,
        forall|k: u64| #[trigger] m.contains_key(k) ==> exists|i: int| 0 <= i < e.len() && e[i].0.0 == k,
    ensures
        solver_state(m, m, Set::empty(), crate::stat_solver::terminal_reports(e)),
{
    let pred = |x: (State, StateStats)| state_terminality(x.0.0) != Terminality::Nonterminal;
    let f = e.filter(pred);
    let q = crate::stat_solver::terminal_reports(e);
    assert(q == f.map_values(|x: (State, StateStats)| crate::stat_solver::terminal_report(x)));
    lemma_filter_keys_ascending(e, pred);
    crate::state_stats::lemma_stats_of(0, 201);
    crate::state_stats::lemma_stats_of(0, -201);
    assert(stats_advanced(m, m));
    assert forall|j: int| 0 <= j < q.len() implies m.contains_key((#[trigger] q[j]).0.0) && settled_in(
        m,
        q[j].0.0,
    ) && !Set::<u64>::empty().contains(q[j].0.0) && oc(m, q[j].0.0) == q[j].1.0 by {
        assert(f.contains(f[j]));
        e.lemma_filter_contains_rev(pred, f[j]);
        let i = choose|i: int| 0 <= i < e.len() && e[i] == f[j];
        assert(m.contains_key(e[i].0.0));
    }
    assert forall|j1: int, j2: int| 0 <= j1 < j2 < q.len() implies (#[trigger] q[j1]).0.0 != (
    #[trigger] q[j2]).0.0 by {
        assert(f[j1].0.0 < f[j2].0.0);
    }
    assert forall|k: u64| #[trigger] m.contains_key(k) && settled_in(m, k) implies Set::<
        u64,
    >::empty().contains(k) || exists|j: int| 0 <= j < q.len() && q[j].0.0 == k by {
        let x = key_node(k);
        if state_terminality(k) == Terminality::Nonterminal {
            lemma_child_keys(k);
            crate::children::lemma_children_len(x);
            crate::state_stats::lemma_stats_of(children_of(x).len() as u16, -201);
        } else {
            let i = choose|i: int| 0 <= i < e.len() && e[i].0.0 == k;
            e.lemma_filter_contains(pred, i);
            let j = choose|j: int| 0 <= j < f.len() && f[j] == e[i];
            assert(q[j].0.0 == k);
        }
    }
    assert forall|k: u64| #[trigger] m.contains_key(k) implies node_heard(m, Set::empty(), k) by {
        if state_terminality(k) == Terminality::Nonterminal && child_keys(k).len() > 0 {
            let x = key_node(k);
            lemma_child_keys(k);
            crate::children::lemma_children_len(x);
            crate::state_stats::lemma_stats_of(children_of(x).len() as u16, -201);
            crate::retrograde::lemma_count_in_empty(child_keys(k));
        }
    }
}

/// Once the queue is empty, the reported states are the settled ones and
/// the map is solved.
pub proof fn lemma_solver_done(m0: Map<u64, StateStats>, m: Map<u64, StateStats>, p: Set<u64>)
    requires
        solver_state(m0, m, p, Seq::empty()),
    ensures
        map_solved(m),
{
    assert(p =~= settled_keys(m));
    assert forall|k: u64|
        #[trigger] m.contains_key(k) && state_terminality(k) == Terminality::Nonterminal
            && child_keys(k).len() > 0 implies if rc(m, k) > 0 {
        &&& rc(m, k) + count_in(child_keys(k), settled_keys(m)) == child_keys(k).len()
        &&& exists|j: int| 0 <= j < child_keys(k).len() && !settled_in(m, #[trigger] child_keys(k)[j])
        &&& forall|j: int|
            0 <= j < child_keys(k).len() && settled_in(m, #[trigger] child_keys(k)[j]) ==> oc(
                m,
                child_keys(k)[j],
            ) >= 0 && oc(m, k) >= child_challenger(oc(m, child_keys(k)[j]))
    } else {
        ||| forall|j: int|
            0 <= j < child_keys(k).len() ==> settled_in(m, #[trigger] child_keys(k)[j]) && oc(m, k)
                >= child_challenger(oc(m, child_keys(k)[j]))
        ||| exists|j: int|
            0 <= j < child_keys(k).len() && settled_in(m, #[trigger] child_keys(k)[j]) && oc(
                m,
                child_keys(k)[j],
            ) < 0 && oc(m, k) == child_challenger(oc(m, child_keys(k)[j]))
    } by {
        let ck = child_keys(k);
        assert(node_heard(m, p, k));
        assert(m0.contains_key(k));
        crate::retrograde::lemma_count_in_bounds(ck, p);
        assert forall|j: int| 0 <= j < ck.len() implies m.contains_key(#[trigger] ck[j]) by {
            assert(m0.contains_key(ck[j]));
        }
        if rc(m, k) > 0 {
            assert(count_in(ck, p) < ck.len());
            let j = choose|j: int| 0 <= j < ck.len() && !p.contains(#[trigger] ck[j]);
            assert(!settled_keys(m).contains(ck[j]));
        } else if heard_every(m, p, k) {
            assert forall|j: int| 0 <= j < ck.len() implies settled_in(m, #[trigger] ck[j]) by {
                assert(p.contains(ck[j]));
            }
        } else {
            let j = choose|j: int|
                0 <= j < ck.len() && p.contains(#[trigger] ck[j]) && oc(m, ck[j]) < 0 && oc(m, k)
                    == child_challenger(oc(m, ck[j]));
            assert(settled_in(m, ck[j]));
        }
    }
}

/// A map from exactly the states reachable from a valid key, each mapped
/// to the stats it starts with, holds all reachable states (see
/// `map_reachable`): what `initial_stat_map` makes of what
/// `stat_solver::reachable_states` gives.
pub proof fn lemma_reachable_map(k0: u64, m: Map<u64, StateStats>)
    requires
        valid_key(k0),
        forall|k: u64| m.contains_key(k) <==> reaches(k0, k),
        forall|k: u64| #[trigger] m.contains_key(k) ==> m[k].0 == guessed_stats(k),
    ensures
        map_reachable(m),
{
    assert forall|k: u64| #[trigger] m.contains_key(k) implies valid_key(k) by {
        assert(reaches(k0, k));
        let w = choose|w: Seq<u64>| w.len() > 0 && w[0] == k0 && w.last() == k && #[trigger] is_walk(w);
        crate::retrograde::lemma_walk_valid(w);
    }
    assert forall|k: u64, j: int|
        #![trigger m.contains_key(k), child_keys(k)[j]]
        m.contains_key(k) && 0 <= j < child_keys(k).len() implies m.contains_key(child_keys(k)[j]) by {
        assert(child_keys(k).contains(child_keys(k)[j]));
        crate::forward_pass::lemma_extend_reach(k0, k, child_keys(k)[j]);
    }
}

/// The states among the first `i` of `ord`.
pub open spec fn prefix_set(ord: Seq<u64>, i: int) -> Set<u64> {
    Set::new(|x: u64| exists|a: int| 0 <= a < i && ord[a] == x)
}

/// Whether every child of state `k` is in `s`, none better for `k` than
/// its best known outcome.
pub open spec fn children_in(m: Map<u64, StateStats>, s: Set<u64>, k: u64) -> bool {
    forall|j: int|
        0 <= j < child_keys(k).len() ==> s.contains(#[trigger] child_keys(k)[j]) && oc(m, k)
            >= child_challenger(oc(m, child_keys(k)[j]))
}

/// Whether the settled state `k` is settled on account of the states in
/// `s`: it is terminal, or it has heard from all its children, all in `s`,
/// or it won through a child in `s` that lost.
pub open spec fn justified(m: Map<u64, StateStats>, s: Set<u64>, k: u64) -> bool {
    ||| state_terminality(k) != Terminality::Nonterminal
    ||| child_keys(k).len() > 0 && (children_in(m, s, k) || won_through(m, s, k))
}

/// Whether `ord` lists every settled state of `m` once, each settled on
/// account of the states listed before it: no state is settled on account
/// of itself, so a set of states that only lead to each other stays
/// unsettled.
pub open spec fn settled_in_order(m: Map<u64, StateStats>, ord: Seq<u64>) -> bool {
    &&& ord.no_duplicates()
    &&& forall|k: u64| #[trigger] ord.contains(k) <==> m.contains_key(k) && settled_in(m, k)
    &&& forall|i: int| 0 <= i < ord.len() ==> justified(m, prefix_set(ord, i), #[trigger] ord[i])
}

/// The order in which the solver reports: `ord` lists the reported states
/// `p` in the order they reported, each on account of those before it, and
/// every queued state is settled on account of the reported ones.
pub closed spec fn order_state(
    m: Map<u64, StateStats>,
    ord: Seq<u64>,
    p: Set<u64>,
    q: Seq<(State, Outcome)>,
) -> bool {
    &&& ord.no_duplicates()
    &&& forall|k: u64| #[trigger] p.contains(k) <==> ord.contains(k)
    &&& forall|i: int| 0 <= i < ord.len() ==> justified(m, prefix_set(ord, i), #[trigger] ord[i])
    &&& forall|j: int| 0 <= j < q.len() ==> justified(m, p, (#[trigger] q[j]).0.0)
}

/// Being settled on account of reported states survives a report, which
/// leaves the stats of settled states as they are.
proof fn lemma_justified_kept(
    m0: Map<u64, StateStats>,
    m: Map<u64, StateStats>,
    m2: Map<u64, StateStats>,
    p: Set<u64>,
    c: u64,
    s: Set<u64>,
    s2: Set<u64>,
    k: u64,
)
    requires
        map_reachable(m0),
        stats_advanced(m0, m),
        m2.dom() == m.dom(),
        forall|x: u64| #[trigger] p.contains(x) ==> m.contains_key(x) && settled_in(m, x),
        forall|x: u64| s.contains(x) ==> p.contains(x),
        forall|x: u64| s.contains(x) ==> s2.contains(x),
        m.contains_key(k),
        settled_in(m, k),
        justified(m, s, k),
        forall|y: u64|
            #[trigger] m2.contains_key(y) ==> if parent_keys(c).contains(y) && rc(m, y) > 0 {
                heard_update(m[y].0, m2[y].0, oc(m, c))
            } else {
                m2[y] == m[y]
            },
    ensures
        justified(m2, s2, k),
{
    lemma_settled_kept(m0, m, m2, c, k);
    if state_terminality(k) == Terminality::Nonterminal {
        let ck = child_keys(k);
        if children_in(m, s, k) {
            assert forall|j: int| 0 <= j < ck.len() implies s2.contains(#[trigger] ck[j]) && oc(m2, k)
                >= child_challenger(oc(m2, ck[j])) by {
                assert(p.contains(ck[j]));
                lemma_settled_kept(m0, m, m2, c, ck[j]);
            }
        } else {
            let j = choose|j: int|
                0 <= j < ck.len() && s.contains(#[trigger] ck[j]) && oc(m, ck[j]) < 0 && oc(m, k)
                    == child_challenger(oc(m, ck[j]));
            assert(p.contains(ck[j]));
            lemma_settled_kept(m0, m, m2, c, ck[j]);
            assert(s2.contains(ck[j]));
            assert(won_through(m2, s2, k));
        }
    }
}

/// Before any report, nothing is ordered and the queued terminal states
/// need nothing.
pub proof fn lemma_order_start(m: Map<u64, StateStats>, e: Seq<(State, StateStats)>)
    ensures
        order_state(m, Seq::empty(), Set::empty(), crate::stat_solver::terminal_reports(e)),
{
    let pred = |x: (State, StateStats)| state_terminality(x.0.0) != Terminality::Nonterminal;
    let f = e.filter(pred);
    let q = crate::stat_solver::terminal_reports(e);
    assert(q == f.map_values(|x: (State, StateStats)| crate::stat_solver::terminal_report(x)));
    assert forall|j: int| 0 <= j < q.len() implies justified(m, Set::empty(), (#[trigger] q[j]).0.0) by {
        assert(f.contains(f[j]));
        e.lemma_filter_contains_rev(pred, f[j]);
    }
}

/// A report keeps the order: the reporting state joins it, settled on
/// account of those before it, and the states it settles are settled on
/// account of the reported ones.
#[verifier::spinoff_prover]
pub proof fn lemma_order_step(
    m0: Map<u64, StateStats>,
    m: Map<u64, StateStats>,
    m2: Map<u64, StateStats>,
    ord: Seq<u64>,
    p: Set<u64>,
    q: Seq<(State, Outcome)>,
    q2: Seq<(State, Outcome)>,
)
    requires
        solver_state(m0, m, p, q),
        order_state(m, ord, p, q),
        solver_state(m0, m2, p.insert(q[0].0.0), q2),
        q.len() > 0,
        m2.dom() == m.dom(),
        parent_keys(q[0].0.0).no_duplicates() ==> forall|k: u64| #[trigger]
            m2.contains_key(k) ==> if parent_keys(q[0].0.0).contains(k) && stats_report_count(
                m[k].0,
            ) > 0 {
                heard_update(m[k].0, m2[k].0, q[0].1.0 as int)
            } else {
                m2[k] == m[k]
            },
        forall|j: int| 0 <= j < q.len() - 1 ==> #[trigger] q2[j] == q[j + 1],
        forall|j: int|
            q.len() - 1 <= j < q2.len() ==> parent_keys(q[0].0.0).contains((#[trigger] q2[j]).0.0)
                && stats_report_count(m[q2[j].0.0].0) > 0,
    ensures
        order_state(m2, ord.push(q[0].0.0), p.insert(q[0].0.0), q2),
{
    let c = q[0].0.0;
    let p2 = p.insert(c);
    let ord2 = ord.push(c);
    assert(m0.contains_key(c));
    lemma_parent_keys_unique(c);
    assert forall|y: u64| #[trigger] m2.contains_key(y) implies if parent_keys(c).contains(y) && rc(
        m,
        y,
    ) > 0 {
        heard_update(m[y].0, m2[y].0, oc(m, c))
    } else {
        m2[y] == m[y]
    } by {}
    assert(!ord.contains(c));
    assert forall|k: u64| #[trigger] p2.contains(k) <==> ord2.contains(k) by {
        if ord2.contains(k) && k != c {
            let a = choose|a: int| 0 <= a < ord2.len() && ord2[a] == k;
            assert(ord[a] == k);
        }
        if ord.contains(k) {
            let a = choose|a: int| 0 <= a < ord.len() && ord[a] == k;
            assert(ord2[a] == k);
        }
        if k == c {
            assert(ord2[ord.len() as int] == c);
        }
    }
    assert forall|i: int| 0 <= i < ord2.len() implies justified(
        m2,
        prefix_set(ord2, i),
        #[trigger] ord2[i],
    ) by {
        assert forall|x: u64| prefix_set(ord2, i).contains(x) == prefix_set(ord, i).contains(x) by {
            if prefix_set(ord2, i).contains(x) {
                let a = choose|a: int| 0 <= a < i && ord2[a] == x;
                assert(ord[a] == x);
            }
            if prefix_set(ord, i).contains(x) {
                let a = choose|a: int| 0 <= a < i && ord[a] == x;
                assert(ord2[a] == x);
            }
        }
        assert(prefix_set(ord2, i) =~= prefix_set(ord, i));
        if i < ord.len() {
            assert(ord2[i] == ord[i]);
            assert(p.contains(ord[i]));
            assert forall|x: u64| prefix_set(ord, i).contains(x) implies p.contains(x) by {
                let a = choose|a: int| 0 <= a < i && ord[a] == x;
            }
            lemma_justified_kept(m0, m, m2, p, c, prefix_set(ord, i), prefix_set(ord, i), ord[i]);
        } else {
            assert(prefix_set(ord, i) =~= p) by {
                assert forall|x: u64| p.contains(x) implies prefix_set(ord, i).contains(x) by {
                    let a = choose|a: int| 0 <= a < ord.len() && ord[a] == x;
                }
            }
            assert(justified(m, p, q[0].0.0));
            lemma_justified_kept(m0, m, m2, p, c, p, p, c);
        }
    }
    assert forall|j: int| 0 <= j < q2.len() implies justified(m2, p2, (#[trigger] q2[j]).0.0) by {
        let x = q2[j].0.0;
        if j < q.len() - 1 {
            assert(q2[j] == q[j + 1]);
            assert(justified(m, p, q[j + 1].0.0));
            lemma_justified_kept(m0, m, m2, p, c, p, p2, x);
        } else {
            assert(m2.contains_key(x) && settled_in(m2, x));
            assert(m0.contains_key(x));
            lemma_key_consistency(x, c);
            assert(node_heard(m2, p2, x));
            let ck = child_keys(x);
            if heard_every(m2, p2, x) {
                crate::retrograde::lemma_count_in_bounds(ck, p2);
            }
        }
    }
}

/// Once the queue is empty, the reported states, in the order they
/// reported, list the settled states, each on account of those before it.
pub proof fn lemma_order_done(
    m0: Map<u64, StateStats>,
    m: Map<u64, StateStats>,
    ord: Seq<u64>,
    p: Set<u64>,
)
    requires
        solver_state(m0, m, p, Seq::empty()),
        order_state(m, ord, p, Seq::empty()),
    ensures
        settled_in_order(m, ord),
{
    assert forall|k: u64| #[trigger] ord.contains(k) <==> m.contains_key(k) && settled_in(m, k) by {
        assert(p.contains(k) == ord.contains(k));
        if m.contains_key(k) && settled_in(m, k) {
            assert(p.contains(k));
        }
    }
}

/// How many plies outcome `o` is away: a win or loss in that many plies,
/// and a draw as far as can be.
pub open spec fn span(o: int) -> int {
    if o < 0 {
        201 + o
    } else if o > 0 {
        201 - o
    } else {
        201
    }
}

/// What an outcome seen from the parent is away: one ply more, up to the
/// most there is.
proof fn lemma_challenger_span(o: int)
    requires
        -201 <= o <= 201,
    ensures
        span(child_challenger(o)) == if span(o) + 1 < 201 {
            span(o) + 1
        } else {
            201
        },
        -200 <= child_challenger(o) <= 200,
        o < 0 ==> child_challenger(o) >= 0,
        o >= 0 ==> child_challenger(o) <= 0,
        0 <= span(o) <= 201,
{
}

/// Whether every settled child of every settled state is no better for it
/// than its best known outcome: a state won through a losing child wins in
/// as few plies as any of its losing children allows.
pub open spec fn settled_optimally(m: Map<u64, StateStats>) -> bool {
    forall|k: u64, j: int|
        m.contains_key(k) && state_terminality(k) == Terminality::Nonterminal && rc(m, k) == 0 && 0
            <= j < child_keys(k).len() && settled_in(m, #[trigger] child_keys(k)[j]) ==> oc(m, k)
            >= child_challenger(oc(m, child_keys(k)[j]))
}

/// The queue in order of plies: the states queue and settle a ply at a
/// time, from level `lvl` up, so that a state won through a losing child
/// heard first from the losing child that loses soonest.
pub closed spec fn level_state(
    m: Map<u64, StateStats>,
    p: Set<u64>,
    q: Seq<(State, Outcome)>,
    lvl: int,
) -> bool {
    &&& 0 <= lvl
    &&& forall|k: u64| #[trigger] m.contains_key(k) ==> -201 <= oc(m, k) <= 201
    &&& forall|j: int| 0 <= j < q.len() ==> lvl <= span((#[trigger] q[j]).1.0 as int) <= lvl + 1
    &&& forall|j1: int, j2: int|
        0 <= j1 < j2 < q.len() ==> span((#[trigger] q[j1]).1.0 as int) <= span(
            (#[trigger] q[j2]).1.0 as int,
        )
    &&& forall|k: u64|
        #[trigger] m.contains_key(k) && state_terminality(k) == Terminality::Nonterminal && rc(m, k)
            > 0 ==> span(oc(m, k)) <= lvl + 1
    &&& forall|k: u64|
        #[trigger] m.contains_key(k) && state_terminality(k) == Terminality::Nonterminal
            && child_keys(k).len() > 0 && rc(m, k) == 0 && !heard_every(m, p, k) ==> {
            &&& 0 <= oc(m, k)
            &&& span(oc(m, k)) <= lvl + 1
            &&& forall|j: int|
                0 <= j < child_keys(k).len() && p.contains(#[trigger] child_keys(k)[j]) ==> oc(m, k)
                    >= child_challenger(oc(m, child_keys(k)[j]))
        }
}

/// Before any report: the terminal states queued, all at level zero.
pub proof fn lemma_level_start(m: Map<u64, StateStats>, e: Seq<(State, StateStats)>)
    requires
        map_reachable(m),
    ensures
        level_state(m, Set::empty(), crate::stat_solver::terminal_reports(e), 0),
{
    let pred = |x: (State, StateStats)| state_terminality(x.0.0) != Terminality::Nonterminal;
    let f = e.filter(pred);
    let q = crate::stat_solver::terminal_reports(e);
    assert(q == f.map_values(|x: (State, StateStats)| crate::stat_solver::terminal_report(x)));
    assert forall|k: u64| #[trigger] m.contains_key(k) implies -201 <= oc(m, k) <= 201 && (
    state_terminality(k) == Terminality::Nonterminal ==> oc(m, k) == -201 && (child_keys(k).len()
        > 0 ==> rc(m, k) > 0)) by {
        let x = key_node(k);
        crate::state_stats::lemma_stats_of(0, 201);
        crate::state_stats::lemma_stats_of(0, -201);
        if state_terminality(k) == Terminality::Nonterminal {
            lemma_child_keys(k);
            crate::children::lemma_children_len(x);
            crate::state_stats::lemma_stats_of(children_of(x).len() as u16, -201);
        }
    }
}

/// Reporting the state at the front of the queue, at its level, keeps the
/// queue in order of plies.
#[verifier::spinoff_prover]
#[verifier::rlimit(30)]
pub proof fn lemma_level_step(
    m0: Map<u64, StateStats>,
    m: Map<u64, StateStats>,
    m2: Map<u64, StateStats>,
    p: Set<u64>,
    q: Seq<(State, Outcome)>,
    q2: Seq<(State, Outcome)>,
    lvl: int,
)
    requires
        solver_state(m0, m, p, q),
        level_state(m, p, q, lvl),
        solver_state(m0, m2, p.insert(q[0].0.0), q2),
        q.len() > 0,
        m2.dom() == m.dom(),
        parent_keys(q[0].0.0).no_duplicates() ==> forall|k: u64| #[trigger]
            m2.contains_key(k) ==> if parent_keys(q[0].0.0).contains(k) && stats_report_count(
                m[k].0,
            ) > 0 {
                heard_update(m[k].0, m2[k].0, q[0].1.0 as int)
            } else {
                m2[k] == m[k]
            },
        forall|j: int| 0 <= j < q.len() - 1 ==> #[trigger] q2[j] == q[j + 1],
        forall|j: int|
            q.len() - 1 <= j < q2.len() ==> parent_keys(q[0].0.0).contains((#[trigger] q2[j]).0.0)
                && stats_report_count(m[q2[j].0.0].0) > 0,
        crate::stat_solver::reports_settled(m2, q2),
    ensures
        level_state(m2, p.insert(q[0].0.0), q2, span(q[0].1.0 as int)),
{
    let c = q[0].0.0;
    let o = q[0].1.0 as int;
    let n = span(o);
    let p2 = p.insert(c);
    assert(m0.contains_key(c));
    assert(oc(m, c) == o);
    lemma_parent_keys_unique(c);
    lemma_challenger_span(o);
    let top = if n + 1 < 201 {
        n + 1
    } else {
        201
    };
    assert forall|y: u64| #[trigger] m2.contains_key(y) implies if parent_keys(c).contains(y) && rc(
        m,
        y,
    ) > 0 {
        heard_update(m[y].0, m2[y].0, o)
    } else {
        m2[y] == m[y]
    } by {}
    // Every updated state's outcome, and its distance.
    assert forall|k: u64| #[trigger] m2.contains_key(k) implies -201 <= oc(m2, k) <= 201 && (
    parent_keys(c).contains(k) && rc(m, k) > 0 ==> span(oc(m2, k)) == top && (o < 0 ==> oc(m2, k)
        == child_challenger(o))) by {
        assert(m.contains_key(k) && m0.contains_key(k));
        if parent_keys(c).contains(k) && rc(m, k) > 0 {
            lemma_key_consistency(k, c);
            assert(node_heard(m, p, k));
            lemma_challenger_span(oc(m, k));
        }
    }
    assert forall|j: int| 0 <= j < q2.len() implies n <= span((#[trigger] q2[j]).1.0 as int) <= n
        + 1 by {
        if j < q.len() - 1 {
            assert(q2[j] == q[j + 1]);
            assert(span(q[0].1.0 as int) <= span(q[j + 1].1.0 as int));
        } else {
            assert(m2.contains_key(q2[j].0.0));
        }
    }
    assert forall|j1: int, j2: int| 0 <= j1 < j2 < q2.len() implies span(
        (#[trigger] q2[j1]).1.0 as int,
    ) <= span((#[trigger] q2[j2]).1.0 as int) by {
        if j2 < q.len() - 1 {
            assert(q2[j1] == q[j1 + 1]);
            assert(q2[j2] == q[j2 + 1]);
        } else if j1 < q.len() - 1 {
            assert(q2[j1] == q[j1 + 1]);
            assert(m2.contains_key(q2[j2].0.0));
            assert(m.contains_key(q[j1 + 1].0.0));
            lemma_challenger_span(q[j1 + 1].1.0 as int);
        } else {
            assert(m2.contains_key(q2[j1].0.0));
            assert(m2.contains_key(q2[j2].0.0));
        }
    }
    assert forall|k: u64|
        #[trigger] m2.contains_key(k) && state_terminality(k) == Terminality::Nonterminal && rc(m2, k)
            > 0 implies span(oc(m2, k)) <= n + 1 by {
        assert(m.contains_key(k));
    }
    assert forall|k: u64|
        #[trigger] m2.contains_key(k) && state_terminality(k) == Terminality::Nonterminal
            && child_keys(k).len() > 0 && rc(m2, k) == 0 && !heard_every(m2, p2, k) implies {
        &&& 0 <= oc(m2, k)
        &&& span(oc(m2, k)) <= n + 1
        &&& forall|j: int|
            0 <= j < child_keys(k).len() && p2.contains(#[trigger] child_keys(k)[j]) ==> oc(m2, k)
                >= child_challenger(oc(m2, child_keys(k)[j]))
    } by {
        let ck = child_keys(k);
        assert(m.contains_key(k) && m0.contains_key(k));
        lemma_child_keys(k);
        lemma_key_consistency(k, c);
        assert(node_heard(m, p, k));
        lemma_settled_kept(m0, m, m2, c, c);
        assert forall|j: int| 0 <= j < ck.len() && p2.contains(#[trigger] ck[j]) implies m2[ck[j]]
            == m[ck[j]] by {
            if ck[j] != c {
                lemma_settled_kept(m0, m, m2, c, ck[j]);
            }
        }
        crate::retrograde::lemma_count_in_insert(ck, p, c);
        if rc(m, k) > 0 {
            // It settled now, so it heard from the reporting state.
            assert(parent_keys(c).contains(k));
            if o >= 0 {
                crate::retrograde::lemma_count_in_bounds(ck, p2);
                assert forall|j: int| 0 <= j < ck.len() implies oc(m2, k) >= child_challenger(
                    oc(m2, #[trigger] ck[j]),
                ) by {
                    assert(p2.contains(ck[j]));
                    if ck[j] != c {
                        assert(p.contains(ck[j]));
                    }
                }
                assert(heard_every(m2, p2, k));
            }
            assert forall|j: int| 0 <= j < ck.len() && p2.contains(#[trigger] ck[j]) implies oc(m2, k)
                >= child_challenger(oc(m2, ck[j])) by {
                if ck[j] != c {
                    assert(p.contains(ck[j]));
                    assert(oc(m, ck[j]) >= 0);
                    lemma_challenger_span(oc(m, ck[j]));
                }
            }
        } else {
            assert(m2[k] == m[k]);
            if heard_every(m, p, k) {
                crate::retrograde::lemma_count_in_bounds(ck, p);
                crate::retrograde::lemma_count_in_bounds(ck, p2);
                assert forall|j: int| 0 <= j < ck.len() implies oc(m2, k) >= child_challenger(
                    oc(m2, #[trigger] ck[j]),
                ) by {
                    assert(p.contains(ck[j]));
                }
                assert(heard_every(m2, p2, k));
            }
            assert forall|j: int| 0 <= j < ck.len() && p2.contains(#[trigger] ck[j]) implies oc(m2, k)
                >= child_challenger(oc(m2, ck[j])) by {
                if ck[j] == c {
                    lemma_challenger_span(o);
                    lemma_challenger_span(oc(m, k));
                }
            }
        }
    }
}

/// Once the queue is empty, every settled state is no worse than any of
/// its settled children.
pub proof fn lemma_level_done(
    m0: Map<u64, StateStats>,
    m: Map<u64, StateStats>,
    p: Set<u64>,
    lvl: int,
)
    requires
        solver_state(m0, m, p, Seq::empty()),
        level_state(m, p, Seq::empty(), lvl),
    ensures
        settled_optimally(m),
{
    assert forall|k: u64, j: int|
        m.contains_key(k) && state_terminality(k) == Terminality::Nonterminal && rc(m, k) == 0 && 0
            <= j < child_keys(k).len() && settled_in(m, #[trigger] child_keys(k)[j]) implies oc(m, k)
        >= child_challenger(oc(m, child_keys(k)[j])) by {
        let ck = child_keys(k);
        assert(m0.contains_key(k));
        assert(m0.contains_key(ck[j]));
        assert(m.contains_key(ck[j]));
        assert(p.contains(ck[j]));
        assert(node_heard(m, p, k));
    }
}

} // verus!
