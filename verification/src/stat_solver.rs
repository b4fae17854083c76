//! Solving the game over a map from states to state stats: collecting the
//! reachable states, guessing their stats, working back from the terminal
//! states, and picking the best child of each state.
use vstd::prelude::*;
use std::collections::VecDeque;
use crate::children::children_of;
use crate::best_child_map::{first_min_index, lemma_first_min_index};
use crate::forward_pass::{child_keys, is_walk, reaches};
use crate::node::Terminality;
use crate::outcome::{Outcome, Progress};
use crate::state::{Null, State, STATE_COUNT, is_state};
use crate::state_key_set::StateSet;
use crate::state_map::StateMap;
use crate::state_stats::{
    StateStats, as_states, guessed_stats, lemma_neighbours_are_states, parent_keys,
    state_terminality, stats_outcome, stats_report_count,
};

verus! {

/// Whether state `k` waits in the queue.
spec fn in_queue(q: Seq<State>, k: u64) -> bool {
    exists|j: int| 0 <= j < q.len() && q[j].0 == k
}

/// A set that holds `w[0]` and the children of each of its members holds the
/// end of walk `w`.
proof fn lemma_closed_set_holds_walk(s: Set<u64>, w: Seq<u64>)
    requires
        w.len() > 0,
        is_walk(w),
        s.contains(w[0]),
        forall|k: u64, j: int|
            #![trigger s.contains(k), child_keys(k)[j]]
            s.contains(k) && 0 <= j < child_keys(k).len() ==> s.contains(child_keys(k)[j]),
    ensures
        s.contains(w.last()),
    decreases w.len(),
{
    if w.len() > 1 {
        let v = w.drop_last();
        assert(is_walk(v)) by {
            assert forall|i: int| 0 <= i < v.len() - 1 implies #[trigger] child_keys(
                v[i],
            ).contains(v[i + 1]) by {
                assert(child_keys(w[i]).contains(w[i + 1]));
            }
        }
        lemma_closed_set_holds_walk(s, v);
        let n = w.len() - 2;
        assert(child_keys(w[n]).contains(w[n + 1]));
        let j = choose|j: int| 0 <= j < child_keys(w[n]).len() && child_keys(w[n])[j] == w[n + 1];
        assert(s.contains(child_keys(w[n])[j]));
    }
}

/// A walk to `k` followed by a step to a child of `k` is a walk.
proof fn lemma_extend_reach(from: u64, k: u64, c: u64)
    requires
        reaches(from, k),
        child_keys(k).contains(c),
    ensures
        reaches(from, c),
{
    let w = choose|w: Seq<u64>| w.len() > 0 && w[0] == from && w.last() == k && #[trigger] is_walk(w);
    let w2 = w.push(c);
    assert forall|i: int| 0 <= i < w2.len() - 1 implies #[trigger] child_keys(w2[i]).contains(
        w2[i + 1],
    ) by {
        if i < w.len() - 1 {
            assert(child_keys(w[i]).contains(w[i + 1]));
        }
    }
    assert(is_walk(w2));
}

/// The set of the states reachable from `initial_state` (see `reaches`).
/// `on_state_processed` is called with each state once its children are
/// queued, in the order the states are taken from the queue.
#[verifier::spinoff_prover]
#[verifier::rlimit(40)]
pub fn reachable_states(initial_state: State, mut on_state_processed: impl FnMut(State)) -> (r:
    StateSet)
    requires
        is_state(initial_state),
        forall|s: State| call_requires(on_state_processed, (s,)),
    ensures
        r.wf(),
        forall|k: u64| r@.contains(k) <==> reaches(initial_state.0, k),
{
    let ghost k0 = initial_state.0;
    let mut reachable = StateSet::empty();
    reachable.add(initial_state);
    let mut queue: VecDeque<State> = VecDeque::new();
    queue.push_back(initial_state);
    proof {
        let w = seq![k0];
        assert(is_walk(w));
        assert(reaches(k0, k0));
        assert(queue@[0].0 == k0);
        assert forall|k: u64| #[trigger] reachable@.contains(k) implies k == k0 && in_queue(
            queue@,
            k,
        ) by {
            assert(queue@[0].0 == k0);
        }
    }
    loop
        invariant
            forall|s: State| call_requires(on_state_processed, (s,)),
            reachable.wf(),
            reachable@.contains(k0),
            forall|k: u64| #[trigger] reachable@.contains(k) ==> reaches(k0, k),
            forall|j: int| 0 <= j < queue@.len() ==> reachable@.contains(#[trigger] queue@[j].0),
            forall|k: u64, j: int|
                #![trigger reachable@.contains(k), child_keys(k)[j]]
                reachable@.contains(k) && !in_queue(queue@, k) && 0 <= j < child_keys(k).len()
                    ==> reachable@.contains(child_keys(k)[j]),
        ensures
            queue@.len() == 0,
        decreases STATE_COUNT - reachable@.len(), queue@.len(),
    {
        proof {
            reachable.lemma_bounded();
        }
        let ghost q_before = queue@;
        let state = match queue.pop_front() {
            Some(s) => s,
            None => break,
        };
        let ghost k = state.0;
        let ghost q_after = queue@;
        proof {
            assert(q_before[0] == state);
            assert forall|k2: u64| k2 != k && in_queue(q_before, k2) implies in_queue(q_after, k2) by {
                let q = choose|q: int| 0 <= q < q_before.len() && q_before[q].0 == k2;
                assert(q > 0);
                assert(q_after[q - 1] == q_before[q]);
            }
        }
        assert(reachable@.contains(k));
        let children = state.children();
        proof {
            lemma_neighbours_are_states(k);
        }
        let ghost len0 = reachable@.len();
        let ghost cks = child_keys(k);
        let mut idx: usize = 0;
        while idx < children.len()
            invariant
                0 <= idx <= children@.len(),
                children@ == as_states(cks),
                cks == child_keys(k),
                forall|i: int| 0 <= i < cks.len() ==> #[trigger] cks[i] < STATE_COUNT,
                reachable.wf(),
                reachable@.finite(),
                reachable@.len() >= len0,
                queue@.len() - q_after.len() == reachable@.len() - len0,
                queue@.len() >= q_after.len(),
                reachable@.contains(k0),
                reachable@.contains(k),
                reaches(k0, k),
                forall|k2: u64| #[trigger] reachable@.contains(k2) ==> reaches(k0, k2),
                forall|j: int| 0 <= j < queue@.len() ==> reachable@.contains(#[trigger] queue@[j].0),
                forall|k2: u64| in_queue(q_after, k2) ==> #[trigger] in_queue(queue@, k2),
                forall|k2: u64, j: int|
                    #![trigger reachable@.contains(k2), child_keys(k2)[j]]
                    reachable@.contains(k2) && !in_queue(queue@, k2) && k2 != k && 0 <= j
                        < child_keys(k2).len() ==> reachable@.contains(child_keys(k2)[j]),
                forall|j: int| 0 <= j < idx ==> reachable@.contains(#[trigger] cks[j]),
            decreases children@.len() - idx,
        {
            let c = children[idx];
            proof {
                assert(c.0 == cks[idx as int]);
                assert(cks.contains(c.0));
                lemma_extend_reach(k0, k, c.0);
            }
            let ghost q0 = queue@;
            let ghost r0 = reachable@;
            let existed = reachable.add(c);
            if !existed.did_addend_already_exist {
                queue.push_back(c);
            }
            proof {
                assert forall|k2: u64| in_queue(q0, k2) implies #[trigger] in_queue(queue@, k2) by {
                    let q = choose|q: int| 0 <= q < q0.len() && q0[q].0 == k2;
                    assert(queue@[q] == q0[q]);
                }
                assert forall|k2: u64, j: int|
                    #![trigger reachable@.contains(k2), child_keys(k2)[j]]
                    reachable@.contains(k2) && !in_queue(queue@, k2) && k2 != k && 0 <= j
                        < child_keys(k2).len() implies reachable@.contains(child_keys(k2)[j]) by {
                    if k2 == c.0 && !existed.did_addend_already_exist {
                        assert(queue@[queue@.len() - 1].0 == c.0);
                    }
                    assert(r0.contains(k2));
                    assert(!in_queue(q0, k2));
                    assert(r0.contains(child_keys(k2)[j]));
                }
            }
            idx = idx + 1;
        }
        proof {
            reachable.lemma_bounded();
            assert forall|k2: u64, j: int|
                #![trigger reachable@.contains(k2), child_keys(k2)[j]]
                reachable@.contains(k2) && !in_queue(queue@, k2) && 0 <= j < child_keys(k2).len()
                    implies reachable@.contains(child_keys(k2)[j]) by {
                if k2 == k {
                    assert(cks[j] == child_keys(k2)[j]);
                }
            }
        }
        on_state_processed(state);
    }
    proof {
        assert forall|k: u64| reaches(k0, k) implies reachable@.contains(k) by {
            let w = choose|w: Seq<u64>| w.len() > 0 && w[0] == k0 && w.last() == k && #[trigger] is_walk(w);
            assert forall|k2: u64, j: int|
                #![trigger reachable@.contains(k2), child_keys(k2)[j]]
                reachable@.contains(k2) && 0 <= j < child_keys(k2).len() implies reachable@.contains(
                child_keys(k2)[j],
            ) by {
                assert(!in_queue(queue@, k2));
            }
            lemma_closed_set_holds_walk(reachable@, w);
        }
    }
    reachable
}

/// Facts about the stats that a state starts with.
proof fn lemma_guessed_stats(k: u64)
    ensures
        stats_report_count(guessed_stats(k)) <= 84,
        guessed_stats(k) != 0xffff,
{
    let x = crate::state_set::node_of_key(State(k)).0;
    crate::children::lemma_children_len(x);
    crate::state_stats::lemma_stats_of(children_of(x).len() as u16, -201);
    crate::state_stats::lemma_stats_of(0, 201);
    crate::state_stats::lemma_stats_of(0, -201);
    assert(stats_report_count(0xffff) == 127) by (bit_vector);
}

/// The map from each state of `reachable` to the stats it starts with (see
/// `guessed_stats`).
/// `on_state_processed` is called with each state once it is added.
pub fn initial_stat_map(reachable: &StateSet, mut on_state_processed: impl FnMut(State)) -> (r:
    StateMap<StateStats>)
    requires
        reachable.wf(),
        forall|s: State| call_requires(on_state_processed, (s,)),
    ensures
        r.wf(),
        forall|k: u64| r@.contains_key(k) == reachable@.contains(k),
        forall|k: u64| #[trigger] r@.contains_key(k) ==> r@[k].0 == guessed_stats(k),
{
    let mut map: StateMap<StateStats> = StateMap::empty();
    let states = reachable.to_sorted_vec();
    proof {
        reachable.lemma_sorted();
        reachable.lemma_bounded();
    }
    let ghost sorted = states@;
    let mut i: usize = 0;
    while i < states.len()
        invariant
            forall|s: State| call_requires(on_state_processed, (s,)),
            0 <= i <= states@.len(),
            states@ == sorted,
            sorted == reachable.sorted(),
            map.wf(),
            forall|j: int| 0 <= j < sorted.len() ==> reachable@.contains(#[trigger] sorted[j].0),
            forall|k: u64| #[trigger] reachable@.contains(k) ==> k < STATE_COUNT,
            forall|k: u64|
                #[trigger] map@.contains_key(k) == exists|j: int| 0 <= j < i && sorted[j].0 == k,
            forall|k: u64| #[trigger] map@.contains_key(k) ==> map@[k].0 == guessed_stats(k),
        decreases states@.len() - i,
    {
        let state = states[i];
        assert(reachable@.contains(sorted[i as int].0));
        let stats = state.guess_stats();
        proof {
            lemma_guessed_stats(state.0);
        }
        let ghost before = map@;
        map.add(state, stats);
        proof {
            assert forall|k: u64| #[trigger] map@.contains_key(k) == exists|j: int|
                0 <= j < i + 1 && sorted[j].0 == k by {
                if k == state.0 {
                    assert(sorted[i as int].0 == k);
                } else if exists|j: int| 0 <= j < i + 1 && sorted[j].0 == k {
                    let j = choose|j: int| 0 <= j < i + 1 && sorted[j].0 == k;
                    assert(j < i);
                    assert(before.contains_key(k));
                }
            }
        }
        on_state_processed(state);
        i = i + 1;
    }
    proof {
        assert forall|k: u64| map@.contains_key(k) == reachable@.contains(k) by {
            if reachable@.contains(k) {
                let j = choose|j: int| 0 <= j < sorted.len() && sorted[j].0 == k;
                assert(map@.contains_key(k));
            }
            if map@.contains_key(k) {
                let j = choose|j: int| 0 <= j < i && sorted[j].0 == k;
                assert(reachable@.contains(sorted[j].0));
            }
        }
    }
    map
}

/// The report of a terminal state: won or lost on the spot.
pub open spec fn terminal_report(e: (State, StateStats)) -> (State, Outcome) {
    (
        e.0,
        Outcome(
            if state_terminality(e.0.0) == Terminality::Win {
                201i16
            } else {
                -201i16
            },
        ),
    )
}

/// A terminal state starts settled: won on the spot (best known outcome
/// `201`) when its player to move has won, lost on the spot (`-201`) when
/// that player's lion was captured; a nonterminal state starts waiting on
/// every child, taken as lost meanwhile. The report of a terminal state is
/// about it and says the same.
pub proof fn lemma_terminal_states_start_settled(k: u64)
    ensures
        state_terminality(k) == Terminality::Win ==> stats_report_count(guessed_stats(k)) == 0
            && stats_outcome(guessed_stats(k)) == 201,
        state_terminality(k) == Terminality::Loss ==> stats_report_count(guessed_stats(k)) == 0
            && stats_outcome(guessed_stats(k)) == -201,
        state_terminality(k) == Terminality::Nonterminal ==> stats_report_count(guessed_stats(k))
            == child_keys(k).len() && stats_outcome(guessed_stats(k)) == -201,
        forall|e: (State, StateStats)|
            e.0.0 == k ==> #[trigger] terminal_report(e).0 == e.0 && (state_terminality(k)
                == Terminality::Win ==> terminal_report(e).1.0 == 201) && (state_terminality(k)
                == Terminality::Loss ==> terminal_report(e).1.0 == -201),
{
    let x = crate::state_set::node_of_key(State(k)).0;
    crate::children::lemma_children_len(x);
    crate::state_stats::lemma_stats_of(children_of(x).len() as u16, -201);
    crate::state_stats::lemma_stats_of(0, 201);
    crate::state_stats::lemma_stats_of(0, -201);
    reveal(child_keys);
}

/// A terminal state keeps the stats it starts with while the game is
/// solved (see `stats_advanced`, which `compute_stats` ensures): a won state
/// stays settled with outcome `201`, a lost one with `-201`.
pub proof fn lemma_terminal_states_stay_settled(
    m0: Map<u64, StateStats>,
    m1: Map<u64, StateStats>,
    k: u64,
)
    requires
        stats_advanced(m0, m1),
        m0.contains_key(k),
        m0[k].0 == guessed_stats(k),
        state_terminality(k) != Terminality::Nonterminal,
    ensures
        m1.contains_key(k),
        stats_report_count(m1[k].0) == 0,
        state_terminality(k) == Terminality::Win ==> stats_outcome(m1[k].0) == 201,
        state_terminality(k) == Terminality::Loss ==> stats_outcome(m1[k].0) == -201,
{
    lemma_terminal_states_start_settled(k);
    assert(m1.dom().contains(k));
}

/// The reports of the terminal states among the entries, in order.
pub open spec fn terminal_reports(entries: Seq<(State, StateStats)>) -> Seq<(State, Outcome)> {
    entries.filter(|e: (State, StateStats)| state_terminality(e.0.0) != Terminality::Nonterminal).map_values(
        |e: (State, StateStats)| terminal_report(e),
    )
}

/// Queues the report of each terminal state of the map, in ascending order
/// of state.
fn add_terminal_states(map: &StateMap<StateStats>, known_queue: &mut VecDeque<(State, Outcome)>)
    requires
        map.wf(),
    ensures
        final(known_queue)@ == old(known_queue)@ + terminal_reports(map.sorted_entries()),
{
    let entries = map.to_sorted_vec();
    proof {
        map.lemma_sorted_entries();
        map.lemma_bounded();
    }
    let ghost e = entries@;
    assert forall|j: int| 0 <= j < e.len() implies is_state(#[trigger] e[j].0) by {
        assert(map@.contains_key(map.sorted_entries()[j].0.0));
    }
    let ghost pred = |e: (State, StateStats)| state_terminality(e.0.0) != Terminality::Nonterminal;
    let mut i: usize = 0;
    while i < entries.len()
        invariant
            0 <= i <= entries@.len(),
            entries@ == e,
            e == map.sorted_entries(),
            forall|j: int| 0 <= j < e.len() ==> is_state(#[trigger] e[j].0),
            pred == (|e: (State, StateStats)| state_terminality(e.0.0) != Terminality::Nonterminal),
            known_queue@ == old(known_queue)@ + e.take(i as int).filter(pred).map_values(
                |e: (State, StateStats)| terminal_report(e),
            ),
        decreases entries@.len() - i,
    {
        let (state, stats) = entries[i];
        proof {
            assert(e.take(i as int + 1).drop_last() =~= e.take(i as int));
            reveal(Seq::filter);
        }
        match state.terminality() {
            Terminality::Loss => known_queue.push_back((state, Outcome::loss_in(0))),
            Terminality::Win => known_queue.push_back((state, Outcome::win_in(0))),
            Terminality::Nonterminal => {},
        }
        assert(known_queue@ =~= old(known_queue)@ + e.take(i as int + 1).filter(pred).map_values(
            |e: (State, StateStats)| terminal_report(e),
        ));
        i = i + 1;
    }
    assert(e.take(e.len() as int) =~= e);
}

/// The states of the map that still have children to hear from.
pub open spec fn unsettled(m: Map<u64, StateStats>) -> Set<u64> {
    m.dom().filter(|k: u64| stats_report_count(m[k].0) > 0)
}

/// How changing the stats of one state changes the unsettled states.
proof fn lemma_unsettled_update(m: Map<u64, StateStats>, k: u64, v: StateStats)
    requires
        m.dom().finite(),
        m.contains_key(k),
    ensures
        unsettled(m).finite(),
        stats_report_count(m[k].0) > 0 && stats_report_count(v.0) == 0 ==> unsettled(
            m.insert(k, v),
        ).len() + 1 == unsettled(m).len(),
        stats_report_count(m[k].0) > 0 && stats_report_count(v.0) > 0 ==> unsettled(
            m.insert(k, v),
        ).len() == unsettled(m).len(),
        stats_report_count(m[k].0) == 0 && m[k] == v ==> unsettled(m.insert(k, v)) == unsettled(m),
{
    let u = unsettled(m);
    let n = m.insert(k, v);
    assert(u.finite());
    if stats_report_count(m[k].0) > 0 && stats_report_count(v.0) == 0 {
        assert(unsettled(n) =~= u.remove(k));
    }
    if stats_report_count(m[k].0) > 0 && stats_report_count(v.0) > 0 {
        assert(unsettled(n) =~= u);
    }
    if stats_report_count(m[k].0) == 0 && m[k] == v {
        assert(unsettled(n) =~= u);
    }
}

/// Whether every count of `new` is at least that of `old`.
pub open spec fn progress_grew(old: Progress, new: Progress) -> bool {
    &&& new.already_solved_parent_visits >= old.already_solved_parent_visits
    &&& new.unsolved_parent_visits >= old.unsolved_parent_visits
    &&& new.unreachable_parent_visits >= old.unreachable_parent_visits
    &&& new.winning_parent_conclusions >= old.winning_parent_conclusions
    &&& new.uncertain_parent_conclusions >= old.uncertain_parent_conclusions
    &&& new.losing_parent_conclusions >= old.losing_parent_conclusions
    &&& new.queue_pushes >= old.queue_pushes
}

/// How the stats of every state may change while the game is solved: the
/// state stays in the map, its count of children to hear from does not grow,
/// a settled state is left as it is, and its best known outcome does not get
/// worse.
pub open spec fn stats_advanced(old: Map<u64, StateStats>, new: Map<u64, StateStats>) -> bool {
    &&& new.dom() == old.dom()
    &&& forall|k: u64|
        #[trigger] new.contains_key(k) ==> {
            &&& stats_report_count(new[k].0) <= stats_report_count(old[k].0)
            &&& stats_report_count(old[k].0) == 0 ==> new[k] == old[k]
            &&& stats_outcome(new[k].0) >= stats_outcome(old[k].0)
        }
}

/// Whether every report of the queue is about a state, with an outcome in
/// range.
pub open spec fn reports_in_range(q: Seq<(State, Outcome)>) -> bool {
    forall|j: int| 0 <= j < q.len() ==> is_state((#[trigger] q[j]).0) && -256 <= q[j].1.0 <= 255
}

/// Whether every report of the queue is about a settled state of the map,
/// with that state's outcome.
pub open spec fn reports_settled(m: Map<u64, StateStats>, q: Seq<(State, Outcome)>) -> bool {
    forall|j: int|
        0 <= j < q.len() ==> {
            let (c, o) = #[trigger] q[j];
            &&& m.contains_key(c.0)
            &&& stats_report_count(m[c.0].0) == 0
            &&& stats_outcome(m[c.0].0) == o.0
        }
}

/// Whether state `p` of the map has heard of outcome `o` from a child: it
/// is settled, or its best known outcome is at least `o` seen from it.
pub open spec fn heard(m: Map<u64, StateStats>, p: u64, o: int) -> bool {
    stats_report_count(m[p].0) == 0 || stats_outcome(m[p].0) >= crate::node::child_challenger(o)
}

/// Whether state `c` has reported its outcome to each of its parents in
/// the map.
pub open spec fn reported_to_parents(m: Map<u64, StateStats>, c: u64) -> bool {
    forall|j: int|
        0 <= j < parent_keys(c).len() && m.contains_key(#[trigger] parent_keys(c)[j]) ==> heard(
            m,
            parent_keys(c)[j],
            stats_outcome(m[c].0),
        )
}

/// Whether state `c` was settled from the start (a terminal state) or
/// became settled while the game was solved: the states whose outcomes are
/// reported.
pub open spec fn reporting(old: Map<u64, StateStats>, new: Map<u64, StateStats>, c: u64) -> bool {
    state_terminality(c) != Terminality::Nonterminal || (stats_report_count(old[c].0) > 0
        && stats_report_count(new[c].0) == 0)
}

/// Whether a report about state `c` waits in the queue.
spec fn pending(q: Seq<(State, Outcome)>, c: u64) -> bool {
    exists|j: int| 0 <= j < q.len() && (#[trigger] q[j]).0.0 == c
}

/// Whether the outcome of state `k` is what some settled state of the map,
/// of which `k` is a parent, reported: its outcome seen from `k`.
pub open spec fn witnessed(m: Map<u64, StateStats>, k: u64) -> bool {
    exists|c: u64|
        #![trigger parent_keys(c), m[c]]
        m.contains_key(c) && stats_report_count(m[c].0) == 0 && parent_keys(c).contains(k)
            && stats_outcome(m[k].0) == crate::node::child_challenger(stats_outcome(m[c].0))
}

/// Whether stats `new` are stats `old` having heard of child outcome `o`:
/// the better of the best known outcome and `o` seen from the parent, and,
/// for a child that lost, nothing more to hear, else one child fewer.
pub open spec fn heard_update(old: u16, new: u16, o: int) -> bool {
    &&& stats_report_count(new) == if o < 0 {
        0
    } else {
        stats_report_count(old) - 1
    }
    &&& stats_outcome(new) == if crate::node::child_challenger(o) > stats_outcome(old) {
        crate::node::child_challenger(o)
    } else {
        stats_outcome(old)
    }
}

/// Reports `child_outcome`, the outcome of `child`, to each parent of
/// `child` that is in the map and still has children to hear from. A parent
/// takes the child's outcome into account (see `record_child_outcome`); if
/// the child lost, the parent has won and needs to hear no more, and
/// otherwise one fewer child has to report. A parent that needs to hear no
/// more is queued with its best known outcome. The counts of `progress` say
/// how each parent was dealt with.
#[verifier::spinoff_prover]
#[verifier::rlimit(40)]
fn visit_parents(
    child: State,
    child_outcome: Outcome,
    map: &mut StateMap<StateStats>,
    progress: &mut Progress,
    known_queue: &mut VecDeque<(State, Outcome)>,
)
    requires
        old(map).wf(),
        is_state(child),
        -256 <= child_outcome.0 <= 255,
        forall|k: u64| #[trigger] old(map)@.contains_key(k) ==> stats_report_count(old(map)@[k].0) <= 96,
        reports_in_range(old(known_queue)@),
        old(map)@.contains_key(child.0),
        stats_report_count(old(map)@[child.0].0) == 0,
        stats_outcome(old(map)@[child.0].0) == child_outcome.0,
        reports_settled(old(map)@, old(known_queue)@),
    ensures
        final(map).wf(),
        stats_advanced(old(map)@, final(map)@),
        reports_in_range(final(known_queue)@),
        reports_settled(final(map)@, final(known_queue)@),
        forall|k: u64|
            #[trigger] final(map)@.contains_key(k) ==> stats_outcome(final(map)@[k].0)
                == stats_outcome(old(map)@[k].0) || (parent_keys(child.0).contains(k)
                && stats_outcome(final(map)@[k].0) == crate::node::child_challenger(
                child_outcome.0 as int,
            )),
        final(known_queue)@.len() >= old(known_queue)@.len(),
        forall|j: int|
            0 <= j < old(known_queue)@.len() ==> #[trigger] final(known_queue)@[j] == old(
                known_queue,
            )@[j],
        unsettled(final(map)@).len() + final(known_queue)@.len() == unsettled(old(map)@).len()
            + old(known_queue)@.len(),
        progress_grew(*old(progress), *final(progress)),
        reported_to_parents(final(map)@, child.0),
        forall|k: u64|
            #[trigger] final(map)@.contains_key(k) && stats_report_count(old(map)@[k].0) > 0
                && stats_report_count(final(map)@[k].0) == 0 ==> exists|j: int|
                old(known_queue)@.len() <= j < final(known_queue)@.len() && final(known_queue)@[j].0.0
                    == k,
        parent_keys(child.0).no_duplicates() ==> forall|k: u64| #[trigger]
            final(map)@.contains_key(k) ==> if parent_keys(child.0).contains(k)
                && stats_report_count(old(map)@[k].0) > 0 {
                heard_update(old(map)@[k].0, final(map)@[k].0, child_outcome.0 as int)
            } else {
                final(map)@[k] == old(map)@[k]
            },
        forall|j: int|
            old(known_queue)@.len() <= j < final(known_queue)@.len() ==> parent_keys(
                child.0,
            ).contains((#[trigger] final(known_queue)@[j]).0.0) && stats_report_count(
                old(map)@[final(known_queue)@[j].0.0].0,
            ) > 0,
        parent_keys(child.0).no_duplicates() ==> forall|j1: int, j2: int|
            old(known_queue)@.len() <= j1 < j2 < final(known_queue)@.len() ==> (
            #[trigger] final(known_queue)@[j1]).0.0 != (#[trigger] final(known_queue)@[j2]).0.0,
{
    let parents = {
        let mut out: Vec<State> = Vec::new();
        child.visit_parents(&mut out);
        out
    };
    proof {
        lemma_neighbours_are_states(child.0);
        old(map).lemma_bounded();
    }
    let ghost m0 = map@;
    let ghost q0 = known_queue@;
    let ghost p0 = *progress;
    let mut i: usize = 0;
    while i < parents.len()
        invariant
            0 <= i <= parents@.len(),
            parents@ == as_states(parent_keys(child.0)),
            forall|j: int| 0 <= j < parent_keys(child.0).len() ==> #[trigger] parent_keys(child.0)[j] < STATE_COUNT,
            -256 <= child_outcome.0 <= 255,
            map.wf(),
            m0.dom().finite(),
            map@.dom().finite(),
            forall|k: u64| #[trigger] m0.contains_key(k) ==> stats_report_count(m0[k].0) <= 96,
            stats_advanced(m0, map@),
            reports_in_range(known_queue@),
            reports_settled(map@, known_queue@),
            m0.contains_key(child.0),
            stats_report_count(m0[child.0].0) == 0,
            forall|k: u64|
                #[trigger] map@.contains_key(k) ==> stats_outcome(map@[k].0) == stats_outcome(
                    m0[k].0,
                ) || (parent_keys(child.0).contains(k) && stats_outcome(map@[k].0)
                    == crate::node::child_challenger(child_outcome.0 as int)),
            known_queue@.len() >= q0.len(),
            forall|j: int| 0 <= j < q0.len() ==> #[trigger] known_queue@[j] == q0[j],
            unsettled(map@).len() + known_queue@.len() == unsettled(m0).len() + q0.len(),
            progress_grew(p0, *progress),
            forall|j: int|
                0 <= j < i && map@.contains_key(#[trigger] parent_keys(child.0)[j]) ==> heard(
                    map@,
                    parent_keys(child.0)[j],
                    child_outcome.0 as int,
                ),
            forall|k: u64|
                #[trigger] map@.contains_key(k) && stats_report_count(m0[k].0) > 0
                    && stats_report_count(map@[k].0) == 0 ==> exists|j: int|
                    q0.len() <= j < known_queue@.len() && known_queue@[j].0.0 == k,
            parent_keys(child.0).no_duplicates() ==> forall|k: u64| #[trigger]
                map@.contains_key(k) ==> if parent_keys(child.0).take(i as int).contains(k)
                    && stats_report_count(m0[k].0) > 0 {
                    heard_update(m0[k].0, map@[k].0, child_outcome.0 as int)
                } else {
                    map@[k] == m0[k]
                },
            forall|j: int|
                q0.len() <= j < known_queue@.len() ==> parent_keys(child.0).take(i as int).contains(
                    (#[trigger] known_queue@[j]).0.0,
                ) && stats_report_count(m0[known_queue@[j].0.0].0) > 0,
            parent_keys(child.0).no_duplicates() ==> forall|j1: int, j2: int|
                q0.len() <= j1 < j2 < known_queue@.len() ==> (#[trigger] known_queue@[j1]).0.0 != (
                #[trigger] known_queue@[j2]).0.0,
        decreases parents@.len() - i,
    {
        let parent = parents[i];
        assert(parent.0 == parent_keys(child.0)[i as int]);
        let ghost m1 = map@;
        let ghost q1 = known_queue@;
        match map.get_mut(parent) {
            None => {
                // A parent in theory may not be reachable.
                progress.unreachable_parent_visits = progress.unreachable_parent_visits.saturating_add(1);
            },
            Some(stats_mut) => {
                let original: StateStats = *stats_mut;
                proof {
                    crate::state_stats::lemma_stats_bounds(original.0);
                }
                if original.required_child_report_count() == 0 {
                    // The parent already knows its outcome: a child of it lost.
                    progress.already_solved_parent_visits = progress.already_solved_parent_visits.saturating_add(1);
                    proof {
                        lemma_unsettled_update(m1, parent.0, original);
                        assert(m1.insert(parent.0, original) =~= m1);
                    }
                } else {
                    progress.unsolved_parent_visits = progress.unsolved_parent_visits.saturating_add(1);
                    let recorded = original.record_child_outcome(child_outcome);
                    if child_outcome.0 < 0 {
                        let updated = recorded.set_required_child_report_count_to_zero();
                        *stats_mut = updated;
                        proof {
                            crate::state_stats::lemma_stats_bounds(updated.0);
                            assert(stats_report_count(0xffff) == 127) by (bit_vector);
                            lemma_unsettled_update(m1, parent.0, updated);
                        }
                        known_queue.push_back((parent, updated.best_known_outcome()));
                        progress.queue_pushes = progress.queue_pushes.saturating_add(1);
                        progress.winning_parent_conclusions = progress.winning_parent_conclusions.saturating_add(1);
                    } else {
                        let updated = recorded.decrement_required_child_report_count();
                        *stats_mut = updated;
                        proof {
                            crate::state_stats::lemma_stats_bounds(updated.0);
                            assert(stats_report_count(0xffff) == 127) by (bit_vector);
                            lemma_unsettled_update(m1, parent.0, updated);
                        }
                        if updated.required_child_report_count() == 0 {
                            known_queue.push_back((parent, updated.best_known_outcome()));
                            progress.queue_pushes = progress.queue_pushes.saturating_add(1);
                            progress.losing_parent_conclusions = progress.losing_parent_conclusions.saturating_add(1);
                        } else {
                            progress.uncertain_parent_conclusions = progress.uncertain_parent_conclusions.saturating_add(1);
                        }
                    }
                }
            },
        }
        proof {
            assert forall|j: int| 0 <= j < q0.len() implies #[trigger] known_queue@[j] == q0[j] by {
                assert(known_queue@[j] == q1[j]);
            }
            assert(map@.dom() =~= m0.dom());
            assert forall|j: int| 0 <= j < known_queue@.len() implies {
                let (c, o) = #[trigger] known_queue@[j];
                &&& map@.contains_key(c.0)
                &&& stats_report_count(map@[c.0].0) == 0
                &&& stats_outcome(map@[c.0].0) == o.0
            } by {
                if j < q1.len() {
                    assert(known_queue@[j] == q1[j]);
                    let (c, o) = q1[j];
                    assert(m1.contains_key(c.0));
                    if c.0 != parent.0 {
                        assert(map@[c.0] == m1[c.0]);
                    }
                }
            }
            assert forall|k: u64| #[trigger] map@.contains_key(k) implies stats_outcome(map@[k].0)
                == stats_outcome(m0[k].0) || (parent_keys(child.0).contains(k) && stats_outcome(
                map@[k].0,
            ) == crate::node::child_challenger(child_outcome.0 as int)) by {
                assert(m1.contains_key(k));
                if k == parent.0 {
                    assert(parent_keys(child.0)[i as int] == k);
                }
            }
            assert forall|j: int|
                0 <= j < i + 1 && map@.contains_key(#[trigger] parent_keys(child.0)[j]) implies heard(
                map@,
                parent_keys(child.0)[j],
                child_outcome.0 as int,
            ) by {
                let pk = parent_keys(child.0)[j];
                assert(m1.contains_key(pk));
                if j < i {
                    assert(heard(m1, pk, child_outcome.0 as int));
                }
            }
            assert forall|k: u64|
                #[trigger] map@.contains_key(k) && stats_report_count(m0[k].0) > 0
                    && stats_report_count(map@[k].0) == 0 implies exists|j: int|
                q0.len() <= j < known_queue@.len() && known_queue@[j].0.0 == k by {
                assert(m1.contains_key(k));
                if stats_report_count(m1[k].0) == 0 {
                    let j = choose|j: int| q0.len() <= j < q1.len() && q1[j].0.0 == k;
                    assert(known_queue@[j] == q1[j]);
                } else {
                    assert(k == parent.0);
                    assert(known_queue@[known_queue@.len() - 1].0.0 == k);
                }
            }
            let pks = parent_keys(child.0);
            assert forall|k: u64| #![trigger pks.take(i + 1).contains(k)]
                pks.take(i as int + 1).contains(k) == (pks.take(i as int).contains(k) || pks[i as int] == k) by {
                crate::retrograde::lemma_take_push(pks, i as int, k);
            }
            if pks.no_duplicates() {
                assert(!pks.take(i as int).contains(parent.0)) by {
                    if pks.take(i as int).contains(parent.0) {
                        let q = choose|q: int| 0 <= q < i && pks.take(i as int)[q] == parent.0;
                        assert(pks[q] == pks[i as int]);
                    }
                }
                assert forall|k: u64| #[trigger] map@.contains_key(k) implies if pks.take(
                    i as int + 1,
                ).contains(k) && stats_report_count(m0[k].0) > 0 {
                    heard_update(m0[k].0, map@[k].0, child_outcome.0 as int)
                } else {
                    map@[k] == m0[k]
                } by {
                    crate::retrograde::lemma_take_push(pks, i as int, k);
                    assert(m1.contains_key(k));
                }
                assert forall|j1: int, j2: int|
                    q0.len() <= j1 < j2 < known_queue@.len() implies (#[trigger] known_queue@[j1]).0.0
                    != (#[trigger] known_queue@[j2]).0.0 by {
                    if j2 >= q1.len() {
                        assert(known_queue@[j1] == q1[j1]);
                        assert(pks.take(i as int).contains(q1[j1].0.0));
                    } else {
                        assert(known_queue@[j1] == q1[j1]);
                        assert(known_queue@[j2] == q1[j2]);
                    }
                }
            }
            assert forall|j: int| q0.len() <= j < known_queue@.len() implies pks.take(i as int + 1).contains(
                (#[trigger] known_queue@[j]).0.0,
            ) && stats_report_count(m0[known_queue@[j].0.0].0) > 0 by {
                crate::retrograde::lemma_take_push(pks, i as int, known_queue@[j].0.0);
                if j < q1.len() {
                    assert(known_queue@[j] == q1[j]);
                } else {
                    assert(known_queue@[j].0.0 == parent.0);
                }
            }
        }
        i = i + 1;
    }
    proof {
        assert(parent_keys(child.0).take(parents@.len() as int) =~= parent_keys(child.0));
    }
}

/// Solves the game over a map from every reachable state to the stats it
/// starts with (see `initial_stat_map`): works back from the terminal
/// states, each settled state reporting its outcome to its parents (see
/// `visit_parents`). The counts of `progress` grow by what was done; after
/// each report `on_state_processed` sees them, and when it returns `true`
/// they start again from zero.
pub fn compute_stats(
    map: &mut StateMap<StateStats>,
    progress: &mut Progress,
    mut on_state_processed: impl FnMut(&Progress) -> bool,
)
    requires
        old(map).wf(),
        forall|p: &Progress| call_requires(on_state_processed, (p,)),
        forall|k: u64| #[trigger] old(map)@.contains_key(k) ==> old(map)@[k].0 == guessed_stats(k),
    ensures
        final(map).wf(),
        stats_advanced(old(map)@, final(map)@),
        forall|k: u64|
            #[trigger] final(map)@.contains_key(k) ==> stats_outcome(final(map)@[k].0)
                == stats_outcome(old(map)@[k].0) || witnessed(final(map)@, k),
        forall|c: u64|
            #[trigger] final(map)@.contains_key(c) && reporting(old(map)@, final(map)@, c)
                ==> reported_to_parents(final(map)@, c),
        exists|base: Progress|
            #![trigger progress_grew(base, *final(progress))]
            progress_grew(base, *final(progress)) && (base == *old(progress) || (base.is_zero()
                && exists|seen: Progress| call_ensures(on_state_processed, (&seen,), true))),
        crate::stat_retrograde::map_reachable(old(map)@) ==> crate::stat_retrograde::map_solved(
            final(map)@,
        ),
        crate::stat_retrograde::map_reachable(old(map)@) ==> exists|ord: Seq<u64>|
            crate::stat_retrograde::settled_in_order(final(map)@, ord),
        crate::stat_retrograde::map_reachable(old(map)@)
            ==> crate::stat_retrograde::settled_optimally(final(map)@),
{
    proof {
        assert forall|k: u64| #[trigger] old(map)@.contains_key(k) implies stats_report_count(
            old(map)@[k].0,
        ) <= 96 by {
            lemma_guessed_stats(k);
        }
    }
    let mut known_queue: VecDeque<(State, Outcome)> = VecDeque::new();
    add_terminal_states(map, &mut known_queue);
    proof {
        map.lemma_sorted_entries();
        map.lemma_bounded();
        let e = map.sorted_entries();
        assert forall|j: int| 0 <= j < known_queue@.len() implies is_state((#[trigger] known_queue@[j]).0)
            && -256 <= known_queue@[j].1.0 <= 255 by {
            let pred = |e: (State, StateStats)| state_terminality(e.0.0) != Terminality::Nonterminal;
            let f = e.filter(pred);
            assert(known_queue@ =~= f.map_values(|e: (State, StateStats)| terminal_report(e)));
            assert(f.contains(f[j]));
            e.lemma_filter_contains_rev(pred, f[j]);
            let i = choose|i: int| 0 <= i < e.len() && e[i] == f[j];
            assert(map@.contains_key(e[i].0.0));
        }
        assert forall|j: int| 0 <= j < known_queue@.len() implies {
            let (c, o) = #[trigger] known_queue@[j];
            &&& map@.contains_key(c.0)
            &&& stats_report_count(map@[c.0].0) == 0
            &&& stats_outcome(map@[c.0].0) == o.0
        } by {
            let pred = |e: (State, StateStats)| state_terminality(e.0.0) != Terminality::Nonterminal;
            let f = e.filter(pred);
            assert(known_queue@ =~= f.map_values(|e: (State, StateStats)| terminal_report(e)));
            assert(f.contains(f[j]));
            e.lemma_filter_contains_rev(pred, f[j]);
            let i = choose|i: int| 0 <= i < e.len() && e[i] == f[j];
            let k = e[i].0.0;
            assert(map@.contains_key(k));
            assert(pred(f[j]));
            crate::state_stats::lemma_stats_of(0, 201);
            crate::state_stats::lemma_stats_of(0, -201);
            assert(map@[k].0 == guessed_stats(k));
        }
        assert forall|c: u64|
            #[trigger] map@.contains_key(c) && state_terminality(c) != Terminality::Nonterminal implies pending(
            known_queue@,
            c,
        ) by {
            let pred = |e: (State, StateStats)| state_terminality(e.0.0) != Terminality::Nonterminal;
            let f = e.filter(pred);
            assert(known_queue@ =~= f.map_values(|e: (State, StateStats)| terminal_report(e)));
            let i = choose|i: int| 0 <= i < e.len() && e[i].0.0 == c;
            e.lemma_filter_contains(pred, i);
            let j = choose|j: int| 0 <= j < f.len() && f[j] == e[i];
            assert(known_queue@[j].0.0 == c);
        }
    }
    let ghost m0 = map@;
    let ghost p0 = *progress;
    let ghost f0 = on_state_processed;
    let ghost mut base: Progress = *progress;
    let ghost mut reported: Set<u64> = Set::empty();
    let ghost mut ord: Seq<u64> = Seq::empty();
    let ghost mut lvl: int = 0;
    proof {
        if crate::stat_retrograde::map_reachable(m0) {
            map.lemma_sorted_entries();
            assert(known_queue@ =~= terminal_reports(map.sorted_entries()));
            crate::stat_retrograde::lemma_solver_start(m0, map.sorted_entries());
            crate::stat_retrograde::lemma_order_start(m0, map.sorted_entries());
            crate::stat_retrograde::lemma_level_start(m0, map.sorted_entries());
        }
    }
    loop
        invariant
            crate::stat_retrograde::map_reachable(m0) ==> crate::stat_retrograde::solver_state(
                m0,
                map@,
                reported,
                known_queue@,
            ),
            crate::stat_retrograde::map_reachable(m0) ==> crate::stat_retrograde::order_state(
                map@,
                ord,
                reported,
                known_queue@,
            ),
            crate::stat_retrograde::map_reachable(m0) ==> crate::stat_retrograde::level_state(
                map@,
                reported,
                known_queue@,
                lvl,
            ),
            map.wf(),
            forall|k: u64| #[trigger] m0.contains_key(k) ==> stats_report_count(m0[k].0) <= 96,
            stats_advanced(m0, map@),
            reports_in_range(known_queue@),
            reports_settled(map@, known_queue@),
            forall|k: u64|
                #[trigger] map@.contains_key(k) ==> stats_outcome(map@[k].0) == stats_outcome(
                    m0[k].0,
                ) || witnessed(map@, k),
            forall|k: u64| #[trigger] m0.contains_key(k) ==> m0[k].0 == guessed_stats(k),
            forall|c: u64|
                #[trigger] map@.contains_key(c) && reporting(m0, map@, c) && !pending(
                    known_queue@,
                    c,
                ) ==> reported_to_parents(map@, c),
            forall|p: &Progress| call_requires(on_state_processed, (p,)),
            on_state_processed == f0,
            base == p0 || (base.is_zero() && exists|seen: Progress|
                call_ensures(on_state_processed, (&seen,), true)),
            progress_grew(base, *progress),
        ensures
            known_queue@.len() == 0,
        decreases unsettled(map@).len(), known_queue@.len(),
    {
        let ghost q_before = known_queue@;
        let (child, child_outcome) = match known_queue.pop_front() {
            Some(report) => report,
            None => break,
        };
        proof {
            map.lemma_bounded();
            assert(q_before[0] == (child, child_outcome));
            assert forall|j: int| 0 <= j < known_queue@.len() implies {
                let (c, o) = #[trigger] known_queue@[j];
                &&& map@.contains_key(c.0)
                &&& stats_report_count(map@[c.0].0) == 0
                &&& stats_outcome(map@[c.0].0) == o.0
            } by {
                assert(known_queue@[j] == q_before[j + 1]);
            }
        }
        let ghost before = map@;
        let ghost q_mid = known_queue@;
        visit_parents(child, child_outcome, map, progress, &mut known_queue);
        proof {
            assert forall|c: u64|
                #[trigger] map@.contains_key(c) && reporting(m0, map@, c) && !pending(
                    known_queue@,
                    c,
                ) implies reported_to_parents(map@, c) by {
                assert(before.contains_key(c));
                if stats_report_count(before[c].0) > 0 && stats_report_count(map@[c].0) == 0 {
                    let j = choose|j: int|
                        q_mid.len() <= j < known_queue@.len() && known_queue@[j].0.0 == c;
                    assert(pending(known_queue@, c));
                }
                if state_terminality(c) != Terminality::Nonterminal {
                    crate::state_stats::lemma_stats_of(0, 201);
                    crate::state_stats::lemma_stats_of(0, -201);
                    assert(m0[c].0 == guessed_stats(c));
                }
                assert(stats_report_count(before[c].0) == 0);
                assert(map@[c] == before[c]);
                if c != child.0 {
                    assert(!pending(q_before, c)) by {
                        if pending(q_before, c) {
                            let j = choose|j: int| 0 <= j < q_before.len() && (#[trigger] q_before[j]).0.0 == c;
                            assert(j > 0);
                            assert(q_mid[j - 1] == q_before[j]);
                            assert(known_queue@[j - 1] == q_mid[j - 1]);
                        }
                    }
                    assert(reporting(m0, before, c));
                    assert(reported_to_parents(before, c));
                    assert forall|j: int|
                        0 <= j < parent_keys(c).len() && map@.contains_key(
                            #[trigger] parent_keys(c)[j],
                        ) implies heard(map@, parent_keys(c)[j], stats_outcome(map@[c].0)) by {
                        let pk = parent_keys(c)[j];
                        assert(before.contains_key(pk));
                        assert(heard(before, pk, stats_outcome(before[c].0)));
                    }
                }
            }
        }
        proof {
            if crate::stat_retrograde::map_reachable(m0) {
                assert forall|j: int| 0 <= j < q_before.len() - 1 implies #[trigger] known_queue@[j]
                    == q_before[j + 1] by {
                    assert(known_queue@[j] == q_mid[j]);
                }
                crate::stat_retrograde::lemma_solver_step(
                    m0,
                    before,
                    map@,
                    reported,
                    q_before,
                    known_queue@,
                );
                crate::stat_retrograde::lemma_order_step(
                    m0,
                    before,
                    map@,
                    ord,
                    reported,
                    q_before,
                    known_queue@,
                );
            }
            if crate::stat_retrograde::map_reachable(m0) {
                crate::stat_retrograde::lemma_level_step(
                    m0,
                    before,
                    map@,
                    reported,
                    q_before,
                    known_queue@,
                    lvl,
                );
            }
            reported = reported.insert(child.0);
            ord = ord.push(child.0);
            lvl = crate::stat_retrograde::span(child_outcome.0 as int);
        }
        proof {
            assert forall|k: u64| #[trigger] map@.contains_key(k) implies stats_outcome(map@[k].0)
                == stats_outcome(m0[k].0) || witnessed(map@, k) by {
                assert(before.contains_key(k));
                if stats_outcome(map@[k].0) == stats_outcome(before[k].0) {
                    if stats_outcome(before[k].0) != stats_outcome(m0[k].0) {
                        assert(witnessed(before, k));
                        let c = choose|c: u64|
                            #![trigger parent_keys(c), before[c]]
                            before.contains_key(c) && stats_report_count(before[c].0) == 0
                                && parent_keys(c).contains(k) && stats_outcome(before[k].0)
                                == crate::node::child_challenger(stats_outcome(before[c].0));
                        assert(map@.contains_key(c));
                        assert(map@[c] == before[c]);
                        assert(parent_keys(c).contains(k));
                    }
                } else {
                    assert(map@[child.0] == before[child.0]);
                    assert(parent_keys(child.0).contains(k));
                }
            }
        }
        let ghost seen = *progress;
        let restart = on_state_processed(&*progress);
        if restart {
            proof {
                assert(call_ensures(on_state_processed, (&seen,), true));
            }
            *progress = Progress::default();
            proof {
                base = *progress;
            }
        }
    }
    assert forall|c: u64|
        #[trigger] map@.contains_key(c) && reporting(m0, map@, c) implies reported_to_parents(
        map@,
        c,
    ) by {
        assert(!pending(known_queue@, c));
    }
    proof {
        assert(progress_grew(base, *progress));
        assert(p0 == *old(progress));
        assert(base == *old(progress) || (base.is_zero() && exists|seen: Progress|
            call_ensures(on_state_processed, (&seen,), true)));
        if crate::stat_retrograde::map_reachable(m0) {
            assert(known_queue@ =~= Seq::<(State, Outcome)>::empty());
            crate::stat_retrograde::lemma_solver_done(m0, map@, reported);
            crate::stat_retrograde::lemma_order_done(m0, map@, ord, reported);
            crate::stat_retrograde::lemma_level_done(m0, map@, reported, lvl);
        }
    }
}

/// The outcome that the map gives state `c`, a draw while children still
/// have to report.
pub open spec fn stat_score(m: Map<u64, StateStats>, c: u64) -> int {
    if stats_report_count(m[c].0) > 0 {
        0
    } else {
        stats_outcome(m[c].0)
    }
}

/// The best child of state `k`: the first of its children whose outcome
/// (seen by the opponent, so lower is better) is least; none for a state
/// without children.
pub open spec fn stat_best_child(m: Map<u64, StateStats>, k: u64) -> Option<u64> {
    let cs = child_keys(k);
    if cs.len() == 0 {
        None
    } else {
        Some(cs[first_min_index(cs.map_values(|c: u64| stat_score(m, c)))])
    }
}

/// The best child of state `k` is one of its children, there is one exactly
/// when `k` has children, and it is the first child of least value for the
/// opponent who moves there (lower is better for `k`): a child whose stats
/// still have children to hear from is taken as a draw, 0, and a settled
/// child at its best known outcome. So when the best child is settled with an
/// outcome above zero (a win for the opponent), every child is settled.
pub proof fn lemma_stat_best_child_is_first_least(m: Map<u64, StateStats>, k: u64)
    ensures
        (stat_best_child(m, k) is None) == (child_keys(k).len() == 0),
        stat_best_child(m, k) is Some ==> ({
            let cs = child_keys(k);
            let value = |c: u64|
                if stats_report_count(m[c].0) > 0 {
                    0
                } else {
                    stats_outcome(m[c].0)
                };
            exists|i: int|
                0 <= i < cs.len() && cs[i] == stat_best_child(m, k).unwrap() && (forall|j: int|
                    0 <= j < cs.len() ==> value(cs[i]) <= value(#[trigger] cs[j])) && (forall|j: int|
                    0 <= j < i ==> value(cs[i]) < value(#[trigger] cs[j]))
        }),
        stat_best_child(m, k) is Some ==> ({
            let b = stat_best_child(m, k).unwrap();
            stats_report_count(m[b].0) == 0 && stats_outcome(m[b].0) > 0 ==> forall|j: int|
                0 <= j < child_keys(k).len() ==> stats_report_count(
                    m[#[trigger] child_keys(k)[j]].0,
                ) == 0
        }),
{
    let cs = child_keys(k);
    if cs.len() > 0 {
        let scores = cs.map_values(|c: u64| stat_score(m, c));
        lemma_first_min_index(scores);
        crate::best_child_map::lemma_first_min_index_is_first(scores);
        let i = first_min_index(scores);
        let value = |c: u64|
            if stats_report_count(m[c].0) > 0 {
                0
            } else {
                stats_outcome(m[c].0)
            };
        assert forall|j: int| 0 <= j < cs.len() implies value(cs[i]) <= value(#[trigger] cs[j]) by {
            assert(scores[j] == value(cs[j]));
            assert(scores[i] == value(cs[i]));
        }
        assert forall|j: int| 0 <= j < i implies value(cs[i]) < value(#[trigger] cs[j]) by {
            assert(scores[j] == value(cs[j]));
            assert(scores[i] == value(cs[i]));
        }
        assert(cs[i] == stat_best_child(m, k).unwrap());
        let b = cs[i];
        if stats_report_count(m[b].0) == 0 && stats_outcome(m[b].0) > 0 {
            assert forall|j: int| 0 <= j < cs.len() implies stats_report_count(
                m[#[trigger] cs[j]].0,
            ) == 0 by {
                assert(value(cs[i]) <= value(cs[j]));
            }
        }
    }
}

/// State `k` packed together with stats `s`.
pub open spec fn packed(k: u64, s: u16) -> u64 {
    (k << 16u64) | (s as u64)
}

/// What `best_child_map` maps state `k` to: its best child together with
/// the child's stats, or null.
pub open spec fn best_child_entry(m: Map<u64, StateStats>, k: u64) -> u64 {
    match stat_best_child(m, k) {
        Some(c) => packed(c, m[c].0),
        None => 0,
    }
}

/// Whether every child of every state of the map is in the map.
pub open spec fn map_closed_under_children(m: Map<u64, StateStats>) -> bool {
    forall|k: u64, j: int|
        #![trigger m.contains_key(k), child_keys(k)[j]]
        m.contains_key(k) && 0 <= j < child_keys(k).len() ==> m.contains_key(child_keys(k)[j])
}

impl State {
    /// The stats of this state in the map.
    pub fn stats(self, map: &StateMap<StateStats>) -> (r: StateStats)
        requires
            map.wf(),
            is_state(self),
            map@.contains_key(self.0),
        ensures
            r == map@[self.0],
    {
        map.get(self)
    }

    /// The outcome that the map gives this state, once its children have all
    /// reported.
    pub fn outcome(self, map: &StateMap<StateStats>) -> (r: Option<Outcome>)
        requires
            map.wf(),
            is_state(self),
            map@.contains_key(self.0),
        ensures
            r == (if stats_report_count(map@[self.0].0) > 0 {
                None
            } else {
                Some(Outcome(stats_outcome(map@[self.0].0) as i16))
            }),
    {
        self.stats(map).best_outcome()
    }

    /// The best child of this state together with its stats (see
    /// `stat_best_child`).
    #[verifier::spinoff_prover]
    #[verifier::rlimit(40)]
    pub fn best_child(self, map: &StateMap<StateStats>) -> (r: Option<crate::state_stats::StateAndStats>)
        requires
            map.wf(),
            is_state(self),
            forall|j: int|
                0 <= j < child_keys(self.0).len() ==> map@.contains_key(#[trigger] child_keys(self.0)[j]),
        ensures
            r == (match stat_best_child(map@, self.0) {
                Some(c) => Some(crate::state_stats::StateAndStats(packed(c, map@[c].0))),
                None => None,
            }),
    {
        let children = self.children();
        proof {
            lemma_neighbours_are_states(self.0);
        }
        let ghost cs = child_keys(self.0);
        let ghost scores = cs.map_values(|c: u64| stat_score(map@, c));
        let mut best: Option<State> = None;
        let mut best_outcome: i16 = i16::MAX;
        let mut k: usize = 0;
        while k < children.len()
            invariant
                0 <= k <= children@.len(),
                children@ == as_states(cs),
                cs == child_keys(self.0),
                scores == cs.map_values(|c: u64| stat_score(map@, c)),
                map.wf(),
                forall|j: int| 0 <= j < cs.len() ==> map@.contains_key(#[trigger] cs[j]),
                forall|j: int| 0 <= j < cs.len() ==> #[trigger] cs[j] < STATE_COUNT,
                k == 0 ==> best is None && best_outcome == i16::MAX,
                k > 0 ==> {
                    let m = first_min_index(scores.take(k as int));
                    &&& 0 <= m < k
                    &&& best == Some(State(cs[m]))
                    &&& best_outcome == scores[m]
                },
            decreases children@.len() - k,
        {
            let child = children[k];
            assert(child.0 == cs[k as int]);
            let outcome = match child.outcome(map) {
                Some(o) => o,
                None => Outcome(0),
            };
            proof {
                crate::state_stats::lemma_stats_bounds(map@[cs[k as int]].0);
                assert(outcome.0 == scores[k as int]);
                let t = scores.take(k as int + 1);
                assert(t.drop_last() =~= scores.take(k as int));
                if k > 0 {
                    lemma_first_min_index(scores.take(k as int));
                }
            }
            if outcome.0 < best_outcome {
                best = Some(child);
                best_outcome = outcome.0;
            }
            k = k + 1;
        }
        proof {
            assert(scores.take(cs.len() as int) =~= scores);
        }
        match best {
            Some(b) => {
                let stats = b.stats(map);
                Some(b.with_stats(stats))
            },
            None => None,
        }
    }
}

/// Maps every state of the map to its best child together with the child's
/// stats (see `best_child_entry`), leaving out the states without children.
/// The map must hold every child of each of its states.
/// `on_state_processed` is called with each state of the map, in key order.
pub fn best_child_map(
    map: &StateMap<StateStats>,
    mut on_state_processed: impl FnMut(State),
) -> (r: StateMap<crate::state_stats::StateAndStats>)
    requires
        map.wf(),
        forall|s: State| call_requires(on_state_processed, (s,)),
        map_closed_under_children(map@),
    ensures
        r.wf(),
        forall|k: u64|
            #[trigger] r@.contains_key(k) == (map@.contains_key(k) && best_child_entry(map@, k)
                != 0),
        forall|k: u64|
            #[trigger] r@.contains_key(k) ==> r@[k] == crate::state_stats::StateAndStats(
                best_child_entry(map@, k),
            ),
{
    let mut out: StateMap<crate::state_stats::StateAndStats> = StateMap::empty();
    let entries = map.to_sorted_vec();
    proof {
        map.lemma_sorted_entries();
        map.lemma_bounded();
    }
    let ghost e = entries@;
    let mut i: usize = 0;
    while i < entries.len()
        invariant
            forall|s: State| call_requires(on_state_processed, (s,)),
            0 <= i <= entries@.len(),
            entries@ == e,
            e == map.sorted_entries(),
            map.wf(),
            out.wf(),
            map_closed_under_children(map@),
            forall|j: int| 0 <= j < e.len() ==> map@.contains_key(#[trigger] e[j].0.0),
            forall|a: int, b: int| 0 <= a < b < e.len() ==> e[a].0.0 < e[b].0.0,
            forall|k: u64| #[trigger] map@.contains_key(k) ==> exists|j: int|
                0 <= j < e.len() && e[j].0.0 == k,
            forall|k: u64| #[trigger] map@.contains_key(k) ==> k < STATE_COUNT,
            forall|k: u64|
                #[trigger] out@.contains_key(k) == ((exists|j: int| 0 <= j < i && e[j].0.0 == k)
                    && best_child_entry(map@, k) != 0),
            forall|k: u64|
                #[trigger] out@.contains_key(k) ==> out@[k] == crate::state_stats::StateAndStats(
                    best_child_entry(map@, k),
                ),
        decreases entries@.len() - i,
    {
        let (parent, _) = entries[i];
        assert(map@.contains_key(parent.0));
        assert forall|j: int| 0 <= j < child_keys(parent.0).len() implies map@.contains_key(
            #[trigger] child_keys(parent.0)[j],
        ) by {}
        let best = parent.best_child(map);
        let ghost before = out@;
        match best {
            Some(b) => {
                proof {
                    let cs = child_keys(parent.0);
                    let scores = cs.map_values(|c: u64| stat_score(map@, c));
                    lemma_first_min_index(scores);
                }
                out.add(parent, b);
            },
            None => {},
        }
        proof {
            assert forall|k: u64| #[trigger] out@.contains_key(k) == ((exists|j: int|
                0 <= j < i + 1 && e[j].0.0 == k) && best_child_entry(map@, k) != 0) by {
                if k == parent.0 {
                    assert(e[i as int].0.0 == k);
                } else if exists|j: int| 0 <= j < i + 1 && e[j].0.0 == k {
                    let j = choose|j: int| 0 <= j < i + 1 && e[j].0.0 == k;
                    assert(j < i);
                }
            }
        }
        on_state_processed(parent);
        i = i + 1;
    }
    proof {
        assert forall|k: u64| #[trigger] out@.contains_key(k) == (map@.contains_key(k)
            && best_child_entry(map@, k) != 0) by {
            if map@.contains_key(k) {
                let j = choose|j: int| 0 <= j < e.len() && e[j].0.0 == k;
            }
            if exists|j: int| 0 <= j < i && e[j].0.0 == k {
                let j = choose|j: int| 0 <= j < i && e[j].0.0 == k;
                assert(map@.contains_key(e[j].0.0));
            }
        }
    }
    out
}

} // verus!
