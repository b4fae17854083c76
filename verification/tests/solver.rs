use dobutsu_shogi::backward_pass::{find_by_state, solve};
use dobutsu_shogi::best_child_map::{best_child, best_child_map, find, get_node_outcome};
use dobutsu_shogi::forward_pass::reachable_states;
use dobutsu_shogi::node::{SearchNode, Terminality, INITIAL_NODE};
use dobutsu_shogi::outcome::{Outcome, Player, Progress};
use dobutsu_shogi::prune::prune_assuming_one_player_plays_optimally;
use dobutsu_shogi::stat_solver;
use dobutsu_shogi::state::State;
use dobutsu_shogi::state_key_set;
use dobutsu_shogi::state_map::StateMap;
use dobutsu_shogi::state_stats::StateStats;

/// Sente's chick on b2 faces gote's lion on b3: taking the lion wins at
/// once. Gote's chick is in gote's hand; the other pieces stand as at the
/// start.
fn lion_in_reach() -> SearchNode {
    let chick0: u64 = 0b0_0101_0; // active, on b2
    let chick1: u64 = 0b1_1111_0; // passive, in hand
    let elephant0: u64 = 0b0_0000; // active, on a1
    let elephant1: u64 = 0b1_1110; // passive, on c4
    let giraffe0: u64 = 0b0_0010; // active, on c1
    let giraffe1: u64 = 0b1_1100; // passive, on a4
    let active_lion: u64 = 0b0001; // b1
    let passive_lion: u64 = 0b1001; // b3
    SearchNode(
        (chick0 << 50)
            | (chick1 << 44)
            | (elephant0 << 39)
            | (elephant1 << 34)
            | (giraffe0 << 29)
            | (giraffe1 << 24)
            | (active_lion << 20)
            | (passive_lion << 16),
    )
}

fn stats_of(node: SearchNode) -> (u8, i16) {
    (node.required_child_report_count(), node.best_known_outcome().0)
}

fn state_of(node: SearchNode) -> State {
    State(node.0 >> 16)
}

#[test]
fn the_capture_of_the_lion_is_the_only_terminal_child() {
    let parent = lion_in_reach();
    assert_eq!(parent.terminality(), Terminality::Nonterminal);
    let children = parent.children();
    let terminal: Vec<_> = children.iter().filter(|c| c.is_terminal()).collect();
    assert_eq!(terminal.len(), 1);
    assert_eq!(terminal[0].terminality(), Terminality::Loss);
}

#[test]
fn every_settled_node_reports_to_its_parents_in_the_slice() {
    let parent = lion_in_reach();
    let mut nodes: Vec<SearchNode> = parent.children();
    nodes.push(parent);
    solve(&mut nodes, |_| {});

    let mut reports = 0;
    for node in &nodes {
        if node.required_child_report_count() == 0 && node.is_terminal() {
            let o = node.best_known_outcome().0;
            let seen_from_parent = if o < 0 {
                -o - 1
            } else if o > 0 {
                -o + 1
            } else {
                0
            };
            for p in node.parents() {
                if let Some(i) = find_by_state(&nodes, p.state()) {
                    let heard = nodes[i];
                    assert!(
                        heard.required_child_report_count() == 0
                            || heard.best_known_outcome().0 >= seen_from_parent
                    );
                    reports += 1;
                }
            }
        }
    }
    assert!(reports >= 1);
}

#[test]
fn solving_sorts_and_settles_terminal_nodes() {
    let parent = lion_in_reach();
    let children = parent.children();
    let mut nodes: Vec<SearchNode> = children.iter().rev().copied().collect();
    nodes.push(parent);
    solve(&mut nodes, |_| {});

    for pair in nodes.windows(2) {
        assert!(pair[0].state() <= pair[1].state());
    }
    assert_eq!(nodes.len(), children.len() + 1);

    // The parent heard of the win in one from the capture of the lion,
    // and waits for the other children.
    let i = find_by_state(&nodes, parent.state()).unwrap();
    assert_eq!(stats_of(nodes[i]), ((children.len() - 1) as u8, 200));
    assert_eq!(nodes[i].best_outcome(), None);

    for child in children {
        let j = find_by_state(&nodes, child.state()).unwrap();
        if child.is_terminal() {
            assert_eq!(stats_of(nodes[j]), (0, -201));
            assert_eq!(nodes[j].best_outcome(), Some(Outcome(-201)));
        } else {
            assert_eq!(nodes[j].best_known_outcome().0, -201);
            assert_eq!(
                nodes[j].required_child_report_count(),
                child.total_child_count()
            );
        }
    }
}

#[test]
fn solving_a_won_node_gives_a_win_on_the_spot() {
    let won = SearchNode((INITIAL_NODE & !(0b1111 << 20)) | (0b1100 << 20));
    let mut nodes = vec![won];
    solve(&mut nodes, |_| {});
    assert_eq!(stats_of(nodes[0]), (0, 201));
    assert_eq!(nodes[0].state(), won.state());
}

#[test]
fn finding_a_missing_state_gives_none() {
    let nodes = vec![SearchNode(0x10000), SearchNode(0x30000)];
    assert_eq!(find_by_state(&nodes, 0x10000), Some(0));
    assert_eq!(find_by_state(&nodes, 0x30000), Some(1));
    assert_eq!(find_by_state(&nodes, 0x20000), None);
}

#[test]
fn the_best_child_is_the_capture_of_the_lion() {
    let parent = lion_in_reach();
    let children = parent.children();
    let mut nodes: Vec<SearchNode> = children.clone();
    nodes.push(parent);
    solve(&mut nodes, |_| {});

    let capture = *children.iter().find(|c| c.is_terminal()).unwrap();
    let best = best_child(parent, &nodes).unwrap();
    assert_eq!(best.state(), capture.state());

    assert_eq!(get_node_outcome(capture, &nodes), Some(Outcome(-201)));
    assert_eq!(find(capture, &nodes).state(), capture.state());
    let other = *children.iter().find(|c| !c.is_terminal()).unwrap();
    assert_eq!(get_node_outcome(other, &nodes), None);
}

#[test]
fn a_terminal_node_has_no_best_child() {
    let won = SearchNode((INITIAL_NODE & !(0b1111 << 20)) | (0b1100 << 20));
    let mut nodes = vec![won];
    solve(&mut nodes, |_| {});
    assert_eq!(best_child(won, &nodes), None);
    let map = best_child_map(&nodes);
    assert_eq!(map.get(state_of(won)).0, 0);
    assert!(map.to_sorted_vec().is_empty());
}

#[test]
fn pruning_a_terminal_node_keeps_just_it() {
    let won = SearchNode((INITIAL_NODE & !(0b1111 << 20)) | (0b1100 << 20));
    let mut nodes = vec![won];
    solve(&mut nodes, |_| {});
    for player in [Player::Sente, Player::Gote] {
        let set = prune_assuming_one_player_plays_optimally(won, player, &nodes, |_| {});
        let members = set.into_sorted_vec();
        assert_eq!(members, vec![SearchNode(won.state())]);
    }
}

#[test]
fn a_terminal_node_reaches_only_itself() {
    let lost = SearchNode(INITIAL_NODE | (0b1111 << 20) | 0x1ff);
    let reachable = reachable_states(lost);
    assert_eq!(reachable, vec![SearchNode(lost.state())]);

    let set = stat_solver::reachable_states(state_of(lost), |_| {});
    assert_eq!(set.to_sorted_vec(), vec![state_of(lost)]);
}

#[test]
fn guessed_stats_wait_for_every_child() {
    let parent = lion_in_reach();
    let mut reachable = state_key_set::StateSet::empty();
    reachable.add(state_of(parent));
    let map = stat_solver::initial_stat_map(&reachable, |_| {});
    let stats = map.get(state_of(parent));
    assert_eq!(
        stats.required_child_report_count(),
        parent.children().len() as u8
    );
    assert_eq!(stats.best_known_outcome().0, -201);
    assert_eq!(map.to_sorted_vec().len(), 1);
}

#[test]
fn a_losing_child_settles_its_parent_at_once() {
    let parent = lion_in_reach();
    let children = parent.children();
    let mut reachable = state_key_set::StateSet::empty();
    reachable.add(state_of(parent));
    for child in &children {
        reachable.add(state_of(*child));
    }
    let mut map = stat_solver::initial_stat_map(&reachable, |_| {});
    let mut progress = Progress::default();
    stat_solver::compute_stats(&mut map, &mut progress, |_| false);

    let stats = map.get(state_of(parent));
    assert_eq!(stats.required_child_report_count(), 0);
    assert_eq!(stats.best_known_outcome().0, 200);
    assert_eq!(stats.best_outcome(), Some(Outcome(200)));
    assert_eq!(progress.winning_parent_conclusions, 1);
    assert_eq!(progress.losing_parent_conclusions, 0);
    assert_eq!(progress.queue_pushes, 1);

    let capture = *children.iter().find(|c| c.is_terminal()).unwrap();
    let capture_stats = map.get(state_of(capture));
    assert_eq!(capture_stats.required_child_report_count(), 0);
    assert_eq!(capture_stats.best_known_outcome().0, -201);

    // The parent has a best child: the capture.
    let best = state_of(parent).best_child(&map);
    assert!(best.is_some());
    assert_eq!(best.unwrap().state(), state_of(capture));
    assert_eq!(best.unwrap().stats(), capture_stats);
}

#[test]
fn stats_fields_round_trip() {
    let stats = StateStats::new(Outcome(-7), 42);
    assert_eq!(stats.required_child_report_count(), 42);
    assert_eq!(stats.best_known_outcome(), Outcome(-7));
    assert_eq!(stats.best_outcome(), None);
    let settled = stats.set_required_child_report_count_to_zero();
    assert_eq!(settled.best_outcome(), Some(Outcome(-7)));
    let fewer = stats.decrement_required_child_report_count();
    assert_eq!(fewer.required_child_report_count(), 41);
    // A child that loses in 3 is a win in 4 for the parent.
    let recorded = stats.record_child_outcome(Outcome(-201 + 3));
    assert_eq!(recorded.best_known_outcome(), Outcome(201 - 4));
    // A child's draw is no better than a known win.
    assert_eq!(recorded.record_child_outcome(Outcome(0)), recorded);
    // A null stats value has 127 required child reports.
    assert_eq!(StateStats(0xffff).required_child_report_count(), 127);
}

#[test]
fn a_state_packs_together_with_its_stats() {
    let state = State(0x12_3456_789a);
    let packed = state.with_stats(StateStats(0xbcde));
    assert_eq!(packed.0, 0x12_3456_789a_bcde);
    assert_eq!(packed.state(), state);
    assert_eq!(packed.stats(), StateStats(0xbcde));
}

#[test]
fn the_best_child_map_of_a_solved_map_picks_the_capture() {
    // A map holding a terminal state only has nothing to pick.
    let lost = State((INITIAL_NODE | (0b1111 << 20)) >> 16);
    let mut map: StateMap<StateStats> = StateMap::empty();
    map.add(lost, lost.guess_stats());
    let best = stat_solver::best_child_map(&map, |_| {});
    assert!(best.to_sorted_vec().is_empty());
}

/// Checks, node by node, what solving promises of a slice: a settled
/// nonterminal node has all its children settled, none better for it than
/// its best outcome, and one of them giving it; an unsettled one with
/// children waits for a child that is not settled.
fn check_solved(nodes: &[SearchNode]) {
    let settled = |n: SearchNode| n.is_terminal() || n.required_child_report_count() == 0;
    let seen_from_parent = |o: i16| if o < 0 { -o - 1 } else if o > 0 { -o + 1 } else { 0 };
    for node in nodes {
        if node.is_terminal() {
            continue;
        }
        let children = node.children();
        let found: Vec<Option<SearchNode>> = children
            .iter()
            .map(|c| find_by_state(nodes, c.state()).map(|i| nodes[i]))
            .collect();
        if settled(*node) && !children.is_empty() {
            let best = node.best_known_outcome().0;
            let mut given = false;
            for c in &found {
                let c = c.expect("a settled node heard from every child");
                assert!(settled(c));
                let o = seen_from_parent(c.best_known_outcome().0);
                assert!(best >= o);
                given |= best == o;
            }
            assert!(given);
        } else if !children.is_empty() {
            assert!(found.iter().any(|c| match c {
                Some(c) => !settled(*c),
                None => true,
            }));
        }
    }
}

#[test]
fn a_solved_slice_keeps_what_solving_promises() {
    let parent = lion_in_reach();
    let mut nodes: Vec<SearchNode> = parent.children();
    nodes.push(parent);
    solve(&mut nodes, |_| {});
    check_solved(&nodes);

    let mut lone = vec![SearchNode(INITIAL_NODE)];
    solve(&mut lone, |_| {});
    check_solved(&lone);
}

#[test]
fn the_forward_pass_feeds_the_solver() {
    let won = SearchNode((INITIAL_NODE & !(0b1111 << 20)) | (0b1100 << 20));
    let mut nodes = reachable_states(won);
    assert_eq!(nodes.len(), 1);
    solve(&mut nodes, |_| {});
    check_solved(&nodes);
    assert_eq!(nodes[0].best_outcome(), Some(Outcome(201)));
}

#[test]
fn the_progress_callbacks_see_each_state_once() {
    let lost = SearchNode(INITIAL_NODE | (0b1111 << 20) | 0x1ff);
    let mut seen = vec![];
    let set = stat_solver::reachable_states(state_of(lost), |s| seen.push(s));
    assert_eq!(seen, vec![state_of(lost)]);
    let mut stat_seen = vec![];
    let mut map = stat_solver::initial_stat_map(&set, |s| stat_seen.push(s));
    assert_eq!(stat_seen, vec![state_of(lost)]);
    let mut progress = Progress::default();
    let mut reports = 0;
    stat_solver::compute_stats(&mut map, &mut progress, |_| {
        reports += 1;
        true
    });
    assert_eq!(reports, 1);
    // The callback asked for a reset after the only report.
    assert_eq!(progress.unreachable_parent_visits, 0);
    assert_eq!(progress.queue_pushes, 0);
}
