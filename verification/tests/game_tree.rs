use dobutsu_shogi::node::{NodeBuilder, SearchNode, Terminality, INITIAL_NODE};
use dobutsu_shogi::state::State;

use std::collections::HashSet;

use rand::{Rng, SeedableRng};
use rand_xorshift::XorShiftRng;

/// The number of pseudorandom games each consistency test plays: as many
/// as finish, with room to spare, within the time a test is given here.
const GAME_COUNT: usize = 300_000;

/// The number of games for the tests that visit the parents or children of
/// every state of every game: fewer, so that each finishes within the time
/// a test is given here.
const NEIGHBOUR_GAME_COUNT: usize = 10_000;

fn deterministic_prng() -> XorShiftRng {
    /// Randomly chosen seed
    const PRNG_SEED: [u8; 16] = [
        113, 8, 5, 99, 97, 161, 194, 214, 140, 140, 80, 143, 213, 130, 254, 107,
    ];

    XorShiftRng::from_seed(PRNG_SEED)
}

fn is_terminal(state: State) -> bool {
    state.terminality() != Terminality::Nonterminal
}

/// Pseudorandomly plays `game_count` games and calls `callback`
/// for each state in each game.
///
/// The games are the same for all invocations of `fuzz`.
fn fuzz<F: FnMut(State)>(game_count: usize, mut callback: F) {
    let mut rng = deterministic_prng();

    for _ in 0..game_count {
        let mut state = State::initial();

        callback(state);

        while !is_terminal(state) {
            let children = state.children();

            let selected_child = children[rng.gen_range(0..children.len())];

            callback(selected_child);

            state = selected_child;
        }
    }
}

fn node_of(state: State) -> NodeBuilder {
    NodeBuilder(state.0 << 16)
}

fn parents_of(state: State) -> Vec<State> {
    let mut out = vec![];
    state.visit_parents(&mut out);
    out
}

#[test]
fn allegiance_inversion_is_involutive() {
    fuzz(GAME_COUNT, |state| {
        let state = node_of(state);
        let double_inverted = state.invert_active_player().invert_active_player();
        if state != double_inverted {
            panic!(
                "Allegiance inversion is not involutive.\n\nSTATE:\n\n{:x}\n\nDOUBLE INVERTED:\n\n{:x}",
                state.0, double_inverted.0
            );
        }
    });
}

#[test]
fn every_child_lists_parent() {
    fuzz(NEIGHBOUR_GAME_COUNT, |parent| {
        for child in parent.children() {
            let found_parent = parents_of(child).contains(&parent);
            if !found_parent {
                panic!(
                    "Child did not list parent.\n\nPARENT:\n\n{:x}\n\nCHILD:\n\n{:x}",
                    parent.0, child.0
                );
            }
        }
    });
}

#[test]
fn every_parent_lists_child() {
    fuzz(NEIGHBOUR_GAME_COUNT, |child| {
        for parent in parents_of(child) {
            let found_child = parent.children().contains(&child);
            if !found_child {
                panic!(
                    "Parent did not list child.\n\nCHILD:\n\n{:x}\n\nPARENT:\n\n{:x}",
                    child.0, parent.0
                );
            }
        }
    });
}

#[test]
fn terminality_and_childlessness_are_equivalent() {
    fuzz(GAME_COUNT, |state| {
        let has_child = !state.children().is_empty();

        assert_eq!(is_terminal(state), !has_child);
    });
}

#[test]
fn visited_children_are_unique() {
    fuzz(NEIGHBOUR_GAME_COUNT, |parent| {
        let mut visited = HashSet::new();
        for child in parent.children() {
            if visited.contains(&child.0) {
                panic!(
                    "Visited child twice.\n\nPARENT:\n\n{:x}\n\nCHILD:\n\n{:x}",
                    parent.0, child.0
                );
            }

            visited.insert(child.0);
        }
    });
}

#[test]
fn visited_parents_are_unique() {
    fuzz(NEIGHBOUR_GAME_COUNT, |child| {
        let mut visited = HashSet::new();
        for parent in parents_of(child) {
            if visited.contains(&parent.0) {
                panic!(
                    "Visited parent twice.\n\nCHILD:\n\n{:x}\n\nPARENT:\n\n{:x}",
                    child.0, parent.0
                );
            }

            visited.insert(parent.0);
        }
    });
}

#[test]
fn the_initial_node_has_the_initial_layout() {
    // Sente's chick on b2 facing gote's chick on b3, lions on b1 and b4,
    // elephant and giraffe beside each lion.
    assert_eq!(SearchNode::initial().0, 0x2b_2078_5c1d_0000);
    assert_eq!(SearchNode::initial().0, INITIAL_NODE);
    assert_eq!(State::initial().0, 0x2b_2078_5c1d);
}

#[test]
fn the_initial_position_has_four_moves() {
    // The chick takes the chick, the lion steps diagonally to either side,
    // and the giraffe steps forward; the elephant is blocked.
    assert_eq!(SearchNode::initial().children().len(), 4);
    assert_eq!(State::initial().children().len(), 4);
    assert_eq!(SearchNode::initial().total_child_count(), 4);
}

#[test]
fn the_initial_position_is_not_terminal() {
    assert_eq!(SearchNode::initial().terminality(), Terminality::Nonterminal);
    assert!(!SearchNode::initial().is_terminal());
}

#[test]
fn children_are_seen_by_the_other_player() {
    // Inverting a child gives back a position in which the original active
    // player's pieces are active again, so the parent is among the parents.
    let initial = State::initial();
    for child in initial.children() {
        assert!(parents_of(child).contains(&initial));
        assert_ne!(child, initial);
    }
}

#[test]
fn inverting_the_initial_node_twice_gives_it_back() {
    let node = SearchNode::initial().into_builder();
    let inverted = node.invert_active_player();
    // The initial position is symmetric, so seen by gote it is the same.
    assert_eq!(inverted.build().0, SearchNode::initial().0);
    assert_eq!(inverted.invert_active_player(), node);
}

#[test]
fn a_captured_lion_ends_the_game() {
    // The active lion (bits 20..24) in the hand: the active player has lost.
    let lost = SearchNode(INITIAL_NODE | (0b1111 << 20));
    assert_eq!(lost.terminality(), Terminality::Loss);
    assert!(lost.children().is_empty());
    // The active lion on the last row (row 3): the active player has won.
    let won = SearchNode((INITIAL_NODE & !(0b1111 << 20)) | (0b1100 << 20));
    assert_eq!(won.terminality(), Terminality::Win);
    assert!(won.children().is_empty());
}


#[test]
fn a_position_that_is_not_terminal_can_leave_no_move() {
    // Coordinates are 4 * row + column. The active lion stands on (2, 0),
    // hemmed in by its own chicks on (1, 0) and (1, 1), elephants on (2, 2)
    // and (3, 1) and giraffes on (2, 1) and (3, 0), none of which can move
    // either; the passive lion stands on (0, 2) and no piece is in a hand.
    let node = SearchNode(
        (2u64 << 16)
            | (8u64 << 20)
            | (12u64 << 24)
            | (9u64 << 29)
            | (13u64 << 34)
            | (10u64 << 39)
            | (5u64 << 45)
            | (4u64 << 51),
    );
    assert_eq!(node.terminality(), Terminality::Nonterminal);
    assert!(node.children().is_empty());

    // With the elephant on (3, 1) in the passive player's hand instead, the
    // lion can step there.
    let freed = SearchNode((node.0 & !(15u64 << 34)) | (15u64 << 34) | (1u64 << 38));
    assert_eq!(freed.terminality(), Terminality::Nonterminal);
    assert!(!freed.children().is_empty());
    assert!(!SearchNode::initial().children().is_empty());
}
