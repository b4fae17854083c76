use dobutsu_shogi::coords::Board;
use dobutsu_shogi::inspector::{apply_command, Command, InspectorEvent};
use dobutsu_shogi::node::{NodeBuilder, SearchNode, INITIAL_NODE};
use dobutsu_shogi::outcome::Outcome;
use dobutsu_shogi::pretty::{indented, BoardWithPromotionData, Hand, Hands, IntoPretty, Pretty};
use dobutsu_shogi::service::{BufferAddress, DobutsuShogiService, ServiceError};
use dobutsu_shogi::solution_file::{
    packet_maximums, simple_db_packets, solution_from_bytes, solution_to_bytes,
};
use dobutsu_shogi::state::State;
use dobutsu_shogi::state_map::StateMap;
use dobutsu_shogi::state_stats::{StateAndStats, StateStats};

fn parse(s: &str) -> Result<Command, ()> {
    Command::parse(s)
}

#[test]
fn commands_are_read_after_trimming() {
    assert!(matches!(parse("help"), Ok(Command::Help)));
    assert!(matches!(parse("  parent\n"), Ok(Command::Parent)));
    assert!(matches!(parse("child 3"), Ok(Command::Child(3))));
    assert!(matches!(parse("\tchild 12 \r\n"), Ok(Command::Child(12))));
    assert!(matches!(parse("child +7"), Ok(Command::Child(7))));
    assert!(matches!(parse("\u{3000}help\u{a0}"), Ok(Command::Help)));
}

#[test]
fn malformed_commands_are_refused() {
    assert!(parse("").is_err());
    assert!(parse("Help").is_err());
    assert!(parse("child").is_err());
    assert!(parse("child ").is_err());
    assert!(parse("child -1").is_err());
    assert!(parse("child +").is_err());
    assert!(parse("child 1x").is_err());
    assert!(parse("child  1").is_err());
    assert!(parse("children").is_err());
    assert!(parse("child 99999999999999999999999999").is_err());
    assert!(matches!(
        parse("child 18446744073709551615"),
        Ok(Command::Child(18446744073709551615))
    ));
}

fn initial_solution() -> StateMap<StateAndStats> {
    // The initial state's best child is its first child, settled as a
    // loss in 3 for the player to move there.
    let initial = State::initial();
    let child = initial.children()[0];
    let mut solution = StateMap::empty();
    solution.add(
        initial,
        child.with_stats(StateStats::new(Outcome(-201 + 3), 0)),
    );
    solution
}

#[test]
fn the_best_outcome_follows_the_best_child() {
    let solution = initial_solution();
    let initial = State::initial();
    // A loss in 3 for the child is a win in 4 for the parent.
    assert_eq!(initial.best_outcome(&solution), Outcome(201 - 4));
    assert_eq!(initial.best_child_index(&solution), Some(0));

    let lost = State((INITIAL_NODE | (0b1111 << 20)) >> 16);
    assert_eq!(lost.best_outcome(&solution), Outcome(-201));
    assert_eq!(lost.best_child_index(&solution), None);
}

#[test]
fn an_unsettled_best_child_means_a_draw() {
    let initial = State::initial();
    let child = initial.children()[1];
    let mut solution = StateMap::empty();
    solution.add(initial, child.with_stats(StateStats::new(Outcome(5), 3)));
    assert_eq!(initial.best_outcome(&solution), Outcome(0));
    assert_eq!(initial.best_child_index(&solution), Some(1));
}

#[test]
fn the_inspector_walks_the_tree() {
    let solution = initial_solution();
    let initial = State::initial();
    let mut history = vec![(initial, initial.best_outcome(&solution))];

    assert_eq!(
        apply_command(&mut history, Command::Help, &solution),
        InspectorEvent::ShowedHelp
    );
    assert_eq!(
        apply_command(&mut history, Command::Parent, &solution),
        InspectorEvent::AlreadyAtInitialState
    );
    assert_eq!(
        apply_command(&mut history, Command::Child(4), &solution),
        InspectorEvent::InvalidChildIndex
    );
    // The children have no best child in this solution.
    assert_eq!(
        apply_command(&mut history, Command::Child(0), &solution),
        InspectorEvent::MissingBestChild
    );
    assert_eq!(history.len(), 1);

    let mut solution = solution;
    let child = initial.children()[2];
    let grandchild = child.children()[0];
    solution.add(child, grandchild.with_stats(StateStats::new(Outcome(0), 0)));
    assert_eq!(
        apply_command(&mut history, Command::Child(2), &solution),
        InspectorEvent::WentToChild
    );
    assert_eq!(history.len(), 2);
    assert_eq!(history[1], (child, Outcome(0)));
    assert_eq!(
        apply_command(&mut history, Command::Parent, &solution),
        InspectorEvent::WentToParent
    );
    assert_eq!(history.len(), 1);
}

#[test]
fn the_service_writes_states_and_children() {
    let mut service = DobutsuShogiService::new(10);
    assert_eq!(service.buffer(), &[0u8; 80][..]);
    let initial = service.write_initial_state().unwrap();
    assert_eq!(initial, BufferAddress(0));
    assert_eq!(service.cursor(), BufferAddress(8));
    assert_eq!(&service.buffer()[0..8], &(INITIAL_NODE >> 16).to_le_bytes()[..]);
    assert_eq!(service.read_state(initial), Ok(State(INITIAL_NODE >> 16)));
    assert_eq!(
        service.read_state(BufferAddress(76)),
        Err(ServiceError::AddressOutOfRange)
    );

    // A state without children (its lion was captured): only the number
    // zero follows.
    service.clear();
    let lost = State((INITIAL_NODE | (0b1111 << 20)) >> 16);
    assert!(lost.children().is_empty());
    let address = service.write_state(lost).unwrap();
    assert_eq!(address, BufferAddress(0));
    let children = service.write_children(address).unwrap();
    assert_eq!(children, BufferAddress(8));
    assert_eq!(&service.buffer()[0..8], &lost.0.to_le_bytes()[..]);
    assert_eq!(&service.buffer()[8..16], &0u64.to_le_bytes()[..]);
    assert_eq!(service.cursor(), BufferAddress(16));

    service.clear();
    assert_eq!(service.cursor(), BufferAddress(0));
}

#[test]
fn the_service_has_no_room_for_the_children_of_the_initial_state() {
    let mut service = DobutsuShogiService::new(2);
    let initial = service.write_initial_state().unwrap();
    assert_eq!(State::initial().children().len(), 4);
    assert_eq!(
        service.write_children(initial),
        Err(ServiceError::BufferOverflow(16))
    );
    assert_eq!(service.cursor(), BufferAddress(8));
    assert_eq!(&service.buffer()[8..16], &[0u8; 8][..]);
}

#[test]
fn a_full_service_refuses_to_write() {
    let mut service = DobutsuShogiService::new(1);
    assert!(service.write_initial_state().is_ok());
    assert_eq!(
        service.write_state(State(1)),
        Err(ServiceError::BufferOverflow(8))
    );
}

#[test]
fn the_service_refuses_a_parent_that_is_not_a_state() {
    let mut service = DobutsuShogiService::new(20);
    let address = service.write_state(State(1 << 40)).unwrap();
    assert_eq!(
        service.write_children(address),
        Err(ServiceError::NotAState)
    );
}

fn sample_solution() -> StateMap<StateAndStats> {
    let mut solution = StateMap::empty();
    solution.add(State(5), StateAndStats(0x1234));
    solution.add(State(2), StateAndStats(0xabcd_0000_0001));
    solution
}

#[test]
fn a_solution_file_reads_back_the_same() {
    let solution = sample_solution();
    let bytes = solution_to_bytes(&solution);
    assert_eq!(bytes.len(), 32);
    assert_eq!(&bytes[0..8], &2u64.to_le_bytes()[..]);
    assert_eq!(&bytes[8..16], &0xabcd_0000_0001u64.to_le_bytes()[..]);
    assert_eq!(&bytes[16..24], &5u64.to_le_bytes()[..]);
    assert_eq!(&bytes[24..32], &0x1234u64.to_le_bytes()[..]);

    let read = solution_from_bytes(&bytes).unwrap();
    assert_eq!(read.to_sorted_vec(), solution.to_sorted_vec());
}

#[test]
fn malformed_solution_files_are_refused() {
    let bytes = solution_to_bytes(&sample_solution());
    assert_eq!(
        solution_from_bytes(&bytes[..31]).unwrap().to_sorted_vec(),
        sample_solution().to_sorted_vec()
    );
    // The last record, cut short, reads a zero value, which takes state 5 out.
    let cut = solution_from_bytes(&bytes[..20]).unwrap().to_sorted_vec();
    assert_eq!(cut.len(), 1);
    assert_eq!(cut[0].0 .0, 2);
    let mut bad = bytes.clone();
    bad[5] = 1; // state 2 + 2^40
    assert!(solution_from_bytes(&bad).is_none());
    assert!(solution_from_bytes(&[]).unwrap().to_sorted_vec().is_empty());
}

#[test]
fn the_simple_database_holds_packets_of_1024() {
    let mut solution = StateMap::empty();
    for i in 0..1025u64 {
        solution.add(State(0x01_0203_0400 + i), StateAndStats(i + 1));
    }
    let packets = simple_db_packets(&solution);
    assert_eq!(packets.len(), 2);
    assert_eq!(packets[0].bytes.len(), 8 * 1024);
    assert_eq!(packets[0].last_parent, State(0x01_0203_0400 + 1023));
    assert_eq!(&packets[0].bytes[0..8], &1u64.to_le_bytes()[..]);
    assert_eq!(packets[1].bytes, 1025u64.to_le_bytes().to_vec());
    assert_eq!(packets[1].last_parent, State(0x01_0203_0400 + 1024));

    let maximums = packet_maximums(&packets);
    assert_eq!(
        maximums,
        vec![0xff, 0x07, 0x03, 0x02, 0x01, 0x00, 0x08, 0x03, 0x02, 0x01]
    );
}

#[test]
fn the_initial_board_reads_as_characters() {
    let node = NodeBuilder(INITIAL_NODE);
    let data = BoardWithPromotionData {
        board: node.board(),
        is_chick0_promoted: false,
        is_chick1_promoted: false,
    };
    let rows = data.pretty().into_array();
    assert_eq!(
        rows,
        vec![
            vec!['e', 'l', 'g'],
            vec!['*', 'c', '*'],
            vec!['*', 'C', '*'],
            vec!['G', 'L', 'E'],
        ]
    );
    // The start is the same for both players.
    let inverted = data.pretty().invert().into_array();
    assert_eq!(inverted, rows);
    assert_eq!(data.pretty().char_at_offset(4 * 5), 'c');
}

#[test]
fn hens_are_shown_as_hens() {
    let board = Board(0b1_010 << (4 * 9) | 0b0_011 << (4 * 5));
    let data = BoardWithPromotionData {
        board,
        is_chick0_promoted: true,
        is_chick1_promoted: false,
    };
    let pretty = Pretty(data);
    assert_eq!(pretty.char_at_offset(4 * 9), 'H');
    assert_eq!(pretty.char_at_offset(4 * 5), 'c');
    assert_eq!(pretty.char_at_offset(4 * 3), '*');
    let inverted = Board(board.0).invert_active_player();
    // b3 (square 9) goes to b2 (square 5) and the other way round.
    assert_eq!((inverted.0 >> (4 * 5)) & 0b1111, 0b0_010);
    assert_eq!((inverted.0 >> (4 * 9)) & 0b1111, 0b1_011);
}

#[test]
fn hands_are_listed_in_order() {
    let start = NodeBuilder(INITIAL_NODE).hands();
    assert_eq!(
        start,
        Hands { active: Hand::empty(), passive: Hand::empty() }
    );
    assert_eq!(start.pretty().into_array(), vec!['.'; 6]);

    let hands = Hands {
        active: Hand { lion: 1, chick: 0, elephant: 1, giraffe: 0 },
        passive: Hand { lion: 0, chick: 2, elephant: 0, giraffe: 1 },
    };
    assert_eq!(
        Pretty(hands).into_array(),
        vec!['l', 'e', 'C', 'C', 'G', '.']
    );
    assert_eq!(
        Pretty(hands).invert().into_array(),
        vec!['c', 'c', 'g', 'L', 'E', '.']
    );
}

#[test]
fn a_lion_in_the_hand_belongs_to_the_other_player() {
    // The passive lion captured: it is in the active player's hand.
    let node = NodeBuilder(INITIAL_NODE | (0b1111 << 16));
    let hands = node.hands();
    assert_eq!(hands.active.lion, 1);
    assert_eq!(hands.passive.lion, 0);
}

#[test]
fn text_is_indented_line_by_line() {
    let text: Vec<char> = "ab\n\ncd\n".chars().collect();
    let out: String = indented(&text, 2).into_iter().collect();
    assert_eq!(out, "  ab\n  \n  cd\n");
    let out: String = indented(&"x".chars().collect(), 3).into_iter().collect();
    assert_eq!(out, "   x");
    assert!(indented(&vec![], 4).is_empty());
}

#[test]
fn states_and_nodes_are_shown_as_themselves() {
    assert_eq!(State(7).pretty().0, State(7));
    assert_eq!(SearchNode(9).pretty().0, SearchNode(9));
    assert_eq!(Outcome(3).pretty().0, Outcome(3));
}

#[test]
fn packets_go_a_thousand_to_a_directory() {
    assert_eq!(dobutsu_shogi::solution_file::packet_location(123456), (123, 456));
    assert_eq!(dobutsu_shogi::solution_file::packet_location(7), (0, 7));
}
