use dobutsu_shogi::coords::{CoordVec, Coords};
use dobutsu_shogi::node::NodeBuilder;
use dobutsu_shogi::pieces::Actor;
use dobutsu_shogi::pretty::{BoardWithPromotionData, Pretty};
use dobutsu_shogi::state::State;

const GAP: &str = "                ";

/// The hands and the board of a position, framed beside the view of the
/// other player, as the solver's text output lays them out.
fn show_builder(builder: NodeBuilder) -> String {
    let hands = builder.hands();
    let h = Pretty(hands).into_array();
    let i_h = Pretty(hands).invert().into_array();
    let board = BoardWithPromotionData {
        board: builder.board(),
        is_chick0_promoted: Actor::chick0().is_promoted(builder),
        is_chick1_promoted: Actor::chick1().is_promoted(builder),
    };
    let r = Pretty(board).into_array();
    let i = Pretty(board).invert().into_array();
    let mut out = format!(
        "|===|{GAP}|===|\n|{}{}{}|{GAP}|{}{}{}|\n|{}{}{}|{GAP}|{}{}{}|\n|===|{GAP}|===|\n|---|{GAP}|---|",
        h[0], h[1], h[2], i_h[0], i_h[1], i_h[2], h[3], h[4], h[5], i_h[3], i_h[4], i_h[5],
    );
    for row in (0..4).rev() {
        out += &format!(
            "\n|{}{}{}|{GAP}|{}{}{}|",
            r[row][0], r[row][1], r[row][2], i[row][0], i[row][1], i[row][2]
        );
    }
    out += &format!("\n|---|{GAP}|---|");
    out
}

fn show_state(state: State) -> String {
    show_builder(state.into_builder())
}

fn indented(s: &str, spaces: usize) -> String {
    let indent = " ".repeat(spaces);
    let mut out = String::new();
    for line in s.split_inclusive('\n') {
        out += &indent;
        out += line;
    }
    out
}

fn show_states(states: &[State]) -> String {
    let divider = "=".repeat("|---|".len() * 2 + GAP.len());
    let mut out = format!("SearchNodeSet(len = {}) [\n", states.len());
    for (i, state) in states.iter().enumerate() {
        out += &indented(&format!("{i}:\n{}\n{divider}\n", show_state(*state)), 4);
    }
    out.push(']');
    out
}

/// The expected text of a position: the two hands of six slots each (the
/// player to move first, then the other), and the four rows of the board
/// from the far row down, for the player to move and for the other player.
fn expected(hand: &str, other_hand: &str, rows: [&str; 4], other_rows: [&str; 4]) -> String {
    let (h0, h1) = hand.split_at(3);
    let (i0, i1) = other_hand.split_at(3);
    let mut out = format!("|===|{GAP}|===|\n|{h0}|{GAP}|{i0}|\n|{h1}|{GAP}|{i1}|\n|===|{GAP}|===|\n|---|{GAP}|---|");
    for k in 0..4 {
        out += &format!("\n|{}|{GAP}|{}|", rows[k], other_rows[k]);
    }
    out += &format!("\n|---|{GAP}|---|");
    out
}

fn expected_list(items: &[String]) -> String {
    let divider = "=".repeat(26);
    let mut out = format!("SearchNodeSet(len = {}) [\n", items.len());
    for (i, item) in items.iter().enumerate() {
        out += &indented(&format!("{i}:\n{item}\n{divider}\n"), 4);
    }
    out.push(']');
    out
}

fn initial_text() -> String {
    let rows = ["GLE", "*C*", "*c*", "elg"];
    expected("......", "......", rows, rows)
}

fn initial_children_texts() -> Vec<String> {
    vec![
        expected("......", "......", ["G*E", "*CL", "*c*", "elg"], ["GLE", "*C*", "lc*", "e*g"]),
        expected("......", "......", ["G*E", "LC*", "*c*", "elg"], ["GLE", "*C*", "*cl", "e*g"]),
        expected("C.....", "c.....", ["GLE", "***", "*C*", "elg"], ["GLE", "*c*", "***", "elg"]),
        expected("......", "......", ["*LE", "GC*", "*c*", "elg"], ["GLE", "*C*", "*cg", "el*"]),
    ]
}

#[test]
fn initial_state_is_correct() {
    assert_eq!(show_state(State::initial()), initial_text());
}

#[test]
fn initial_state_allegiance_inversion_is_correct() {
    let inverted = State::initial().into_builder().invert_active_player();
    assert_eq!(show_builder(inverted), initial_text());
}

#[test]
fn initial_state_partially_built_is_correct() {
    let built = State::initial().into_builder().build().into_builder();
    assert_eq!(show_builder(built), initial_text());
}

#[test]
fn initial_state_allegiance_inverted_partially_built_is_correct() {
    let built = State::initial()
        .into_builder()
        .invert_active_player()
        .build()
        .into_builder();
    assert_eq!(show_builder(built), initial_text());
}

#[test]
fn initial_state_children_are_correct() {
    let children = State::initial().children();
    assert_eq!(show_states(&children), expected_list(&initial_children_texts()));
}

#[test]
fn initial_state_child0_children_are_correct() {
    let child0 = State::initial().children()[0];
    let text = format!(
        "parent:\n{}\n\nchildren:\n{}",
        show_state(child0),
        show_states(&child0.children())
    );
    let grandchildren = vec![
        expected("......", "......", ["G*E", "*CL", "lc*", "e*g"], ["G*E", "*CL", "lc*", "e*g"]),
        expected("......", "......", ["G*E", "LC*", "lc*", "e*g"], ["G*E", "*CL", "*cl", "e*g"]),
        expected("C.....", "c.....", ["GLE", "***", "lC*", "e*g"], ["G*E", "*cL", "***", "elg"]),
        expected("......", "......", ["*LE", "GC*", "lc*", "e*g"], ["G*E", "*CL", "*cg", "el*"]),
    ];
    let want = format!(
        "parent:\n{}\n\nchildren:\n{}",
        initial_children_texts()[0],
        expected_list(&grandchildren)
    );
    assert_eq!(text, want);
}

fn elements(mut v: CoordVec) -> Vec<Coords> {
    let mut out = vec![];
    while let Some(c) = v.pop_front() {
        out.push(c);
    }
    out
}

/// The one-step moves of each kind of piece, as (row, column) steps; north
/// is toward the other player.
fn steps(kind: char) -> Vec<(i8, i8)> {
    match kind {
        'c' => vec![(1, 0)],
        'h' => vec![(1, -1), (1, 0), (1, 1), (0, -1), (0, 1), (-1, 0)],
        'e' => vec![(1, -1), (1, 1), (-1, -1), (-1, 1)],
        'g' => vec![(1, 0), (-1, 0), (0, -1), (0, 1)],
        'l' => vec![
            (1, -1),
            (1, 0),
            (1, 1),
            (0, -1),
            (0, 1),
            (-1, -1),
            (-1, 0),
            (-1, 1),
        ],
        _ => vec![],
    }
}

fn show_dest_board(kind: char, start: u8, dests: &[Coords]) -> String {
    let mut board = ['.'; 16];
    board[start as usize] = kind;
    for d in dests {
        board[d.0 as usize] = 'X';
    }
    let mut out = String::from("|---|\n");
    for row in (0..4).rev() {
        out += &format!("|{}{}{}|\n", board[4 * row], board[4 * row + 1], board[4 * row + 2]);
    }
    out += "|---|\n\n";
    out
}

fn expected_dests(kind: char, start: u8) -> Vec<Coords> {
    let (row, col) = ((start / 4) as i8, (start % 4) as i8);
    let mut out: Vec<Coords> = steps(kind)
        .into_iter()
        .map(|(dr, dc)| (row + dr, col + dc))
        .filter(|&(r, c)| (0..4).contains(&r) && (0..3).contains(&c))
        .map(|(r, c)| Coords((4 * r + c) as u8))
        .collect();
    out.sort_by_key(|c| c.0);
    out
}

#[test]
fn test_piece0_legal_destination_square_snapshots() {
    let squares: Vec<u8> = (0..15).filter(|c| c % 4 != 3).collect();
    let mut got = String::new();
    let mut want = String::new();
    for (actor, kind, promoted_kind) in [
        (Actor::chick0(), 'c', Some('h')),
        (Actor::lion(), 'l', None),
        (Actor::elephant0(), 'e', None),
        (Actor::giraffe0(), 'g', None),
    ] {
        for &start in &squares {
            let dests = elements(actor.legal_dest_squares(false, Coords(start)));
            got += &show_dest_board(kind, start, &dests);
            want += &show_dest_board(kind, start, &expected_dests(kind, start));
        }
        for &start in &squares {
            let dests = elements(actor.legal_dest_squares(true, Coords(start)));
            match promoted_kind {
                Some(p) => {
                    got += &show_dest_board(kind, start, &dests);
                    want += &show_dest_board(kind, start, &expected_dests(p, start));
                }
                None => assert!(dests.is_empty()),
            }
        }
    }
    assert_eq!(got, want);
}
