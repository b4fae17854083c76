use dobutsu_shogi::coords::{CoordVec, Coords};
use dobutsu_shogi::pieces::Actor;

#[derive(Clone, Copy, PartialEq, Eq, Debug)]
struct CoordSet(u16);

impl CoordSet {
    const EMPTY: Self = Self(0);

    fn add(self, coords: Coords) -> Self {
        Self(self.0 | (1 << coords.0))
    }

    fn contains(self, coords: Coords) -> bool {
        (self.0 & (1 << coords.0)) != 0
    }
}

fn all_board_squares() -> CoordVec {
    CoordVec::empty()
        .push(Coords(0b0000))
        .push(Coords(0b0001))
        .push(Coords(0b0010))
        .push(Coords(0b0100))
        .push(Coords(0b0101))
        .push(Coords(0b0110))
        .push(Coords(0b1000))
        .push(Coords(0b1001))
        .push(Coords(0b1010))
        .push(Coords(0b1100))
        .push(Coords(0b1101))
        .push(Coords(0b1110))
}

fn elements(mut v: CoordVec) -> Vec<Coords> {
    let mut out = vec![];
    while let Some(c) = v.pop_front() {
        out.push(c);
    }
    out
}

fn into_set(v: CoordVec) -> CoordSet {
    let mut set = CoordSet::EMPTY;
    for coord in elements(v) {
        set = set.add(coord);
    }
    set
}

fn every_start_square_lists_original_square_as_dest_square_for_actor(
    actor: Actor,
    is_promoted: bool,
) {
    for original_square in elements(all_board_squares()) {
        let start_squares = actor.legal_starting_squares(is_promoted, original_square);
        for start_square in elements(start_squares) {
            let dest_squares = into_set(actor.legal_dest_squares(is_promoted, start_square));
            if !dest_squares.contains(original_square) {
                panic!(
                    "When {actor:?} was at {original_square:?}, it listed {start_square:?} as a starting square, but when it was at said starting square (i.e., {start_square:?}), it did not list {original_square:?} as a destination square.",
                );
            }
        }
    }
}

#[test]
fn every_start_square_lists_original_square_as_dest_square() {
    every_start_square_lists_original_square_as_dest_square_for_actor(Actor::lion(), false);
    every_start_square_lists_original_square_as_dest_square_for_actor(Actor::lion(), true);

    every_start_square_lists_original_square_as_dest_square_for_actor(Actor::chick0(), false);
    every_start_square_lists_original_square_as_dest_square_for_actor(Actor::chick0(), true);

    every_start_square_lists_original_square_as_dest_square_for_actor(Actor::chick1(), false);
    every_start_square_lists_original_square_as_dest_square_for_actor(Actor::chick1(), true);

    every_start_square_lists_original_square_as_dest_square_for_actor(Actor::elephant0(), false);
    every_start_square_lists_original_square_as_dest_square_for_actor(Actor::elephant0(), true);

    every_start_square_lists_original_square_as_dest_square_for_actor(Actor::elephant1(), false);
    every_start_square_lists_original_square_as_dest_square_for_actor(Actor::elephant1(), true);

    every_start_square_lists_original_square_as_dest_square_for_actor(Actor::giraffe0(), false);
    every_start_square_lists_original_square_as_dest_square_for_actor(Actor::giraffe0(), true);

    every_start_square_lists_original_square_as_dest_square_for_actor(Actor::giraffe1(), false);
    every_start_square_lists_original_square_as_dest_square_for_actor(Actor::giraffe1(), true);
}

fn every_dest_square_lists_original_square_as_start_square_for_actor(
    actor: Actor,
    is_promoted: bool,
) {
    for original_square in elements(all_board_squares()) {
        let dest_squares = actor.legal_dest_squares(is_promoted, original_square);
        for dest_square in elements(dest_squares) {
            let start_squares = into_set(actor.legal_starting_squares(is_promoted, dest_square));
            if !start_squares.contains(original_square) {
                panic!(
                    "When {actor:?} was at {original_square:?}, it listed {dest_square:?} as a destination square, but when it was at said destination square (i.e., {dest_square:?}), it did not list {original_square:?} as a starting square.",
                );
            }
        }
    }
}

#[test]
fn every_dest_square_lists_original_square_as_start_square() {
    every_dest_square_lists_original_square_as_start_square_for_actor(Actor::lion(), false);
    every_dest_square_lists_original_square_as_start_square_for_actor(Actor::lion(), true);

    every_dest_square_lists_original_square_as_start_square_for_actor(Actor::chick0(), false);
    every_dest_square_lists_original_square_as_start_square_for_actor(Actor::chick0(), true);

    every_dest_square_lists_original_square_as_start_square_for_actor(Actor::chick1(), false);
    every_dest_square_lists_original_square_as_start_square_for_actor(Actor::chick1(), true);

    every_dest_square_lists_original_square_as_start_square_for_actor(Actor::elephant0(), false);
    every_dest_square_lists_original_square_as_start_square_for_actor(Actor::elephant0(), true);

    every_dest_square_lists_original_square_as_start_square_for_actor(Actor::elephant1(), false);
    every_dest_square_lists_original_square_as_start_square_for_actor(Actor::elephant1(), true);

    every_dest_square_lists_original_square_as_start_square_for_actor(Actor::giraffe0(), false);
    every_dest_square_lists_original_square_as_start_square_for_actor(Actor::giraffe0(), true);

    every_dest_square_lists_original_square_as_start_square_for_actor(Actor::giraffe1(), false);
    every_dest_square_lists_original_square_as_start_square_for_actor(Actor::giraffe1(), true);
}

#[test]
fn piece0_and_piece1_have_the_same_set_of_moves() {
    let r0c0 = Coords(0b0000);
    for (actor0, actor1) in [
        (Actor::chick0(), Actor::chick1()),
        (Actor::elephant0(), Actor::elephant1()),
        (Actor::giraffe0(), Actor::giraffe1()),
    ] {
        let actor0_nonpromoted = into_set(actor0.legal_dest_squares(false, r0c0));
        let actor0_promoted = into_set(actor0.legal_dest_squares(true, r0c0));
        let actor1_nonpromoted = into_set(actor1.legal_dest_squares(false, r0c0));
        let actor1_promoted = into_set(actor1.legal_dest_squares(true, r0c0));

        assert_eq!(actor0_nonpromoted, actor1_nonpromoted);
        assert_eq!(actor0_promoted, actor1_promoted);
    }
}
