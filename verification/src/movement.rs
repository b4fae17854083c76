//! How each species moves, and the squares a piece can move from or to.
use vstd::prelude::*;
use crate::coords::{Coords, CoordVec, board_squares, is_board_square};
use crate::pieces::{Actor, Piece};

verus! {

/// A set of the eight one-step directions. North is toward the passive
/// player's home row.
#[derive(Copy, Clone, Debug)]
pub struct DirectionSet {
    pub n: bool,
    pub ne: bool,
    pub e: bool,
    pub se: bool,
    pub s: bool,
    pub sw: bool,
    pub w: bool,
    pub nw: bool,
}

/// Whether the squares `from` and `to` are one step apart in a direction of
/// `d`.
pub open spec fn connects_spec(d: DirectionSet, from: u64, to: u64) -> bool {
    let fc = (from % 4) as int;
    let fr = (from / 4) as int;
    let tc = (to % 4) as int;
    let tr = (to / 4) as int;
    (d.n && fr + 1 == tr && fc == tc) || (d.ne && fr + 1 == tr && fc + 1 == tc) || (d.e && fr == tr
        && fc + 1 == tc) || (d.se && fr - 1 == tr && fc + 1 == tc) || (d.s && fr - 1 == tr && fc
        == tc) || (d.sw && fr - 1 == tr && fc - 1 == tc) || (d.w && fr == tr && fc - 1 == tc) || (
    d.nw && fr + 1 == tr && fc - 1 == tc)
}

pub open spec fn no_direction() -> DirectionSet {
    DirectionSet { n: false, ne: false, e: false, se: false, s: false, sw: false, w: false, nw: false }
}

/// How a chick moves.
pub open spec fn chick_directions() -> DirectionSet {
    DirectionSet { n: true, ..no_direction() }
}

/// How a hen moves: the cardinal directions and the two forward diagonals.
pub open spec fn hen_directions() -> DirectionSet {
    DirectionSet { n: true, ne: true, e: true, se: false, s: true, sw: false, w: true, nw: true }
}

/// How an elephant moves: the diagonals.
pub open spec fn elephant_directions() -> DirectionSet {
    DirectionSet { n: false, ne: true, e: false, se: true, s: false, sw: true, w: false, nw: true }
}

/// How a giraffe moves: the cardinal directions.
pub open spec fn giraffe_directions() -> DirectionSet {
    DirectionSet { n: true, ne: false, e: true, se: false, s: true, sw: false, w: true, nw: false }
}

/// How a lion moves: every direction.
pub open spec fn lion_directions() -> DirectionSet {
    DirectionSet { n: true, ne: true, e: true, se: true, s: true, sw: true, w: true, nw: true }
}

/// How the actor with code `p` moves, promoted or not.
pub open spec fn directions_of(p: u8, is_promoted: bool) -> DirectionSet {
    if is_promoted {
        if p == 2 || p == 3 {
            hen_directions()
        } else {
            no_direction()
        }
    } else if p == 1 {
        lion_directions()
    } else if p == 2 || p == 3 {
        chick_directions()
    } else if p == 4 || p == 5 {
        elephant_directions()
    } else if p == 6 || p == 7 {
        giraffe_directions()
    } else {
        no_direction()
    }
}

/// Which squares are unknown: where the piece starts, or where it lands.
#[derive(Copy, Clone, Debug)]
pub enum Unknown {
    Start,
    Dest,
}

/// The board squares, in ascending order, from which the actor with code
/// `p` can reach `known` in one move (for `Unknown::Start`), or which it can
/// reach from `known` (for `Unknown::Dest`); none when `known` is not a board
/// square.
pub open spec fn legal_squares_of(p: u8, is_promoted: bool, unknown: Unknown, known: u64) -> Seq<
    u64,
> {
    let d = directions_of(p, is_promoted);
    if is_board_square(known) {
        match unknown {
            Unknown::Start => board_squares().filter(|c: u64| connects_spec(d, c, known)),
            Unknown::Dest => board_squares().filter(|c: u64| connects_spec(d, known, c)),
        }
    } else {
        Seq::empty()
    }
}

impl DirectionSet {
    pub fn empty() -> (r: Self)
        ensures
            r == no_direction(),
    {
        DirectionSet { n: false, ne: false, e: false, se: false, s: false, sw: false, w: false, nw: false }
    }

    pub fn union(self, rhs: Self) -> (r: Self)
        ensures
            r == (DirectionSet {
                n: self.n || rhs.n,
                ne: self.ne || rhs.ne,
                e: self.e || rhs.e,
                se: self.se || rhs.se,
                s: self.s || rhs.s,
                sw: self.sw || rhs.sw,
                w: self.w || rhs.w,
                nw: self.nw || rhs.nw,
            }),
    {
        Self {
            n: self.n || rhs.n,
            ne: self.ne || rhs.ne,
            e: self.e || rhs.e,
            se: self.se || rhs.se,
            s: self.s || rhs.s,
            sw: self.sw || rhs.sw,
            w: self.w || rhs.w,
            nw: self.nw || rhs.nw,
        }
    }

    /// Returns whether there is a way to move from `from` to `to`
    /// by taking one step in some direction contained in this set.
    pub fn connects(self, from: Coords, to: Coords) -> (r: bool)
        requires
            from.0 < 16,
            to.0 < 16,
        ensures
            r == connects_spec(self, from.0 as u64, to.0 as u64),
    {
        let f: u8 = from.0;
        let t: u8 = to.0;
        proof {
            crate::bits::lemma_code_facts(f, 0);
            crate::bits::lemma_code_facts(t, 0);
        }
        let from_column: i8 = (from.0 & 0b11) as i8;
        let from_row: i8 = (from.0 >> 2) as i8;
        let to_column: i8 = (to.0 & 0b11) as i8;
        let to_row: i8 = (to.0 >> 2) as i8;

        (self.n && from_row + 1 == to_row && from_column == to_column) || (self.ne && from_row + 1
            == to_row && from_column + 1 == to_column) || (self.e && from_row == to_row
            && from_column + 1 == to_column) || (self.se && from_row - 1 == to_row && from_column
            + 1 == to_column) || (self.s && from_row - 1 == to_row && from_column == to_column) || (
        self.sw && from_row - 1 == to_row && from_column - 1 == to_column) || (self.w && from_row
            == to_row && from_column - 1 == to_column) || (self.nw && from_row + 1 == to_row
            && from_column - 1 == to_column)
    }
}

fn north() -> (r: DirectionSet)
    ensures
        r == chick_directions(),
{
    DirectionSet { n: true, ..DirectionSet::empty() }
}

fn cardinal() -> (r: DirectionSet)
    ensures
        r == giraffe_directions(),
{
    let n = DirectionSet { n: true, ..DirectionSet::empty() };
    let e = DirectionSet { e: true, ..DirectionSet::empty() };
    let s = DirectionSet { s: true, ..DirectionSet::empty() };
    let w = DirectionSet { w: true, ..DirectionSet::empty() };
    n.union(e).union(s).union(w)
}

fn diagonal() -> (r: DirectionSet)
    ensures
        r == elephant_directions(),
{
    let ne = DirectionSet { ne: true, ..DirectionSet::empty() };
    let se = DirectionSet { se: true, ..DirectionSet::empty() };
    let sw = DirectionSet { sw: true, ..DirectionSet::empty() };
    let nw = DirectionSet { nw: true, ..DirectionSet::empty() };
    ne.union(se).union(sw).union(nw)
}

impl Actor {
    pub fn nonpromoted_dirset(self) -> (r: DirectionSet)
        ensures
            r == directions_of(self.0.0, false),
    {
        let p: u8 = self.0.0;
        if p == 1 {
            cardinal().union(diagonal())
        } else if p == 2 || p == 3 {
            north()
        } else if p == 4 || p == 5 {
            diagonal()
        } else if p == 6 || p == 7 {
            cardinal()
        } else {
            DirectionSet::empty()
        }
    }

    pub fn promoted_dirset(self) -> (r: DirectionSet)
        ensures
            r == directions_of(self.0.0, true),
    {
        let p: u8 = self.0.0;
        if p == 2 || p == 3 {
            let ne = DirectionSet { ne: true, ..DirectionSet::empty() };
            let nw = DirectionSet { nw: true, ..DirectionSet::empty() };
            cardinal().union(ne).union(nw)
        } else {
            DirectionSet::empty()
        }
    }

    /// The board squares from which this actor can reach `known` (for
    /// `Unknown::Start`), or which it can reach from `known` (for
    /// `Unknown::Dest`), found by trying every board square.
    pub fn slowly_compute_legal_squares(self, is_promoted: bool, unknown: Unknown, known: Coords) -> (r:
        CoordVec)
        requires
            known.0 < 16,
        ensures
            r.wf(),
            r@ == (match unknown {
                Unknown::Start => board_squares().filter(
                    |c: u64| connects_spec(directions_of(self.0.0, is_promoted), c, known.0 as u64),
                ),
                Unknown::Dest => board_squares().filter(
                    |c: u64| connects_spec(directions_of(self.0.0, is_promoted), known.0 as u64, c),
                ),
            }),
    {
        let dirset = if is_promoted {
            self.promoted_dirset()
        } else {
            self.nonpromoted_dirset()
        };
        let ghost pred = match unknown {
            Unknown::Start => |c: u64| connects_spec(dirset, c, known.0 as u64),
            Unknown::Dest => |c: u64| connects_spec(dirset, known.0 as u64, c),
        };
        let mut out = CoordVec::empty();
        let mut i: u64 = 0;
        while i < 12
            invariant
                0 <= i <= 12,
                known.0 < 16,
                out.wf(),
                out@ == board_squares().take(i as int).filter(pred),
                out@.len() <= i,
                pred == (match unknown {
                    Unknown::Start => |c: u64| connects_spec(dirset, c, known.0 as u64),
                    Unknown::Dest => |c: u64| connects_spec(dirset, known.0 as u64, c),
                }),
            decreases 12 - i,
        {
            let candidate = Coords((4 * (i / 3) + i % 3) as u8);
            assert(board_squares().take(i as int + 1).drop_last() =~= board_squares().take(
                i as int,
            ));
            reveal(Seq::filter);
            let keep = match unknown {
                Unknown::Start => dirset.connects(candidate, known),
                Unknown::Dest => dirset.connects(known, candidate),
            };
            if keep {
                out = out.push(candidate);
            }
            assert(board_squares().take(i as int + 1).last() == candidate.0);
            i = i + 1;
        }
        assert(board_squares().take(12) =~= board_squares());
        out
    }

    /// The board squares this actor can reach from `start` in one move.
    pub fn legal_dest_squares(self, is_promoted: bool, start: Coords) -> (r: CoordVec)
        requires
            start.0 < 16,
        ensures
            r.wf(),
            r@ == legal_squares_of(self.0.0, is_promoted, Unknown::Dest, start.0 as u64),
    {
        if start.0 < 15 && start.0 % 4 != 3 {
            self.slowly_compute_legal_squares(is_promoted, Unknown::Dest, start)
        } else {
            CoordVec::empty()
        }
    }

    /// The board squares from which this actor can reach `dest` in one move.
    pub fn legal_starting_squares(self, is_promoted: bool, dest: Coords) -> (r: CoordVec)
        requires
            dest.0 < 16,
        ensures
            r.wf(),
            r@ == legal_squares_of(self.0.0, is_promoted, Unknown::Start, dest.0 as u64),
    {
        if dest.0 < 15 && dest.0 % 4 != 3 {
            self.slowly_compute_legal_squares(is_promoted, Unknown::Start, dest)
        } else {
            CoordVec::empty()
        }
    }
}

} // verus!

verus! {

/// What filtering a sequence keeps.
pub proof fn lemma_filter_contains_iff(s: Seq<u64>, pred: spec_fn(u64) -> bool, x: u64)
    ensures
        s.filter(pred).contains(x) <==> (s.contains(x) && pred(x)),
    decreases s.len(),
{
    reveal(Seq::filter);
    if s.len() > 0 {
        lemma_filter_contains_iff(s.drop_last(), pred, x);
        if s.contains(x) && x != s.last() {
            let i = choose|i: int| 0 <= i < s.len() && s[i] == x;
            assert(s.drop_last()[i] == x);
        }
        if s.drop_last().contains(x) {
            let i = choose|i: int| 0 <= i < s.drop_last().len() && s.drop_last()[i] == x;
            assert(s[i] == x);
        }
        if pred(s.last()) {
            let f = s.drop_last().filter(pred);
            assert(f.push(s.last()).last() == s.last());
            if f.contains(x) {
                let i = choose|i: int| 0 <= i < f.len() && f[i] == x;
                assert(f.push(s.last())[i] == x);
            }
            if f.push(s.last()).contains(x) && x != s.last() {
                let i = choose|i: int| 0 <= i < f.len() + 1 && f.push(s.last())[i] == x;
                assert(f[i] == x);
            }
        }
        if x == s.last() {
            assert(s[s.len() - 1] == x);
        }
    }
}

/// Every board square is one of `board_squares()`.
pub proof fn lemma_board_squares_contains(c: u64)
    requires
        is_board_square(c),
    ensures
        board_squares().contains(c),
{
    let i: int = (c / 4) as int * 3 + (c % 4) as int;
    assert(board_squares()[i] == c);
}

/// A piece can move from `a` to `b` exactly when it can reach `b` from `a`:
/// `a` is among the starting squares for `b` if and only if `b` is among the
/// destination squares from `a`.
pub proof fn lemma_legal_squares_are_symmetric(p: u8, is_promoted: bool, a: u64, b: u64)
    requires
        is_board_square(a),
        is_board_square(b),
    ensures
        legal_squares_of(p, is_promoted, Unknown::Start, b).contains(a) <==> legal_squares_of(
            p,
            is_promoted,
            Unknown::Dest,
            a,
        ).contains(b),
{
    let d = directions_of(p, is_promoted);
    lemma_board_squares_contains(a);
    lemma_board_squares_contains(b);
    lemma_filter_contains_iff(board_squares(), |c: u64| connects_spec(d, c, b), a);
    lemma_filter_contains_iff(board_squares(), |c: u64| connects_spec(d, a, c), b);
}

/// The two pieces of one species move alike.
pub proof fn lemma_piece0_and_piece1_move_alike(is_promoted: bool, unknown: Unknown, known: u64)
    ensures
        legal_squares_of(2, is_promoted, unknown, known) == legal_squares_of(
            3,
            is_promoted,
            unknown,
            known,
        ),
        legal_squares_of(4, is_promoted, unknown, known) == legal_squares_of(
            5,
            is_promoted,
            unknown,
            known,
        ),
        legal_squares_of(6, is_promoted, unknown, known) == legal_squares_of(
            7,
            is_promoted,
            unknown,
            known,
        ),
{
}

} // verus!

verus! {

use crate::node::NodeBuilder;
use crate::pieces::{coords_of, is_promoted_in};

impl Actor {
    /// The squares from which this actor could have reached where it stands
    /// in `node`, with its current promotion status.
    pub fn legal_starting_squares_in_state(self, node: NodeBuilder) -> (r: CoordVec)
        ensures
            r.wf(),
            r@ == legal_squares_of(
                self.0.0,
                is_promoted_in(node.0, self.0.0),
                Unknown::Start,
                coords_of(node.0, self.0.0),
            ),
    {
        let is_promoted = self.is_promoted(node);
        let dest = self.coords(node);
        self.legal_starting_squares(is_promoted, dest)
    }
}

} // verus!
