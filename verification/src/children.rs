//! The children of a node: the nodes that the active player's legal moves
//! and drops lead to, seen by the other player.
use vstd::prelude::*;
use crate::bits::{field, lemma_field_bounds, with_field};
use crate::coords::{Board, Coords, CoordVec, board_squares, empty_squares_of, is_board_square, square_of};
use crate::lineage::{co, is_valid, lemma_captured_parts};
use crate::movement::{Unknown, connects_spec, directions_of, legal_squares_of};
use crate::node::{
    NodeBuilder, OptionalNodeBuilder, SearchNode, board_of, built, inverted, is_terminal_node,
    lemma_board_square_has_piece,
};
use crate::pieces::{
    Actor, coords_of, is_active_in, is_passive_in, is_promoted_in, moved_and_promoted, with_coords,
};

verus! {

/// Bit position of the coordinates of the passive piece with square code
/// `o` (`1` for the passive lion).
pub open spec fn capture_offset_of(o: u64) -> u64 {
    if o == 1 {
        16
    } else if o == 2 {
        51
    } else if o == 3 {
        45
    } else if o == 4 {
        39
    } else if o == 5 {
        34
    } else if o == 6 {
        29
    } else {
        24
    }
}

/// `x` with the passive piece with square code `o` captured: moved to the
/// hand, handed over to the active player unless it is the lion, and demoted
/// if it is a hen.
pub open spec fn captured(x: u64, o: u64) -> u64 {
    let off = capture_offset_of(o);
    let in_hand = with_field(x, off, 15, 15);
    let handed_over = if o != 1 {
        with_field(in_hand, (off + 4) as u64, 1, 0)
    } else {
        in_hand
    };
    if o == 2 || o == 3 {
        with_field(handed_over, (off - 1) as u64, 1, 0)
    } else {
        handed_over
    }
}

/// The node after the active player's piece lands on `dest` of board `b`, as
/// far as the occupant of `dest` is concerned: unchanged for an empty square,
/// the occupant captured for a passive piece, and `0` (no move) for an active
/// piece.
pub open spec fn vacated(x: u64, b: u64, dest: u64) -> u64 {
    let sq = field(b, (4 * dest) as u64, 15);
    if sq == 0 {
        x
    } else if sq & 8 == 0 {
        0
    } else {
        captured(x, sq & 7)
    }
}

/// The child reached by dropping the actor with code `p` on `d`.
pub open spec fn drop_child(x: u64, p: u8, d: u64) -> u64 {
    built(inverted(with_coords(x, p, d)))
}

/// The child reached by moving the actor with code `p` to `d` once the
/// occupant of `d` has been dealt with (node `y`).
pub open spec fn move_child(y: u64, p: u8, d: u64) -> u64 {
    built(inverted(moved_and_promoted(y, p, d)))
}

/// The second piece of a species is not dropped while the first piece is
/// also in the active hand: both drops would lead to the same children.
pub open spec fn drop_is_duplicate(x: u64, p: u8) -> bool {
    let p0: u8 = if p == 3 {
        2
    } else if p == 5 {
        4
    } else if p == 7 {
        6
    } else {
        p
    };
    (p == 3 || p == 5 || p == 7) && is_active_in(x, p0) && coords_of(x, p0) == 15
}

/// The children that the actor with code `p` leads to, in the order of the
/// squares it lands on.
pub open spec fn actor_children(x: u64, p: u8) -> Seq<u64> {
    let b = board_of(x);
    if is_passive_in(x, p) {
        Seq::empty()
    } else if coords_of(x, p) == 15 {
        if drop_is_duplicate(x, p) {
            Seq::empty()
        } else {
            empty_squares_of(b).map_values(|d: u64| drop_child(x, p, d))
        }
    } else {
        legal_squares_of(p, is_promoted_in(x, p), Unknown::Dest, coords_of(x, p)).filter(
            |d: u64| vacated(x, b, d) != 0,
        ).map_values(|d: u64| move_child(vacated(x, b, d), p, d))
    }
}

/// The children of node `x`: none for a terminal node; otherwise the
/// children of the lion, chick0, chick1, elephant0, elephant1, giraffe0 and
/// giraffe1, in that order.
pub open spec fn children_of(x: u64) -> Seq<u64> {
    if is_terminal_node(x) {
        Seq::empty()
    } else {
        actor_children(x, 1) + actor_children(x, 2) + actor_children(x, 3) + actor_children(x, 4)
            + actor_children(x, 5) + actor_children(x, 6) + actor_children(x, 7)
    }
}

/// The nodes as search nodes.
pub open spec fn as_search_nodes(s: Seq<u64>) -> Seq<SearchNode> {
    s.map_values(|v: u64| SearchNode(v))
}

pub proof fn lemma_as_search_nodes_add(a: Seq<u64>, b: Seq<u64>)
    ensures
        as_search_nodes(a + b) == as_search_nodes(a) + as_search_nodes(b),
{
    assert(as_search_nodes(a + b) =~= as_search_nodes(a) + as_search_nodes(b));
}

/// Appending the search nodes of `a` and then those of `b` appends those of
/// `a + b`.
pub proof fn lemma_append_search_nodes(o: Seq<SearchNode>, a: Seq<u64>, b: Seq<u64>)
    ensures
        o + as_search_nodes(a) + as_search_nodes(b) == o + as_search_nodes(a + b),
{
    lemma_as_search_nodes_add(a, b);
    assert(o + as_search_nodes(a) + as_search_nodes(b) =~= o + (as_search_nodes(a)
        + as_search_nodes(b)));
}

/// What the masks of a capture do to the bits of a node.
proof fn lemma_capture_bits(x: u64, y: u64, z: u64, off: u64, occupant: u64)
    by (bit_vector)
    requires
        1 <= off <= 51,
    ensures
        (occupant & !1u64 == 2) == (occupant == 2 || occupant == 3),
        x | (15u64 << off) == (x & !(15u64 << off)) | (15u64 << off),
        y & !(1u64 << ((off + 4) as u64)) == (y & !(1u64 << ((off + 4) as u64))) | (0u64 << ((off
            + 4) as u64)),
        z & !(1u64 << ((off - 1) as u64)) == (z & !(1u64 << ((off - 1) as u64))) | (0u64 << ((off
            - 1) as u64)),
        z & !(0u64 << ((off - 1) as u64)) == z,
        y & !(0u64 << ((off + 4) as u64)) & !(0u64 << ((off - 1) as u64)) == y,
{
}

fn capture_offset_for(o: u64) -> (r: u64)
    ensures
        r == capture_offset_of(o),
{
    if o == 1 {
        16
    } else if o == 2 {
        51
    } else if o == 3 {
        45
    } else if o == 4 {
        39
    } else if o == 5 {
        34
    } else if o == 6 {
        29
    } else {
        24
    }
}

impl NodeBuilder {
    /// - If the destination square is empty, this returns the original state.
    /// - If the destination square is occupied by a passive piece,
    ///   this returns the state with the passive piece moved to the active player's hand.
    /// - If the destination square is occupied by an active piece,
    ///   this returns `OptionalNodeBuilder::none()`.
    pub fn vacate_passive(self, dest: Coords, board: Board) -> (r: OptionalNodeBuilder)
        requires
            dest.0 < 16,
            field(board.0, (4 * dest.0) as u64, 15) == 0 || field(board.0, (4 * dest.0) as u64, 15)
                & 7 != 0,
        ensures
            r.0 == vacated(self.0, board.0, dest.0 as u64),
    {
        let board_offset: u64 = dest.board_offset();
        let b: u64 = board.0;
        let dest_square: u64 = (b >> board_offset) & 0b1111;
        if dest_square == 0 {
            return self.into_optional();
        }
        // We cannot vacate an active piece.
        if dest_square & 0b1000 == 0 {
            return OptionalNodeBuilder::none();
        }
        let occupant: u64 = dest_square & 0b111;
        let off: u64 = capture_offset_for(occupant);
        let is_occupant_nonlion: bool = occupant != 0b001;
        // If the occupant is a non-lion, we need to set the allegiance bit to 0.
        // The allegiance bit is 4 bits left of the column offset.
        let allegiance_mask: u64 = !((if is_occupant_nonlion {
            1u64
        } else {
            0u64
        }) << ((off + 4) as u64));
        let is_occupant_chick: bool = occupant & !1u64 == 0b010;
        proof {
            lemma_capture_bits(0, 0, 0, off, occupant);
        }
        // If the occupant is a chick, we need to set the promotion bit to 0.
        // The promotion bit is 1 bit right of the column offset.
        let demotion_mask: u64 = !((if is_occupant_chick {
            1u64
        } else {
            0u64
        }) << ((off - 1) as u64));
        let x: u64 = self.0;
        let r: u64 = (x | (0b1111u64 << off)) & allegiance_mask & demotion_mask;
        assert(r == captured(x, occupant)) by {
            let in_hand = with_field(x, off, 15, 15);
            let handed = with_field(in_hand, (off + 4) as u64, 1, 0);
            lemma_capture_bits(x, in_hand, handed, off, occupant);
        }
        OptionalNodeBuilder(r)
    }
}

} // verus!

verus! {

/// A node together with its board and the empty squares of its board.
#[derive(Clone, Copy, Debug)]
pub struct ChildCalculator {
    pub node: SearchNode,
    pub board: Board,
    pub empty_squares: CoordVec,
}

impl ChildCalculator {
    pub open spec fn wf(self) -> bool {
        &&& self.board.0 == board_of(self.node.0)
        &&& self.empty_squares.wf()
        &&& self.empty_squares@ == empty_squares_of(self.board.0)
    }

    pub fn new(node: SearchNode) -> (r: Self)
        ensures
            r.wf(),
            r.node == node,
    {
        let board = node.into_builder().board();
        let empty_squares = board.empty_squares();
        Self { node, board, empty_squares }
    }

    /// Appends the children of the node (see `children_of`).
    pub fn visit_children(self, out: &mut Vec<SearchNode>)
        requires
            self.wf(),
        ensures
            final(out)@ == old(out)@ + as_search_nodes(children_of(self.node.0)),
    {
        let ghost x = self.node.0;
        if self.node.is_terminal() {
            assert(as_search_nodes(children_of(x)) =~= Seq::<SearchNode>::empty());
            assert(out@ =~= old(out)@ + as_search_nodes(children_of(x)));
            return;
        }
        let ghost c1 = actor_children(x, 1);
        let ghost c2 = actor_children(x, 2);
        let ghost c3 = actor_children(x, 3);
        let ghost c4 = actor_children(x, 4);
        let ghost c5 = actor_children(x, 5);
        let ghost c6 = actor_children(x, 6);
        let ghost c7 = actor_children(x, 7);
        self.visit_children_with_actor(Actor::lion(), out);

        self.visit_children_with_actor(Actor::chick0(), out);
        proof {
            lemma_append_search_nodes(old(out)@, c1, c2);
        }
        self.visit_children_with_actor(Actor::chick1(), out);
        proof {
            lemma_append_search_nodes(old(out)@, c1 + c2, c3);
        }
        self.visit_children_with_actor(Actor::elephant0(), out);
        proof {
            lemma_append_search_nodes(old(out)@, c1 + c2 + c3, c4);
        }
        self.visit_children_with_actor(Actor::elephant1(), out);
        proof {
            lemma_append_search_nodes(old(out)@, c1 + c2 + c3 + c4, c5);
        }
        self.visit_children_with_actor(Actor::giraffe0(), out);
        proof {
            lemma_append_search_nodes(old(out)@, c1 + c2 + c3 + c4 + c5, c6);
        }
        self.visit_children_with_actor(Actor::giraffe1(), out);
        proof {
            lemma_append_search_nodes(old(out)@, c1 + c2 + c3 + c4 + c5 + c6, c7);
        }
    }

    /// Appends the children that `actor` leads to (see `actor_children`).
    pub fn visit_children_with_actor(self, actor: Actor, out: &mut Vec<SearchNode>)
        requires
            self.wf(),
            1 <= actor.0.0 <= 7,
        ensures
            final(out)@ == old(out)@ + as_search_nodes(actor_children(self.node.0, actor.0.0)),
    {
        let node = self.node.into_builder();
        if actor.is_passive(node) {
            assert(out@ =~= old(out)@ + as_search_nodes(actor_children(self.node.0, actor.0.0)));
            return;
        }
        let start = actor.coords(node);
        if start.0 == 15 {
            self.visit_dropping_children(actor, out);
        } else {
            self.visit_moving_children(actor, start, out);
        }
    }

    /// Appends the children reached by dropping `actor`, which is in the
    /// active player's hand.
    pub fn visit_dropping_children(self, actor: Actor, out: &mut Vec<SearchNode>)
        requires
            self.wf(),
            1 <= actor.0.0 <= 7,
            !is_passive_in(self.node.0, actor.0.0),
            coords_of(self.node.0, actor.0.0) == 15,
        ensures
            final(out)@ == old(out)@ + as_search_nodes(actor_children(self.node.0, actor.0.0)),
    {
        let ghost x = self.node.0;
        let ghost p = actor.0.0;
        let node = self.node.into_builder();
        // If two of the same species are in the active hand,
        // we must be careful to avoid double counting the associated child.
        if actor.is_piece1() && actor.is_piece0_in_active_hand(node) {
            assert(out@ =~= old(out)@ + as_search_nodes(actor_children(x, p)));
            return;
        }
        let ghost squares = self.empty_squares@;
        let ghost f = |d: u64| drop_child(x, p, d);
        let mut remaining = self.empty_squares;
        let ghost mut k: int = 0;
        while !remaining.is_empty()
            invariant
                remaining.wf(),
                0 <= k <= squares.len(),
                remaining@ == squares.skip(k),
                out@ == old(out)@ + as_search_nodes(squares.take(k).map_values(f)),
                node.0 == x,
                p == actor.0.0,
                f == (|d: u64| drop_child(x, p, d)),
            decreases remaining@.len(),
        {
            let dest = remaining.pop_front().unwrap();
            let child = actor.set_coords(node, dest).invert_active_player().build();
            out.push(child);
            proof {
                assert(squares.take(k + 1) =~= squares.take(k).push(dest.0 as u64));
                assert(as_search_nodes(squares.take(k + 1).map_values(f)) =~= as_search_nodes(
                    squares.take(k).map_values(f),
                ).push(child));
                k = k + 1;
                assert(remaining@ =~= squares.skip(k));
            }
        }
        assert(squares.take(k) =~= squares);
    }

    /// Appends the children reached by moving `actor` from `start`.
    pub fn visit_moving_children(self, actor: Actor, start: Coords, out: &mut Vec<SearchNode>)
        requires
            self.wf(),
            1 <= actor.0.0 <= 7,
            !is_passive_in(self.node.0, actor.0.0),
            start.0 == coords_of(self.node.0, actor.0.0),
            start.0 != 15,
            start.0 < 16,
        ensures
            final(out)@ == old(out)@ + as_search_nodes(actor_children(self.node.0, actor.0.0)),
    {
        let ghost x = self.node.0;
        let ghost p = actor.0.0;
        let ghost b = self.board.0;
        let node = self.node.into_builder();
        let is_promoted = actor.is_promoted(node);
        let dest_candidates = actor.legal_dest_squares(is_promoted, start);
        let ghost candidates = dest_candidates@;
        let ghost pred = |d: u64| vacated(x, b, d) != 0;
        let ghost f = |d: u64| move_child(vacated(x, b, d), p, d);
        let mut remaining = dest_candidates;
        let ghost mut k: int = 0;
        while !remaining.is_empty()
            invariant
                remaining.wf(),
                0 <= k <= candidates.len(),
                remaining@ == candidates.skip(k),
                out@ == old(out)@ + as_search_nodes(candidates.take(k).filter(pred).map_values(f)),
                node.0 == x,
                p == actor.0.0,
                b == self.board.0,
                x == self.node.0,
                self.wf(),
                pred == (|d: u64| vacated(x, b, d) != 0),
                f == (|d: u64| move_child(vacated(x, b, d), p, d)),
            decreases remaining@.len(),
        {
            let dest = remaining.pop_front().unwrap();
            proof {
                assert(candidates.take(k + 1).drop_last() =~= candidates.take(k));
                assert(candidates.take(k + 1).last() == dest.0);
                reveal(Seq::filter);
                lemma_board_square_has_piece(x, dest.0 as u64);
                assert(self.board.0 == board_of(x));
                assert((4 * dest.0) as u64 == (4 * (dest.0 as u64)) as u64);
            }
            let optional_node = node.vacate_passive(dest, self.board);
            if optional_node.is_none() {
                proof {
                    k = k + 1;
                    assert(remaining@ =~= candidates.skip(k));
                }
                continue;
            }
            let vacated_node = optional_node.unchecked_unwrap();
            let moved = actor.set_coords_and_promote_if_in_last_row(vacated_node, dest);
            let child = moved.invert_active_player().build();
            out.push(child);
            proof {
                assert(as_search_nodes(candidates.take(k + 1).filter(pred).map_values(f))
                    =~= as_search_nodes(candidates.take(k).filter(pred).map_values(f)).push(child));
                k = k + 1;
                assert(remaining@ =~= candidates.skip(k));
            }
        }
        assert(candidates.take(k) =~= candidates);
    }
}

impl SearchNode {
    /// Appends the children of this node (see `children_of`).
    pub fn visit_children(self, out: &mut Vec<SearchNode>)
        ensures
            final(out)@ == old(out)@ + as_search_nodes(children_of(self.0)),
    {
        ChildCalculator::new(self).visit_children(out);
    }

    /// The children of this node (see `children_of`).
    pub fn children(self) -> (r: Vec<SearchNode>)
        ensures
            r@ == as_search_nodes(children_of(self.0)),
    {
        let mut out: Vec<SearchNode> = Vec::new();
        self.visit_children(&mut out);
        assert(out@ =~= as_search_nodes(children_of(self.0)));
        out
    }
}

} // verus!

verus! {

/// Each actor leads to at most twelve children.
pub proof fn lemma_actor_children_len(x: u64, p: u8)
    ensures
        actor_children(x, p).len() <= 12,
{
    let b = board_of(x);
    crate::coords::board_squares().lemma_filter_len(
        |c: u64| crate::coords::square_of(b, c) == 0,
    );
    let promoted = is_promoted_in(x, p);
    let start = coords_of(x, p);
    let d = crate::movement::directions_of(p, promoted);
    crate::coords::board_squares().lemma_filter_len(
        |c: u64| crate::movement::connects_spec(d, start, c),
    );
    let legal = legal_squares_of(p, promoted, Unknown::Dest, start);
    legal.lemma_filter_len(|d: u64| vacated(x, b, d) != 0);
}

/// A node has at most 84 children.
pub proof fn lemma_children_len(x: u64)
    ensures
        children_of(x).len() <= 84,
{
    lemma_actor_children_len(x, 1);
    lemma_actor_children_len(x, 2);
    lemma_actor_children_len(x, 3);
    lemma_actor_children_len(x, 4);
    lemma_actor_children_len(x, 5);
    lemma_actor_children_len(x, 6);
    lemma_actor_children_len(x, 7);
}

/// A terminal node has no children.
pub proof fn lemma_terminal_nodes_have_no_children(x: u64)
    requires
        is_terminal_node(x),
    ensures
        children_of(x).len() == 0,
{
}

/// Whether the active player of node `x` can act with the piece with code
/// `p`: drop it from the hand onto an empty square of the board, or step it,
/// in a direction that it moves in, onto a square of the board that holds no
/// piece of the active player.
pub open spec fn can_act(x: u64, p: u8) -> bool {
    let b = board_of(x);
    let start = coords_of(x, p);
    &&& 1 <= p <= 7
    &&& is_active_in(x, p)
    &&& if start == 15 {
        exists|i: int| 0 <= i < 12 && square_of(b, #[trigger] board_squares()[i]) == 0
    } else {
        exists|i: int|
            0 <= i < 12 && connects_spec(
                directions_of(p, is_promoted_in(x, p)),
                start,
                #[trigger] board_squares()[i],
            ) && (square_of(b, board_squares()[i]) == 0 || square_of(b, board_squares()[i]) & 8
                != 0)
    }
}

/// Landing on a square that holds no active piece leaves a node to move on
/// with.
proof fn lemma_vacated_nonzero(x: u64, d: u64)
    requires
        is_valid(x),
        d < 16,
        square_of(board_of(x), d) == 0 || square_of(board_of(x), d) & 8 != 0,
    ensures
        vacated(x, board_of(x), d) != 0,
{
    let b = board_of(x);
    let sq = field(b, (4 * d) as u64, 15);
    if sq == 0 {
        assert(co(x, 0) != co(x, 1));
        lemma_field_bounds(0u64, 16);
        lemma_field_bounds(0u64, 20);
    } else {
        lemma_board_square_has_piece(x, d);
        vstd::bits::lemma_u64_low_bits_mask_is_mod(sq, 3);
        vstd::bits::lemma_low_bits_mask_values();
        vstd::arithmetic::power2::lemma2_to64();
        let o = sq & 7;
        assert(1 <= o < 8);
        lemma_captured_parts(x, o as u8);
        if o == 1 {
            assert(co(captured(x, 1), 0) == 15);
            lemma_field_bounds(0u64, 16);
        } else {
            assert(co(captured(x, o), o as u8) == 15);
            lemma_field_bounds(0u64, crate::lineage::co_offset(o as u8));
        }
    }
}

/// A node that is valid and not terminal has a child when its active player
/// can act with some piece (see `can_act`).
pub proof fn lemma_acting_gives_a_child(x: u64, p: u8)
    requires
        is_valid(x),
        !is_terminal_node(x),
        can_act(x, p),
    ensures
        children_of(x).len() > 0,
{
    let b = board_of(x);
    let start = coords_of(x, p);
    if start == 15 {
        let i = choose|i: int| 0 <= i < 12 && square_of(b, #[trigger] board_squares()[i]) == 0;
        let q: u8 = if drop_is_duplicate(x, p) {
            (p - 1) as u8
        } else {
            p
        };
        assert(!is_passive_in(x, q));
        assert(coords_of(x, q) == 15);
        assert(!drop_is_duplicate(x, q));
        let pred = |c: u64| square_of(b, c) == 0;
        board_squares().lemma_filter_contains(pred, i);
        assert(empty_squares_of(b) == board_squares().filter(pred));
        assert(empty_squares_of(b).len() > 0);
        assert(actor_children(x, q).len() > 0);
    } else {
        let dset = directions_of(p, is_promoted_in(x, p));
        let i = choose|i: int|
            0 <= i < 12 && connects_spec(dset, start, #[trigger] board_squares()[i]) && (square_of(
                b,
                board_squares()[i],
            ) == 0 || square_of(b, board_squares()[i]) & 8 != 0);
        let dd = board_squares()[i];
        assert(co(x, p) == start);
        assert(is_board_square(start));
        let conn = |c: u64| connects_spec(dset, start, c);
        board_squares().lemma_filter_contains(conn, i);
        let legal = legal_squares_of(p, is_promoted_in(x, p), Unknown::Dest, start);
        assert(legal == board_squares().filter(conn));
        assert(legal.contains(dd));
        let j = choose|j: int| 0 <= j < legal.len() && legal[j] == dd;
        lemma_vacated_nonzero(x, dd);
        let open = |d: u64| vacated(x, b, d) != 0;
        legal.lemma_filter_contains(open, j);
        assert(legal.filter(open).len() > 0);
        assert(!is_passive_in(x, p));
        assert(actor_children(x, p).len() > 0);
    }
}

/// A node with a child is not terminal, and its active player can act with
/// some piece (see `can_act`).
pub proof fn lemma_a_child_comes_from_an_action(x: u64)
    requires
        children_of(x).len() > 0,
    ensures
        !is_terminal_node(x),
        exists|p: u8| #[trigger] can_act(x, p),
{
    let b = board_of(x);
    let p: u8 = if actor_children(x, 1).len() > 0 {
        1
    } else if actor_children(x, 2).len() > 0 {
        2
    } else if actor_children(x, 3).len() > 0 {
        3
    } else if actor_children(x, 4).len() > 0 {
        4
    } else if actor_children(x, 5).len() > 0 {
        5
    } else if actor_children(x, 6).len() > 0 {
        6
    } else {
        7
    };
    assert(actor_children(x, p).len() > 0);
    assert(!is_passive_in(x, p));
    if p != 1 {
        lemma_field_bounds(x, crate::pieces::allegiance_offset_of(p));
    }
    assert(is_active_in(x, p));
    let start = coords_of(x, p);
    if start == 15 {
        let e = empty_squares_of(b);
        let pred = |c: u64| square_of(b, c) == 0;
        assert(e == board_squares().filter(pred));
        assert(e.len() > 0);
        board_squares().filter_lemma(pred);
        assert(pred(e[0]));
        assert(e.contains(e[0]));
        board_squares().lemma_filter_contains_rev(pred, e[0]);
        let i = choose|i: int| 0 <= i < board_squares().len() && board_squares()[i] == e[0];
        assert(square_of(b, board_squares()[i]) == 0);
        assert(can_act(x, p));
    } else {
        let dset = directions_of(p, is_promoted_in(x, p));
        let conn = |c: u64| connects_spec(dset, start, c);
        let legal = legal_squares_of(p, is_promoted_in(x, p), Unknown::Dest, start);
        let open = |d: u64| vacated(x, b, d) != 0;
        let f = legal.filter(open);
        assert(f.len() > 0);
        assert(is_board_square(start));
        assert(legal == board_squares().filter(conn));
        legal.filter_lemma(open);
        assert(open(f[0]));
        assert(f.contains(f[0]));
        legal.lemma_filter_contains_rev(open, f[0]);
        let k = choose|k: int| 0 <= k < legal.len() && legal[k] == f[0];
        board_squares().filter_lemma(conn);
        assert(conn(legal[k]));
        board_squares().lemma_filter_contains_rev(conn, f[0]);
        let i = choose|i: int| 0 <= i < board_squares().len() && board_squares()[i] == f[0];
        assert(connects_spec(dset, start, board_squares()[i]));
        let sq = square_of(b, board_squares()[i]);
        assert(sq == 0 || sq & 8 != 0);
        assert(can_act(x, p));
    }
}

/// A valid node has a child exactly when it is not terminal and its active
/// player can act with some piece (see `can_act`).
pub proof fn lemma_children_exist_exactly_when_the_player_can_act(x: u64)
    requires
        is_valid(x),
    ensures
        children_of(x).len() > 0 <==> (!is_terminal_node(x) && exists|p: u8|
            #[trigger] can_act(x, p)),
{
    if children_of(x).len() > 0 {
        lemma_a_child_comes_from_an_action(x);
    }
    if !is_terminal_node(x) && exists|p: u8| #[trigger] can_act(x, p) {
        let p = choose|p: u8| #[trigger] can_act(x, p);
        lemma_acting_gives_a_child(x, p);
    }
}

impl SearchNode {
    /// The number of children of this node.
    pub fn total_child_count(self) -> (r: u8)
        ensures
            r == children_of(self.0).len(),
            r <= 84,
    {
        let children = self.children();
        proof {
            lemma_children_len(self.0);
        }
        children.len() as u8
    }
}

} // verus!
