//! The parents of a node: the nodes from which a legal move or drop of the
//! (then) active player leads to it.
use vstd::prelude::*;
use crate::bits::{field, with_field};
use crate::children::{as_search_nodes, drop_is_duplicate, lemma_append_search_nodes};
use crate::coords::{Board, Coords, CoordVec, square_of};
use crate::movement::{Unknown, legal_squares_of};
use crate::node::{NodeBuilder, SearchNode, board_of, built, inverted, is_terminal_node};
use crate::pieces::{
    Actor, Nonlion, PassiveLion, allegiance_offset_of, coords_of, coords_offset_of, is_active_in,
    is_promoted_in, promotion_offset_of, with_coords,
};

verus! {

/// Whether the actor is to be demoted in the parent (a hen that was promoted
/// by the move).
#[derive(Clone, Copy, Debug)]
pub struct ShouldDemoteActorInParent(pub bool);

/// The built node `v`, unless `v` is terminal: a terminal node has no
/// children, so it is nobody's parent.
pub open spec fn keep_parent(v: u64) -> Seq<u64> {
    if is_terminal_node(v) {
        Seq::empty()
    } else {
        seq![built(v)]
    }
}

/// The results of `f` on the elements of `s`, one after the other.
pub open spec fn concat_map(s: Seq<u64>, f: spec_fn(u64) -> Seq<u64>) -> Seq<u64>
    decreases s.len(),
{
    if s.len() == 0 {
        Seq::empty()
    } else {
        concat_map(s.drop_last(), f) + f(s.last())
    }
}

/// `v` with the chick with code `p` demoted when `demote` holds.
pub open spec fn demoted_if(v: u64, p: u8, demote: bool) -> u64 {
    if demote && (p == 2 || p == 3) {
        with_field(v, promotion_offset_of(p), 1, 0)
    } else {
        v
    }
}

/// The parents in which the actor stood on `s` (node `base`) and captured
/// the non-lion with code `c`, which the active player of `y` now holds:
/// before the capture it stood on `dest` and belonged to the other player,
/// and a captured chick may have been a hen.
pub open spec fn capturing_parents(y: u64, base: u64, c: u8, dest: u64) -> Seq<u64> {
    if !(is_active_in(y, c) && coords_of(y, c) == 15) || drop_is_duplicate(y, c) {
        Seq::empty()
    } else {
        let cap = with_field(
            with_field(base, coords_offset_of(c), 15, dest),
            allegiance_offset_of(c),
            1,
            1,
        );
        (if c == 2 || c == 3 {
            keep_parent(with_field(cap, promotion_offset_of(c), 1, 1))
        } else {
            Seq::empty()
        }) + keep_parent(cap)
    }
}

/// The parents in which the actor with code `p` of `y` (now on `dest`)
/// stood on the empty square `s`.
pub open spec fn parents_from_square(y: u64, p: u8, demote: bool, s: u64, dest: u64) -> Seq<u64> {
    let base = demoted_if(with_coords(y, p, s), p, demote);
    if field(y, 16, 15) == 15 {
        // The lion of the other player was captured by this move.
        keep_parent(with_field(base, 16, 15, dest))
    } else {
        keep_parent(base) + capturing_parents(y, base, 2, dest) + capturing_parents(
            y,
            base,
            3,
            dest,
        ) + capturing_parents(y, base, 4, dest) + capturing_parents(y, base, 5, dest)
            + capturing_parents(y, base, 6, dest) + capturing_parents(y, base, 7, dest)
    }
}

/// The parents in which the actor with code `p` of `y` moved from one of
/// the `squares` to where it stands now.
pub open spec fn moving_parents(y: u64, p: u8, demote: bool, squares: Seq<u64>) -> Seq<u64> {
    let dest = coords_of(y, p);
    concat_map(
        squares,
        |s: u64|
            if square_of(board_of(y), s) == 0 {
                parents_from_square(y, p, demote, s, dest)
            } else {
                Seq::empty()
            },
    )
}

/// The parents in which the actor with code `p` of `y` (the node seen by
/// the player who just moved) made the last move or drop.
pub open spec fn actor_parents(y: u64, p: u8) -> Seq<u64> {
    let dest = coords_of(y, p);
    let promoted = is_promoted_in(y, p);
    if !(is_active_in(y, p) && dest != 15) {
        Seq::empty()
    } else {
        let dropping = if !promoted && p != 1 {
            keep_parent(with_coords(y, p, 15))
        } else {
            Seq::empty()
        };
        let moving = if (p == 2 || p == 3) && !promoted && 12 <= dest <= 14 {
            // A chick on the last row was dropped there.
            Seq::empty()
        } else {
            moving_parents(
                y,
                p,
                false,
                legal_squares_of(p, promoted, Unknown::Start, dest),
            ) + (if promoted && 12 <= dest <= 14 {
                // A hen on the last row may have been promoted by the move.
                moving_parents(y, p, true, seq![(dest - 4) as u64])
            } else {
                Seq::empty()
            })
        };
        dropping + moving
    }
}

/// The parents of node `x`: with `y` the node seen by the player who made
/// the last move, the parents through the lion, chick0, chick1, elephant0,
/// elephant1, giraffe0 and giraffe1, in that order.
pub open spec fn parents_of(x: u64) -> Seq<u64> {
    let y = inverted(x);
    actor_parents(y, 1) + actor_parents(y, 2) + actor_parents(y, 3) + actor_parents(y, 4)
        + actor_parents(y, 5) + actor_parents(y, 6) + actor_parents(y, 7)
}

/// Appends the built node unless the node is terminal.
fn push_parent_if_nonterminal(v: NodeBuilder, out: &mut Vec<SearchNode>)
    ensures
        final(out)@ == old(out)@ + as_search_nodes(keep_parent(v.0)),
{
    if !v.is_terminal() {
        out.push(v.build());
        assert(out@ =~= old(out)@ + as_search_nodes(keep_parent(v.0)));
    } else {
        assert(out@ =~= old(out)@ + as_search_nodes(keep_parent(v.0)));
    }
}

/// A node seen by the player who just moved, together with its board.
#[derive(Clone, Copy, Debug)]
pub struct ParentCalculator {
    pub inverted_node: NodeBuilder,
    pub inverted_board: Board,
}

impl ParentCalculator {
    pub open spec fn wf(self) -> bool {
        self.inverted_board.0 == board_of(self.inverted_node.0)
    }

    pub fn new(node: SearchNode) -> (r: Self)
        ensures
            r.wf(),
            r.inverted_node.0 == inverted(node.0),
    {
        let inverted_node = node.into_builder().invert_active_player();
        Self { inverted_node, inverted_board: inverted_node.board() }
    }

    /// Appends the parents (see `parents_of`).
    pub fn visit_parents(self, out: &mut Vec<SearchNode>)
        requires
            self.wf(),
        ensures
            ({
                let y = self.inverted_node.0;
                final(out)@ == old(out)@ + as_search_nodes(
                    actor_parents(y, 1) + actor_parents(y, 2) + actor_parents(y, 3)
                        + actor_parents(y, 4) + actor_parents(y, 5) + actor_parents(y, 6)
                        + actor_parents(y, 7),
                )
            }),
    {
        let ghost y = self.inverted_node.0;
        let ghost c1 = actor_parents(y, 1);
        let ghost c2 = actor_parents(y, 2);
        let ghost c3 = actor_parents(y, 3);
        let ghost c4 = actor_parents(y, 4);
        let ghost c5 = actor_parents(y, 5);
        let ghost c6 = actor_parents(y, 6);
        let ghost c7 = actor_parents(y, 7);
        self.visit_parents_with_actor(Actor::lion(), out);
        self.visit_parents_with_actor(Actor::chick0(), out);
        proof {
            lemma_append_search_nodes(old(out)@, c1, c2);
        }
        self.visit_parents_with_actor(Actor::chick1(), out);
        proof {
            lemma_append_search_nodes(old(out)@, c1 + c2, c3);
        }
        self.visit_parents_with_actor(Actor::elephant0(), out);
        proof {
            lemma_append_search_nodes(old(out)@, c1 + c2 + c3, c4);
        }
        self.visit_parents_with_actor(Actor::elephant1(), out);
        proof {
            lemma_append_search_nodes(old(out)@, c1 + c2 + c3 + c4, c5);
        }
        self.visit_parents_with_actor(Actor::giraffe0(), out);
        proof {
            lemma_append_search_nodes(old(out)@, c1 + c2 + c3 + c4 + c5, c6);
        }
        self.visit_parents_with_actor(Actor::giraffe1(), out);
        proof {
            lemma_append_search_nodes(old(out)@, c1 + c2 + c3 + c4 + c5 + c6, c7);
        }
    }

    /// Appends the parents in which `actor` made the last move or drop (see
    /// `actor_parents`).
    pub fn visit_parents_with_actor(self, actor: Actor, out: &mut Vec<SearchNode>)
        requires
            self.wf(),
            1 <= actor.0.0 <= 7,
        ensures
            final(out)@ == old(out)@ + as_search_nodes(
                actor_parents(self.inverted_node.0, actor.0.0),
            ),
    {
        let ghost y = self.inverted_node.0;
        let ghost p = actor.0.0;
        let node = self.inverted_node;
        if !(actor.is_active(node) && actor.is_on_board(node)) {
            assert(out@ =~= old(out)@ + as_search_nodes(actor_parents(y, p)));
            return;
        }
        let ghost dest = coords_of(y, p);
        let ghost promoted = is_promoted_in(y, p);
        let ghost dropping = if !promoted && p != 1 {
            keep_parent(with_coords(y, p, 15))
        } else {
            Seq::empty()
        };
        if !actor.is_hen(node) && !actor.is_lion() {
            self.visit_dropping_parent(actor, out);
        } else {
            assert(out@ =~= old(out)@ + as_search_nodes(dropping));
        }
        let ghost after_drop = out@;
        if actor.is_chick(node) && actor.is_in_last_row(node) {
            assert(as_search_nodes(actor_parents(y, p)) =~= as_search_nodes(dropping));
            return;
        }
        let ghost first = moving_parents(
            y,
            p,
            false,
            legal_squares_of(p, promoted, Unknown::Start, dest),
        );
        self.visit_moving_parents(
            actor,
            ShouldDemoteActorInParent(false),
            actor.legal_starting_squares_in_state(node),
            out,
        );
        if actor.is_hen(node) && actor.is_in_last_row(node) {
            let coords = actor.coords(node);
            let legal_starting_squares = CoordVec::singleton(Coords(coords.0 - 0b0100));
            let ghost second = moving_parents(y, p, true, seq![(dest - 4) as u64]);
            self.visit_moving_parents(
                actor,
                ShouldDemoteActorInParent(true),
                legal_starting_squares,
                out,
            );
            proof {
                lemma_append_search_nodes(after_drop, first, second);
                lemma_append_search_nodes(old(out)@, dropping, first + second);
            }
        } else {
            proof {
                assert(first + Seq::<u64>::empty() =~= first);
                lemma_append_search_nodes(old(out)@, dropping, first);
            }
        }
    }

    /// Appends the parent in which `actor` was dropped, unless it is terminal.
    pub fn visit_dropping_parent(self, actor: Actor, out: &mut Vec<SearchNode>)
        requires
            1 <= actor.0.0 <= 7,
        ensures
            final(out)@ == old(out)@ + as_search_nodes(
                keep_parent(with_coords(self.inverted_node.0, actor.0.0, 15)),
            ),
    {
        let node = self.inverted_node;
        let out_node = actor.set_coords(node, Coords::hand());
        push_parent_if_nonterminal(out_node, out);
    }
}

} // verus!

verus! {

impl ParentCalculator {
    /// Appends the parents in which `actor` moved from one of
    /// `starting_squares` (see `moving_parents`).
    pub fn visit_moving_parents(
        self,
        actor: Actor,
        should_demote: ShouldDemoteActorInParent,
        starting_squares: CoordVec,
        out: &mut Vec<SearchNode>,
    )
        requires
            self.wf(),
            1 <= actor.0.0 <= 7,
            starting_squares.wf(),
        ensures
            final(out)@ == old(out)@ + as_search_nodes(
                moving_parents(
                    self.inverted_node.0,
                    actor.0.0,
                    should_demote.0,
                    starting_squares@,
                ),
            ),
    {
        let ghost y = self.inverted_node.0;
        let ghost p = actor.0.0;
        let ghost dem = should_demote.0;
        let node = self.inverted_node;
        let board = self.inverted_board;
        let dest_square = actor.coords(node);
        let ghost squares = starting_squares@;
        let ghost f = |s: u64|
            if square_of(board_of(y), s) == 0 {
                parents_from_square(y, p, dem, s, coords_of(y, p))
            } else {
                Seq::empty()
            };
        let mut remaining = starting_squares;
        let ghost mut k: int = 0;
        while !remaining.is_empty()
            invariant
                self.wf(),
                1 <= p <= 7,
                y == self.inverted_node.0,
                node == self.inverted_node,
                board == self.inverted_board,
                p == actor.0.0,
                dem == should_demote.0,
                dest_square.0 == coords_of(y, p),
                dest_square.0 < 16,
                remaining.wf(),
                0 <= k <= squares.len(),
                remaining@ == squares.skip(k),
                out@ == old(out)@ + as_search_nodes(concat_map(squares.take(k), f)),
                f == (|s: u64|
                    if square_of(board_of(y), s) == 0 {
                        parents_from_square(y, p, dem, s, coords_of(y, p))
                    } else {
                        Seq::empty()
                    }),
            decreases remaining@.len(),
        {
            let starting_square = remaining.pop_front().unwrap();
            let ghost before = out@;
            proof {
                assert(squares.take(k + 1).drop_last() =~= squares.take(k));
                assert(squares.take(k + 1).last() == starting_square.0);
                lemma_append_search_nodes(
                    old(out)@,
                    concat_map(squares.take(k), f),
                    f(starting_square.0 as u64),
                );
                k = k + 1;
                assert(remaining@ =~= squares.skip(k));
            }
            if !board.is_square_empty(starting_square) {
                assert(f(starting_square.0 as u64) =~= Seq::<u64>::empty());
                assert(out@ =~= before + as_search_nodes(f(starting_square.0 as u64)));
                continue;
            }
            if PassiveLion.is_in_hand(node) {
                let base = actor.set_coords(node, starting_square);
                let base = if should_demote.0 {
                    actor.demote(base)
                } else {
                    base
                };
                let out_node = PassiveLion.set_coords(base, dest_square);
                push_parent_if_nonterminal(out_node, out);
                continue;
            }
            self.visit_noncapturing_moving_parent(actor, should_demote, starting_square, out);
            let ghost base = demoted_if(with_coords(y, p, starting_square.0 as u64), p, dem);
            let ghost dest = coords_of(y, p);
            let ghost k0 = keep_parent(base);
            let ghost k2 = capturing_parents(y, base, 2, dest);
            let ghost k3 = capturing_parents(y, base, 3, dest);
            let ghost k4 = capturing_parents(y, base, 4, dest);
            let ghost k5 = capturing_parents(y, base, 5, dest);
            let ghost k6 = capturing_parents(y, base, 6, dest);
            let ghost k7 = capturing_parents(y, base, 7, dest);
            self.visit_capturing_parents(
                actor,
                should_demote,
                starting_square,
                dest_square,
                Nonlion::chick0(),
                out,
            );
            proof {
                lemma_append_search_nodes(before, k0, k2);
            }
            self.visit_capturing_parents(
                actor,
                should_demote,
                starting_square,
                dest_square,
                Nonlion::chick1(),
                out,
            );
            proof {
                lemma_append_search_nodes(before, k0 + k2, k3);
            }
            self.visit_capturing_parents(
                actor,
                should_demote,
                starting_square,
                dest_square,
                Nonlion::elephant0(),
                out,
            );
            proof {
                lemma_append_search_nodes(before, k0 + k2 + k3, k4);
            }
            self.visit_capturing_parents(
                actor,
                should_demote,
                starting_square,
                dest_square,
                Nonlion::elephant1(),
                out,
            );
            proof {
                lemma_append_search_nodes(before, k0 + k2 + k3 + k4, k5);
            }
            self.visit_capturing_parents(
                actor,
                should_demote,
                starting_square,
                dest_square,
                Nonlion::giraffe0(),
                out,
            );
            proof {
                lemma_append_search_nodes(before, k0 + k2 + k3 + k4 + k5, k6);
            }
            self.visit_capturing_parents(
                actor,
                should_demote,
                starting_square,
                dest_square,
                Nonlion::giraffe1(),
                out,
            );
            proof {
                lemma_append_search_nodes(before, k0 + k2 + k3 + k4 + k5 + k6, k7);
            }
        }
        assert(squares.take(k) =~= squares);
    }

    /// Appends the parent in which `actor` moved from `starting_square`
    /// without capturing anything, unless it is terminal.
    pub fn visit_noncapturing_moving_parent(
        self,
        actor: Actor,
        should_demote: ShouldDemoteActorInParent,
        starting_square: Coords,
        out: &mut Vec<SearchNode>,
    )
        requires
            1 <= actor.0.0 <= 7,
            starting_square.0 < 16,
        ensures
            final(out)@ == old(out)@ + as_search_nodes(
                keep_parent(
                    demoted_if(
                        with_coords(
                            self.inverted_node.0,
                            actor.0.0,
                            starting_square.0 as u64,
                        ),
                        actor.0.0,
                        should_demote.0,
                    ),
                ),
            ),
    {
        let node = self.inverted_node;
        let base = actor.set_coords(node, starting_square);
        let base = if should_demote.0 {
            actor.demote(base)
        } else {
            base
        };
        push_parent_if_nonterminal(base, out);
    }

    /// Appends the parents in which `actor` moved from `starting_square` and
    /// captured `captive` (see `capturing_parents`).
    pub fn visit_capturing_parents(
        self,
        actor: Actor,
        should_demote: ShouldDemoteActorInParent,
        starting_square: Coords,
        dest_square: Coords,
        captive: Nonlion,
        out: &mut Vec<SearchNode>,
    )
        requires
            1 <= actor.0.0 <= 7,
            2 <= captive.0.0 <= 7,
            starting_square.0 < 16,
            dest_square.0 < 16,
        ensures
            final(out)@ == old(out)@ + as_search_nodes(
                capturing_parents(
                    self.inverted_node.0,
                    demoted_if(
                        with_coords(
                            self.inverted_node.0,
                            actor.0.0,
                            starting_square.0 as u64,
                        ),
                        actor.0.0,
                        should_demote.0,
                    ),
                    captive.0.0,
                    dest_square.0 as u64,
                ),
            ),
    {
        let node = self.inverted_node;
        let ghost y = node.0;
        let ghost c = captive.0.0;
        // If a piece was captured, then it would be moved to the active hand.
        if !(captive.is_active(node) && captive.is_in_hand(node)) {
            assert(out@ =~= old(out)@);
            return;
        }
        // If two of the same species are in the active hand,
        // we must be careful to avoid double counting the associated parent.
        if captive.is_piece1() && captive.is_piece0_in_active_hand(node) {
            assert(out@ =~= old(out)@);
            return;
        }
        let base = actor.set_coords(node, starting_square);
        let base = if should_demote.0 {
            actor.demote(base)
        } else {
            base
        };
        let captured = captive.make_passive(captive.set_coords(base, dest_square));
        let ghost before = out@;
        if captive.is_bird() {
            let promoted = captive.promote(captured);
            push_parent_if_nonterminal(promoted, out);
        } else {
            assert(out@ =~= before + as_search_nodes(Seq::<u64>::empty()));
        }
        let ghost middle = out@;
        push_parent_if_nonterminal(captured, out);
        proof {
            let first = if c == 2 || c == 3 {
                keep_parent(with_field(captured.0, promotion_offset_of(c), 1, 1))
            } else {
                Seq::empty()
            };
            lemma_append_search_nodes(before, first, keep_parent(captured.0));
        }
    }
}

impl SearchNode {
    /// Appends the parents of this node (see `parents_of`).
    pub fn visit_parents(self, out: &mut Vec<SearchNode>)
        ensures
            final(out)@ == old(out)@ + as_search_nodes(parents_of(self.0)),
    {
        ParentCalculator::new(self).visit_parents(out);
    }

    /// The parents of this node (see `parents_of`).
    pub fn parents(self) -> (r: Vec<SearchNode>)
        ensures
            r@ == as_search_nodes(parents_of(self.0)),
    {
        let mut out: Vec<SearchNode> = Vec::new();
        self.visit_parents(&mut out);
        assert(out@ =~= as_search_nodes(parents_of(self.0)));
        out
    }
}

} // verus!
