//! Pieces, and where each piece's fields lie in a node.
//!
//! Piece codes: `1` for a lion, `2`/`3` for chick0/chick1, `4`/`5` for
//! elephant0/elephant1 and `6`/`7` for giraffe0/giraffe1.
use vstd::prelude::*;
use crate::bits::{field, with_field};

verus! {

/// A piece species code (see the module documentation).
#[derive(Clone, Copy, Debug, PartialEq, Eq)]
pub struct Piece(pub u8);

/// A piece that the active player may move: the active lion or a non-lion.
#[derive(Clone, Copy, Debug, PartialEq, Eq)]
pub struct Actor(pub Piece);

/// A piece other than a lion.
#[derive(Clone, Copy, Debug, PartialEq, Eq)]
pub struct Nonlion(pub Piece);

/// One of the two chicks.
#[derive(Clone, Copy, Debug, PartialEq, Eq)]
pub struct Chick(pub Piece);

/// The passive player's lion.
pub struct PassiveLion;

pub const AMBIGUOUS_LION_CODE: u8 = 1;
pub const CHICK0_CODE: u8 = 2;
pub const CHICK1_CODE: u8 = 3;
pub const ELEPHANT0_CODE: u8 = 4;
pub const ELEPHANT1_CODE: u8 = 5;
pub const GIRAFFE0_CODE: u8 = 6;
pub const GIRAFFE1_CODE: u8 = 7;

/// Bit position of the coordinates of the piece with code `p`
/// (for `p == 1`, the active lion); `0` for any other code.
pub open spec fn coords_offset_of(p: u8) -> u64 {
    if p == 1 {
        20
    } else if p == 2 {
        51
    } else if p == 3 {
        45
    } else if p == 4 {
        39
    } else if p == 5 {
        34
    } else if p == 6 {
        29
    } else if p == 7 {
        24
    } else {
        0
    }
}

/// Whether `p` is the code of a non-lion.
pub open spec fn is_nonlion_code(p: u8) -> bool {
    2 <= p <= 7
}

/// Bit position of the allegiance bit of the non-lion with code `p`.
pub open spec fn allegiance_offset_of(p: u8) -> u64 {
    (coords_offset_of(p) + 4) as u64
}

/// Bit position of the promotion bit of the chick with code `p`.
pub open spec fn promotion_offset_of(p: u8) -> u64 {
    if p == 2 {
        50
    } else {
        44
    }
}

/// The coordinates of the piece with code `p` in node `x`.
pub open spec fn coords_of(x: u64, p: u8) -> u64 {
    field(x, coords_offset_of(p), 15)
}

/// Whether the non-lion with code `p` belongs to the passive player in `x`.
pub open spec fn is_passive_in(x: u64, p: u8) -> bool {
    is_nonlion_code(p) && field(x, allegiance_offset_of(p), 1) == 1
}

/// Whether the piece with code `p` belongs to the active player in `x`
/// (the active lion always does).
pub open spec fn is_active_in(x: u64, p: u8) -> bool {
    p == 1 || (is_nonlion_code(p) && field(x, allegiance_offset_of(p), 1) == 0)
}

/// Whether the piece with code `p` is a promoted chick (a hen) in `x`.
pub open spec fn is_promoted_in(x: u64, p: u8) -> bool {
    (p == 2 || p == 3) && field(x, promotion_offset_of(p), 1) == 1
}

/// `x` with the coordinates of the piece with code `p` set to `c`.
pub open spec fn with_coords(x: u64, p: u8, c: u64) -> u64 {
    with_field(x, coords_offset_of(p), 15, c)
}

impl Piece {
    /// A bird is a chick or a hen.
    pub fn is_bird(self) -> (r: bool)
        ensures
            r == (self.0 == 2 || self.0 == 3),
    {
        proof {
            crate::bits::lemma_code_facts(self.0, 0);
        }
        self.0 & !1u8 == 0b010
    }

    pub fn is_lion(self) -> (r: bool)
        ensures
            r == (self.0 == 1),
    {
        self.0 == 0b001
    }

    /// Whether this is the second piece of its species.
    pub fn is_piece1(self) -> (r: bool)
        requires
            self.0 < 16,
        ensures
            r == (self.0 == 3 || self.0 == 5 || self.0 == 7),
    {
        let table: u16 = (1u16 << 3u16) | (1u16 << 5u16) | (1u16 << 7u16);
        let code: u16 = self.0 as u16;
        proof {
            crate::bits::lemma_code_facts(0, code);
        }
        table & (1u16 << code) != 0
    }

    /// The first piece of this piece's species.
    pub fn piece0(self) -> (r: Self)
        ensures
            r.0 == (if self.0 == 3 {
                2
            } else if self.0 == 5 {
                4
            } else if self.0 == 7 {
                6
            } else {
                self.0
            }),
    {
        if self.0 == CHICK1_CODE {
            Piece(CHICK0_CODE)
        } else if self.0 == ELEPHANT1_CODE {
            Piece(ELEPHANT0_CODE)
        } else if self.0 == GIRAFFE1_CODE {
            Piece(GIRAFFE0_CODE)
        } else {
            self
        }
    }
}

} // verus!

verus! {

use crate::coords::Coords;
use crate::node::NodeBuilder;
use crate::bits::lemma_with_bit;

/// Exec-mode bit position of the coordinates of the piece with code `p`.
pub fn coords_offset_for(p: u8) -> (r: u64)
    ensures
        r == coords_offset_of(p),
{
    if p == AMBIGUOUS_LION_CODE {
        20
    } else if p == CHICK0_CODE {
        51
    } else if p == CHICK1_CODE {
        45
    } else if p == ELEPHANT0_CODE {
        39
    } else if p == ELEPHANT1_CODE {
        34
    } else if p == GIRAFFE0_CODE {
        29
    } else if p == GIRAFFE1_CODE {
        24
    } else {
        0
    }
}

/// `x` with the coordinates field at `off` set to `c`.
fn replace_coords(x: u64, off: u64, c: u8) -> (r: u64)
    requires
        off <= 60,
        c < 16,
    ensures
        r == with_field(x, off, 15, c as u64),
{
    (x & !(0b1111u64 << off)) | ((c as u64) << off)
}

/// `x` with bit `off` set.
fn set_bit(x: u64, off: u64) -> (r: u64)
    requires
        off < 64,
    ensures
        r == with_field(x, off, 1, 1),
{
    proof {
        lemma_with_bit(x, off, 1);
    }
    x | (1u64 << off)
}

/// `x` with bit `off` cleared.
fn clear_bit(x: u64, off: u64) -> (r: u64)
    requires
        off < 64,
    ensures
        r == with_field(x, off, 1, 0),
{
    proof {
        lemma_with_bit(x, off, 0);
    }
    x & !(1u64 << off)
}

/// Bit `off` of `x`.
fn get_bit(x: u64, off: u64) -> (r: u64)
    requires
        off < 64,
    ensures
        r == field(x, off, 1),
        r < 2,
{
    proof {
        crate::bits::lemma_field_bounds(x, off);
    }
    (x >> off) & 1
}

impl Actor {
    pub fn lion() -> (r: Self)
        ensures
            r.0.0 == 1,
    {
        Actor(Piece(AMBIGUOUS_LION_CODE))
    }

    pub fn chick0() -> (r: Self)
        ensures
            r.0.0 == 2,
    {
        Actor(Piece(CHICK0_CODE))
    }

    pub fn chick1() -> (r: Self)
        ensures
            r.0.0 == 3,
    {
        Actor(Piece(CHICK1_CODE))
    }

    pub fn elephant0() -> (r: Self)
        ensures
            r.0.0 == 4,
    {
        Actor(Piece(ELEPHANT0_CODE))
    }

    pub fn elephant1() -> (r: Self)
        ensures
            r.0.0 == 5,
    {
        Actor(Piece(ELEPHANT1_CODE))
    }

    pub fn giraffe0() -> (r: Self)
        ensures
            r.0.0 == 6,
    {
        Actor(Piece(GIRAFFE0_CODE))
    }

    pub fn giraffe1() -> (r: Self)
        ensures
            r.0.0 == 7,
    {
        Actor(Piece(GIRAFFE1_CODE))
    }

    pub fn is_passive(self, node: NodeBuilder) -> (r: bool)
        ensures
            r == is_passive_in(node.0, self.0.0),
    {
        let p: u8 = self.0.0;
        if 2 <= p && p <= 7 {
            get_bit(node.0, coords_offset_for(p) + 4) != 0
        } else {
            false
        }
    }

    pub fn is_active(self, node: NodeBuilder) -> (r: bool)
        ensures
            r == is_active_in(node.0, self.0.0),
    {
        let p: u8 = self.0.0;
        if p == AMBIGUOUS_LION_CODE {
            true
        } else if 2 <= p && p <= 7 {
            get_bit(node.0, coords_offset_for(p) + 4) == 0
        } else {
            false
        }
    }

    pub fn coords_offset(self) -> (r: u64)
        ensures
            r == coords_offset_of(self.0.0),
    {
        coords_offset_for(self.0.0)
    }

    pub fn coords_mask(self) -> (r: u64)
        ensures
            r == 15u64 << coords_offset_of(self.0.0),
    {
        0b1111u64 << self.coords_offset()
    }

    pub fn coords(self, node: NodeBuilder) -> (r: Coords)
        ensures
            r.0 == coords_of(node.0, self.0.0),
            r.0 < 16,
    {
        let n: u64 = node.0;
        let off: u64 = self.coords_offset();
        proof {
            crate::bits::lemma_field_bounds(n, off);
        }
        let x: u64 = (n >> off) & 0b1111;
        Coords(x as u8)
    }

    pub fn set_coords(self, node: NodeBuilder, coords: Coords) -> (r: NodeBuilder)
        requires
            coords.0 < 16,
        ensures
            r.0 == with_coords(node.0, self.0.0, coords.0 as u64),
    {
        NodeBuilder(replace_coords(node.0, self.coords_offset(), coords.0))
    }

    pub fn is_in_last_row(self, node: NodeBuilder) -> (r: bool)
        ensures
            r == (12 <= coords_of(node.0, self.0.0) <= 14),
    {
        self.coords(node).is_in_last_row()
    }

    pub fn is_on_board(self, node: NodeBuilder) -> (r: bool)
        ensures
            r == (coords_of(node.0, self.0.0) != 15),
    {
        self.coords(node).0 != 15
    }

    pub fn is_in_hand(self, node: NodeBuilder) -> (r: bool)
        ensures
            r == (coords_of(node.0, self.0.0) == 15),
    {
        self.coords(node).0 == 15
    }

    pub fn is_bird(self) -> (r: bool)
        ensures
            r == (self.0.0 == 2 || self.0.0 == 3),
    {
        self.0.is_bird()
    }

    pub fn is_lion(self) -> (r: bool)
        ensures
            r == (self.0.0 == 1),
    {
        self.0.is_lion()
    }

    pub fn is_piece1(self) -> (r: bool)
        requires
            self.0.0 < 16,
        ensures
            r == (self.0.0 == 3 || self.0.0 == 5 || self.0.0 == 7),
    {
        self.0.is_piece1()
    }

    pub fn piece0(self) -> (r: Self)
        ensures
            r.0 == Piece(
                if self.0.0 == 3 {
                    2
                } else if self.0.0 == 5 {
                    4
                } else if self.0.0 == 7 {
                    6
                } else {
                    self.0.0
                },
            ),
    {
        Actor(self.0.piece0())
    }

    /// Whether the first piece of this actor's species is in the active
    /// player's hand.
    pub fn is_piece0_in_active_hand(self, node: NodeBuilder) -> (r: bool)
        ensures
            r == ({
                let p0 = self.piece0_spec();
                is_active_in(node.0, p0) && coords_of(node.0, p0) == 15
            }),
    {
        let piece0 = self.piece0();
        piece0.is_active(node) && piece0.is_in_hand(node)
    }

    pub open spec fn piece0_spec(self) -> u8 {
        if self.0.0 == 3 {
            2
        } else if self.0.0 == 5 {
            4
        } else if self.0.0 == 7 {
            6
        } else {
            self.0.0
        }
    }

    pub fn is_promoted(self, node: NodeBuilder) -> (r: bool)
        ensures
            r == is_promoted_in(node.0, self.0.0),
    {
        let p: u8 = self.0.0;
        if p == CHICK0_CODE {
            get_bit(node.0, 50) != 0
        } else if p == CHICK1_CODE {
            get_bit(node.0, 44) != 0
        } else {
            false
        }
    }

    /// A chick (rather than a hen).
    pub fn is_chick(self, node: NodeBuilder) -> (r: bool)
        ensures
            r == ((self.0.0 == 2 || self.0.0 == 3) && !is_promoted_in(node.0, self.0.0)),
    {
        let p: u8 = self.0.0;
        if p == CHICK0_CODE || p == CHICK1_CODE {
            !self.is_promoted(node)
        } else {
            false
        }
    }

    /// Hens are the only promoted pieces.
    pub fn is_hen(self, node: NodeBuilder) -> (r: bool)
        ensures
            r == is_promoted_in(node.0, self.0.0),
    {
        self.is_promoted(node)
    }

    pub fn demote(self, node: NodeBuilder) -> (r: NodeBuilder)
        ensures
            r.0 == (if self.0.0 == 2 || self.0.0 == 3 {
                with_field(node.0, promotion_offset_of(self.0.0), 1, 0)
            } else {
                node.0
            }),
    {
        let p: u8 = self.0.0;
        if p == CHICK0_CODE {
            NodeBuilder(clear_bit(node.0, 50))
        } else if p == CHICK1_CODE {
            NodeBuilder(clear_bit(node.0, 44))
        } else {
            node
        }
    }

    /// Moves this actor to `coords`, promoting it if it is a chick that
    /// reaches the last row.
    pub fn set_coords_and_promote_if_in_last_row(self, node: NodeBuilder, coords: Coords) -> (r:
        NodeBuilder)
        requires
            coords.0 < 16,
        ensures
            r.0 == moved_and_promoted(node.0, self.0.0, coords.0 as u64),
    {
        let node = self.set_coords(node, coords);
        if self.is_bird() && coords.is_in_last_row() {
            return Chick(self.0).promote(node);
        }
        node
    }
}

/// `x` with the piece with code `p` moved to `c`, and promoted if it is a
/// chick that reaches the last row.
pub open spec fn moved_and_promoted(x: u64, p: u8, c: u64) -> u64 {
    let moved = with_coords(x, p, c);
    if (p == 2 || p == 3) && 12 <= c <= 14 {
        with_field(moved, promotion_offset_of(p), 1, 1)
    } else {
        moved
    }
}

impl Chick {
    pub fn promote(self, node: NodeBuilder) -> (r: NodeBuilder)
        ensures
            r.0 == (if self.0.0 == 2 || self.0.0 == 3 {
                with_field(node.0, promotion_offset_of(self.0.0), 1, 1)
            } else {
                node.0
            }),
    {
        let p: u8 = self.0.0;
        if p == CHICK0_CODE {
            NodeBuilder(set_bit(node.0, 50))
        } else if p == CHICK1_CODE {
            NodeBuilder(set_bit(node.0, 44))
        } else {
            node
        }
    }
}

} // verus!

verus! {

use crate::coords::Coords as NonlionCoords;

/// Bit position of the coordinates of the non-lion with code `p`; `0` for
/// any other code.
pub open spec fn nonlion_offset_of(p: u8) -> u64 {
    if is_nonlion_code(p) {
        coords_offset_of(p)
    } else {
        0
    }
}

impl Nonlion {
    pub fn chick0() -> (r: Self)
        ensures
            r.0.0 == 2,
    {
        Nonlion(Piece(CHICK0_CODE))
    }

    pub fn chick1() -> (r: Self)
        ensures
            r.0.0 == 3,
    {
        Nonlion(Piece(CHICK1_CODE))
    }

    pub fn elephant0() -> (r: Self)
        ensures
            r.0.0 == 4,
    {
        Nonlion(Piece(ELEPHANT0_CODE))
    }

    pub fn elephant1() -> (r: Self)
        ensures
            r.0.0 == 5,
    {
        Nonlion(Piece(ELEPHANT1_CODE))
    }

    pub fn giraffe0() -> (r: Self)
        ensures
            r.0.0 == 6,
    {
        Nonlion(Piece(GIRAFFE0_CODE))
    }

    pub fn giraffe1() -> (r: Self)
        ensures
            r.0.0 == 7,
    {
        Nonlion(Piece(GIRAFFE1_CODE))
    }

    pub fn coords_offset(self) -> (r: u64)
        ensures
            r == nonlion_offset_of(self.0.0),
    {
        let p: u8 = self.0.0;
        if 2 <= p && p <= 7 {
            coords_offset_for(p)
        } else {
            0
        }
    }

    pub fn coords_mask(self) -> (r: u64)
        ensures
            r == 15u64 << nonlion_offset_of(self.0.0),
    {
        0b1111u64 << self.coords_offset()
    }

    pub fn is_in_hand(self, node: NodeBuilder) -> (r: bool)
        ensures
            r == (field(node.0, nonlion_offset_of(self.0.0), 15) == 15),
    {
        let n: u64 = node.0;
        let off: u64 = self.coords_offset();
        proof {
            crate::bits::lemma_mask_tests(n, off);
        }
        n & self.coords_mask() == self.coords_mask()
    }

    pub fn set_coords(self, node: NodeBuilder, coords: NonlionCoords) -> (r: NodeBuilder)
        requires
            coords.0 < 16,
        ensures
            r.0 == with_field(node.0, nonlion_offset_of(self.0.0), 15, coords.0 as u64),
    {
        NodeBuilder(replace_coords(node.0, self.coords_offset(), coords.0))
    }

    pub fn allegiance_mask(self) -> (r: u64)
        ensures
            r == (if is_nonlion_code(self.0.0) {
                1u64 << allegiance_offset_of(self.0.0)
            } else {
                0
            }),
    {
        let p: u8 = self.0.0;
        if 2 <= p && p <= 7 {
            1u64 << (coords_offset_for(p) + 4)
        } else {
            0
        }
    }

    pub fn make_passive(self, node: NodeBuilder) -> (r: NodeBuilder)
        ensures
            r.0 == (if is_nonlion_code(self.0.0) {
                with_field(node.0, allegiance_offset_of(self.0.0), 1, 1)
            } else {
                node.0
            }),
    {
        let p: u8 = self.0.0;
        if 2 <= p && p <= 7 {
            NodeBuilder(set_bit(node.0, coords_offset_for(p) + 4))
        } else {
            node
        }
    }

    pub fn is_active(self, node: NodeBuilder) -> (r: bool)
        ensures
            r == (is_nonlion_code(self.0.0) && is_active_in(node.0, self.0.0)),
    {
        let p: u8 = self.0.0;
        if 2 <= p && p <= 7 {
            get_bit(node.0, coords_offset_for(p) + 4) == 0
        } else {
            false
        }
    }

    pub fn is_bird(self) -> (r: bool)
        ensures
            r == (self.0.0 == 2 || self.0.0 == 3),
    {
        self.0.is_bird()
    }

    pub fn promote(self, node: NodeBuilder) -> (r: NodeBuilder)
        ensures
            r.0 == (if self.0.0 == 2 || self.0.0 == 3 {
                with_field(node.0, promotion_offset_of(self.0.0), 1, 1)
            } else {
                node.0
            }),
    {
        Chick(self.0).promote(node)
    }

    pub fn is_piece1(self) -> (r: bool)
        requires
            self.0.0 < 16,
        ensures
            r == (self.0.0 == 3 || self.0.0 == 5 || self.0.0 == 7),
    {
        self.0.is_piece1()
    }

    pub fn piece0(self) -> (r: Self)
        ensures
            r.0.0 == (if self.0.0 == 3 {
                2
            } else if self.0.0 == 5 {
                4
            } else if self.0.0 == 7 {
                6
            } else {
                self.0.0
            }),
    {
        Nonlion(self.0.piece0())
    }

    pub fn is_piece0_in_active_hand(self, node: NodeBuilder) -> (r: bool)
        ensures
            r == ({
                let p0: u8 = if self.0.0 == 3 {
                    2
                } else if self.0.0 == 5 {
                    4
                } else if self.0.0 == 7 {
                    6
                } else {
                    self.0.0
                };
                is_nonlion_code(p0) && is_active_in(node.0, p0) && field(
                    node.0,
                    nonlion_offset_of(p0),
                    15,
                ) == 15
            }),
    {
        let piece0 = self.piece0();
        piece0.is_active(node) && piece0.is_in_hand(node)
    }
}

impl PassiveLion {
    pub fn set_coords(self, node: NodeBuilder, coords: NonlionCoords) -> (r: NodeBuilder)
        requires
            coords.0 < 16,
        ensures
            r.0 == with_field(node.0, 16, 15, coords.0 as u64),
    {
        NodeBuilder(replace_coords(node.0, 16, coords.0))
    }

    pub fn is_in_hand(self, node: NodeBuilder) -> (r: bool)
        ensures
            r == (field(node.0, 16, 15) == 15),
    {
        let n: u64 = node.0;
        proof {
            crate::bits::lemma_mask_tests(n, 16);
        }
        n & (0b1111u64 << 16u64) == (0b1111u64 << 16u64)
    }
}

} // verus!
