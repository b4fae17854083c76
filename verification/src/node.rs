//! Search nodes: a game state packed together with its state stats.
use vstd::prelude::*;
use crate::bits::{field, lemma_field_bounds, lemma_mask_tests};

verus! {

/// Whether the active player has already won or lost.
#[derive(Clone, Copy, Debug, PartialEq, Eq, Structural)]
pub enum Terminality {
    Loss,
    Nonterminal,
    Win,
}

/// A state together with its state stats.
///
/// The least significant 56 bits are used (see `crate::offset`).
#[derive(Clone, Copy, Debug, PartialEq, Eq, PartialOrd, Ord, Hash)]
pub struct SearchNode(pub u64);

/// A possibly malformed node: one whose pairs of pieces of one species may
/// still be out of order.
#[derive(Clone, Copy, Debug, PartialEq, Eq)]
pub struct NodeBuilder(pub u64);

/// An optional node builder `o` is empty if and only if `o.0 == 0`.
#[derive(Clone, Copy, Debug, PartialEq, Eq)]
pub struct OptionalNodeBuilder(pub u64);

/// An optional search node `o` is empty if and only if `o.0 == 0`.
#[derive(Clone, Copy, Debug)]
pub struct OptionalSearchNode(pub u64);

/// The terminality of node `x`: a loss when the active lion has been
/// captured, a win when the active lion stands in the last row.
pub open spec fn terminality_of(x: u64) -> Terminality {
    if field(x, 20, 15) == 15 {
        Terminality::Loss
    } else if field(x, 22, 3) == 3 {
        Terminality::Win
    } else {
        Terminality::Nonterminal
    }
}

pub open spec fn is_terminal_node(x: u64) -> bool {
    terminality_of(x) != Terminality::Nonterminal
}

impl Terminality {
    pub fn is_terminal(self) -> (r: bool)
        ensures
            r == (self != Terminality::Nonterminal),
    {
        match self {
            Terminality::Nonterminal => false,
            _ => true,
        }
    }
}

impl OptionalNodeBuilder {
    pub fn none() -> (r: Self)
        ensures
            r.0 == 0,
    {
        OptionalNodeBuilder(0)
    }

    pub fn is_none(self) -> (r: bool)
        ensures
            r == (self.0 == 0),
    {
        self.0 == 0
    }

    pub fn unchecked_unwrap(self) -> (r: NodeBuilder)
        ensures
            r.0 == self.0,
    {
        NodeBuilder(self.0)
    }
}

impl OptionalSearchNode {
    pub fn none() -> (r: Self)
        ensures
            r.0 == 0,
    {
        OptionalSearchNode(0)
    }

    pub fn is_some(self) -> (r: bool)
        ensures
            r == (self.0 != 0),
    {
        self.0 != 0
    }

    pub fn unchecked_unwrap(self) -> (r: SearchNode)
        ensures
            r.0 == self.0,
    {
        SearchNode(self.0)
    }
}

impl NodeBuilder {
    pub fn terminality(self) -> (r: Terminality)
        ensures
            r == terminality_of(self.0),
    {
        let active_lion_coords_mask: u64 = 0b1111u64 << 20u64;
        let x: u64 = self.0;
        proof {
            crate::bits::lemma_mask_tests(x, 20);
            crate::bits::lemma_mask_tests(x, 22);
        }
        if self.0 & active_lion_coords_mask == active_lion_coords_mask {
            return Terminality::Loss;
        }
        let active_lion_try_mask: u64 = 0b11u64 << 22u64;
        if self.0 & active_lion_try_mask == active_lion_try_mask {
            return Terminality::Win;
        }
        Terminality::Nonterminal
    }

    pub fn is_terminal(self) -> (r: bool)
        ensures
            r == is_terminal_node(self.0),
    {
        self.terminality().is_terminal()
    }

    pub fn into_optional(self) -> (r: OptionalNodeBuilder)
        ensures
            r.0 == self.0,
    {
        OptionalNodeBuilder(self.0)
    }
}

impl SearchNode {
    pub fn into_builder(self) -> (r: NodeBuilder)
        ensures
            r.0 == self.0,
    {
        NodeBuilder(self.0)
    }

    pub fn terminality(self) -> (r: Terminality)
        ensures
            r == terminality_of(self.0),
    {
        self.into_builder().terminality()
    }

    pub fn is_terminal(self) -> (r: bool)
        ensures
            r == is_terminal_node(self.0),
    {
        self.into_builder().is_terminal()
    }
}

} // verus!

verus! {

use crate::bits::with_field;

/// Coordinates seen from the other side of the board: the square at row `r`
/// and column `c` becomes the square at row `3 - r` and column `2 - c`; the
/// hand stays the hand.
pub open spec fn inverted_coords(c: u64) -> u64 {
    if c == 15 {
        15
    } else {
        (14 - c) as u64
    }
}

/// The allegiance bits of the six non-lions.
pub const NONLION_ALLEGIANCE_MASK: u64 = 0x82_0842_1000_0000;

/// The coordinates fields of all eight pieces.
pub const ALL_COORDS_MASK: u64 = 0x79_e7bd_efff_0000;

/// The bits that a change of perspective keeps: the state stats, the two
/// promotion bits and the unused top byte.
pub const PERSPECTIVE_INVARIANT_MASK: u64 = 0xff04_1000_0000_ffff;

/// The node seen by the other player: every non-lion changes allegiance,
/// every piece's coordinates are seen from the other side of the board, and
/// the two lions trade places (the passive lion becomes the active one).
/// The state stats and the promotion bits are kept.
pub open spec fn inverted(x: u64) -> u64 {
    ((x & !ALL_COORDS_MASK) ^ NONLION_ALLEGIANCE_MASK)
        | (inverted_coords(field(x, 51, 15)) << 51u64)
        | (inverted_coords(field(x, 45, 15)) << 45u64)
        | (inverted_coords(field(x, 39, 15)) << 39u64)
        | (inverted_coords(field(x, 34, 15)) << 34u64)
        | (inverted_coords(field(x, 29, 15)) << 29u64)
        | (inverted_coords(field(x, 24, 15)) << 24u64)
        | (inverted_coords(field(x, 20, 15)) << 16u64)
        | (inverted_coords(field(x, 16, 15)) << 20u64)
}

/// What `inverted` does, field by field.
pub proof fn lemma_inverted_fields(x: u64)
    ensures
        field(inverted(x), 51, 15) == inverted_coords(field(x, 51, 15)),
        field(inverted(x), 45, 15) == inverted_coords(field(x, 45, 15)),
        field(inverted(x), 39, 15) == inverted_coords(field(x, 39, 15)),
        field(inverted(x), 34, 15) == inverted_coords(field(x, 34, 15)),
        field(inverted(x), 29, 15) == inverted_coords(field(x, 29, 15)),
        field(inverted(x), 24, 15) == inverted_coords(field(x, 24, 15)),
        field(inverted(x), 20, 15) == inverted_coords(field(x, 16, 15)),
        field(inverted(x), 16, 15) == inverted_coords(field(x, 20, 15)),
        field(inverted(x), 55, 1) == 1 - field(x, 55, 1),
        field(inverted(x), 49, 1) == 1 - field(x, 49, 1),
        field(inverted(x), 43, 1) == 1 - field(x, 43, 1),
        field(inverted(x), 38, 1) == 1 - field(x, 38, 1),
        field(inverted(x), 33, 1) == 1 - field(x, 33, 1),
        field(inverted(x), 28, 1) == 1 - field(x, 28, 1),
        inverted(x) & PERSPECTIVE_INVARIANT_MASK == x & PERSPECTIVE_INVARIANT_MASK,
{
    let c0 = inverted_coords(field(x, 51, 15));
    let c1 = inverted_coords(field(x, 45, 15));
    let e0 = inverted_coords(field(x, 39, 15));
    let e1 = inverted_coords(field(x, 34, 15));
    let g0 = inverted_coords(field(x, 29, 15));
    let g1 = inverted_coords(field(x, 24, 15));
    let al = inverted_coords(field(x, 20, 15));
    let pl = inverted_coords(field(x, 16, 15));
    lemma_field_bounds(x, 51);
    lemma_field_bounds(x, 45);
    lemma_field_bounds(x, 39);
    lemma_field_bounds(x, 34);
    lemma_field_bounds(x, 29);
    lemma_field_bounds(x, 24);
    lemma_field_bounds(x, 20);
    lemma_field_bounds(x, 16);
    let y = inverted(x);
    assert(y == ((x & !0x79_e7bd_efff_0000u64) ^ 0x82_0842_1000_0000u64) | (c0 << 51u64) | (c1
        << 45u64) | (e0 << 39u64) | (e1 << 34u64) | (g0 << 29u64) | (g1 << 24u64) | (al << 16u64)
        | (pl << 20u64));
    assert({
        &&& (y >> 51u64) & 15 == c0
        &&& (y >> 45u64) & 15 == c1
        &&& (y >> 39u64) & 15 == e0
        &&& (y >> 34u64) & 15 == e1
        &&& (y >> 29u64) & 15 == g0
        &&& (y >> 24u64) & 15 == g1
        &&& (y >> 20u64) & 15 == pl
        &&& (y >> 16u64) & 15 == al
        &&& (y >> 55u64) & 1 == 1 - ((x >> 55u64) & 1)
        &&& (y >> 49u64) & 1 == 1 - ((x >> 49u64) & 1)
        &&& (y >> 43u64) & 1 == 1 - ((x >> 43u64) & 1)
        &&& (y >> 38u64) & 1 == 1 - ((x >> 38u64) & 1)
        &&& (y >> 33u64) & 1 == 1 - ((x >> 33u64) & 1)
        &&& (y >> 28u64) & 1 == 1 - ((x >> 28u64) & 1)
        &&& y & 0xff04_1000_0000_ffffu64 == x & 0xff04_1000_0000_ffffu64
    }) by (bit_vector)
        requires
            c0 < 16 && c1 < 16 && e0 < 16 && e1 < 16 && g0 < 16 && g1 < 16 && al < 16 && pl < 16,
            y == ((x & !0x79_e7bd_efff_0000u64) ^ 0x82_0842_1000_0000u64) | (c0 << 51u64) | (c1
                << 45u64) | (e0 << 39u64) | (e1 << 34u64) | (g0 << 29u64) | (g1 << 24u64) | (al
                << 16u64) | (pl << 20u64),
    ;
}

} // verus!

verus! {

/// Two words that agree on every piece's coordinates, on every allegiance bit
/// and on the bits that a change of perspective keeps are equal.
proof fn lemma_equal_by_fields(a: u64, b: u64)
    requires
        field(a, 51, 15) == field(b, 51, 15),
        field(a, 45, 15) == field(b, 45, 15),
        field(a, 39, 15) == field(b, 39, 15),
        field(a, 34, 15) == field(b, 34, 15),
        field(a, 29, 15) == field(b, 29, 15),
        field(a, 24, 15) == field(b, 24, 15),
        field(a, 20, 15) == field(b, 20, 15),
        field(a, 16, 15) == field(b, 16, 15),
        field(a, 55, 1) == field(b, 55, 1),
        field(a, 49, 1) == field(b, 49, 1),
        field(a, 43, 1) == field(b, 43, 1),
        field(a, 38, 1) == field(b, 38, 1),
        field(a, 33, 1) == field(b, 33, 1),
        field(a, 28, 1) == field(b, 28, 1),
        a & PERSPECTIVE_INVARIANT_MASK == b & PERSPECTIVE_INVARIANT_MASK,
    ensures
        a == b,
{
    assert(a == b) by (bit_vector)
        requires
            (a >> 51u64) & 15 == (b >> 51u64) & 15,
            (a >> 45u64) & 15 == (b >> 45u64) & 15,
            (a >> 39u64) & 15 == (b >> 39u64) & 15,
            (a >> 34u64) & 15 == (b >> 34u64) & 15,
            (a >> 29u64) & 15 == (b >> 29u64) & 15,
            (a >> 24u64) & 15 == (b >> 24u64) & 15,
            (a >> 20u64) & 15 == (b >> 20u64) & 15,
            (a >> 16u64) & 15 == (b >> 16u64) & 15,
            (a >> 55u64) & 1 == (b >> 55u64) & 1,
            (a >> 49u64) & 1 == (b >> 49u64) & 1,
            (a >> 43u64) & 1 == (b >> 43u64) & 1,
            (a >> 38u64) & 1 == (b >> 38u64) & 1,
            (a >> 33u64) & 1 == (b >> 33u64) & 1,
            (a >> 28u64) & 1 == (b >> 28u64) & 1,
            a & 0xff04_1000_0000_ffffu64 == b & 0xff04_1000_0000_ffffu64,
    ;
}

/// Seeing a node from the other side twice gives the node back.
pub proof fn lemma_inversion_is_involutive(x: u64)
    ensures
        inverted(inverted(x)) == x,
{
    let y = inverted(x);
    lemma_inverted_fields(x);
    lemma_inverted_fields(y);
    lemma_field_bounds(x, 51);
    lemma_field_bounds(x, 45);
    lemma_field_bounds(x, 39);
    lemma_field_bounds(x, 34);
    lemma_field_bounds(x, 29);
    lemma_field_bounds(x, 24);
    lemma_field_bounds(x, 20);
    lemma_field_bounds(x, 16);
    lemma_field_bounds(x, 55);
    lemma_field_bounds(x, 49);
    lemma_field_bounds(x, 43);
    lemma_field_bounds(x, 38);
    lemma_field_bounds(x, 33);
    lemma_field_bounds(x, 28);
    assert(field(x, 51, 15) < 16 && field(x, 45, 15) < 16 && field(x, 39, 15) < 16);
    assert(field(x, 34, 15) < 16 && field(x, 29, 15) < 16 && field(x, 24, 15) < 16);
    assert(field(x, 20, 15) < 16 && field(x, 16, 15) < 16);
    assert(field(x, 55, 1) < 2 && field(x, 49, 1) < 2 && field(x, 43, 1) < 2);
    assert(field(x, 38, 1) < 2 && field(x, 33, 1) < 2 && field(x, 28, 1) < 2);
    lemma_equal_by_fields(inverted(y), x);
}

impl NodeBuilder {
    /// The coordinates at `off`, seen from the other side, still at `off`.
    pub fn invert_coords_at_offset(self, off: u64) -> (r: u64)
        requires
            off <= 60,
        ensures
            r == inverted_coords(field(self.0, off, 15)) << off,
    {
        let x: u64 = self.0;
        let coords_mask: u64 = 0b1111u64 << off;
        let r3c2: u64 = 0b1110u64 << off;
        let coords: u64 = x & coords_mask;
        proof {
            lemma_mask_tests(x, off);
            lemma_field_bounds(x, off);
        }
        if coords == coords_mask {
            return coords;
        }
        r3c2 - coords
    }

    /// The node seen by the other player (see `inverted`).
    pub fn invert_active_player(self) -> (r: Self)
        ensures
            r.0 == inverted(self.0),
    {
        let chick0_inverted_coords: u64 = self.invert_coords_at_offset(51);
        let chick1_inverted_coords: u64 = self.invert_coords_at_offset(45);
        let elephant0_inverted_coords: u64 = self.invert_coords_at_offset(39);
        let elephant1_inverted_coords: u64 = self.invert_coords_at_offset(34);
        let giraffe0_inverted_coords: u64 = self.invert_coords_at_offset(29);
        let giraffe1_inverted_coords: u64 = self.invert_coords_at_offset(24);
        let active_lion_inverted_coords: u64 = self.invert_coords_at_offset(20);
        let passive_lion_inverted_coords: u64 = self.invert_coords_at_offset(16);
        let ghost al = inverted_coords(field(self.0, 20, 15));
        let ghost pl = inverted_coords(field(self.0, 16, 15));
        proof {
            lemma_field_bounds(self.0, 20);
            lemma_field_bounds(self.0, 16);
        }
        assert((al << 20u64) >> 4u64 == al << 16u64 && (pl << 16u64) << 4u64 == pl << 20u64)
            by (bit_vector)
            requires
                al < 16 && pl < 16,
        ;
        assert(active_lion_inverted_coords >> 4u64 == al << 16u64);
        assert(passive_lion_inverted_coords << 4u64 == pl << 20u64);
        let r: u64 = ((self.0 & !ALL_COORDS_MASK) ^ NONLION_ALLEGIANCE_MASK) | chick0_inverted_coords
            | chick1_inverted_coords | elephant0_inverted_coords | elephant1_inverted_coords
            | giraffe0_inverted_coords | giraffe1_inverted_coords | (active_lion_inverted_coords
            >> 4u64) | (passive_lion_inverted_coords << 4u64);
        Self(r)
    }
}

} // verus!

verus! {

pub open spec fn min_u64(a: u64, b: u64) -> u64 {
    if a <= b {
        a
    } else {
        b
    }
}

pub open spec fn max_u64(a: u64, b: u64) -> u64 {
    if a <= b {
        b
    } else {
        a
    }
}

/// The fields of the six non-lions.
pub const NONLION_MASK: u64 = 0x00ff_ffff_ff00_0000;

/// The node with each pair of pieces of one species put in order: the
/// smaller of the two pieces' fields goes to piece0 and the larger to piece1.
/// Everything else is kept.
pub open spec fn built(x: u64) -> u64 {
    let c0 = field(x, 50, 63);
    let c1 = field(x, 44, 63);
    let e0 = field(x, 39, 31);
    let e1 = field(x, 34, 31);
    let g0 = field(x, 29, 31);
    let g1 = field(x, 24, 31);
    (x & !NONLION_MASK) | (min_u64(c0, c1) << 50u64) | (max_u64(c0, c1) << 44u64) | (min_u64(e0, e1)
        << 39u64) | (max_u64(e0, e1) << 34u64) | (min_u64(g0, g1) << 29u64) | (max_u64(g0, g1)
        << 24u64)
}

/// What `built` does, field by field.
pub proof fn lemma_built_fields(x: u64)
    ensures
        field(built(x), 50, 63) == min_u64(field(x, 50, 63), field(x, 44, 63)),
        field(built(x), 44, 63) == max_u64(field(x, 50, 63), field(x, 44, 63)),
        field(built(x), 39, 31) == min_u64(field(x, 39, 31), field(x, 34, 31)),
        field(built(x), 34, 31) == max_u64(field(x, 39, 31), field(x, 34, 31)),
        field(built(x), 29, 31) == min_u64(field(x, 29, 31), field(x, 24, 31)),
        field(built(x), 24, 31) == max_u64(field(x, 29, 31), field(x, 24, 31)),
        built(x) & !NONLION_MASK == x & !NONLION_MASK,
{
    let c0 = field(x, 50, 63);
    let c1 = field(x, 44, 63);
    let e0 = field(x, 39, 31);
    let e1 = field(x, 34, 31);
    let g0 = field(x, 29, 31);
    let g1 = field(x, 24, 31);
    let lc = min_u64(c0, c1);
    let hc = max_u64(c0, c1);
    let le = min_u64(e0, e1);
    let he = max_u64(e0, e1);
    let lg = min_u64(g0, g1);
    let hg = max_u64(g0, g1);
    lemma_field_bounds(x, 50);
    lemma_field_bounds(x, 44);
    lemma_field_bounds(x, 39);
    lemma_field_bounds(x, 34);
    lemma_field_bounds(x, 29);
    lemma_field_bounds(x, 24);
    let y = built(x);
    assert({
        &&& (y >> 50u64) & 63 == lc
        &&& (y >> 44u64) & 63 == hc
        &&& (y >> 39u64) & 31 == le
        &&& (y >> 34u64) & 31 == he
        &&& (y >> 29u64) & 31 == lg
        &&& (y >> 24u64) & 31 == hg
        &&& y & !0x00ff_ffff_ff00_0000u64 == x & !0x00ff_ffff_ff00_0000u64
    }) by (bit_vector)
        requires
            lc < 64 && hc < 64 && le < 32 && he < 32 && lg < 32 && hg < 32,
            y == (x & !0x00ff_ffff_ff00_0000u64) | (lc << 50u64) | (hc << 44u64) | (le << 39u64)
                | (he << 34u64) | (lg << 29u64) | (hg << 24u64),
    ;
}

/// Puts the pair `(hi, lo)` of fields, the first at `hi_off` and the second
/// `gap` bits lower, in order, both at their original positions.
fn sorted_pair(x: u64, hi_off: u64, gap: u64, mask: u64) -> (r: (u64, u64))
    requires
        gap == 5 || gap == 6,
        mask == (if gap == 6 {
            63u64
        } else {
            31u64
        }),
        hi_off + gap <= 56,
        hi_off >= gap,
    ensures
        r.0 == min_u64(field(x, hi_off, mask), field(x, (hi_off - gap) as u64, mask)) << hi_off,
        r.1 == max_u64(field(x, hi_off, mask), field(x, (hi_off - gap) as u64, mask)) << (hi_off
            - gap) as u64,
{
    let lo_off: u64 = hi_off - gap;
    let hi: u64 = x & (mask << hi_off);
    let lo: u64 = x & (mask << lo_off);
    let lo_shifted: u64 = lo << gap;
    let a: u64 = (x >> hi_off) & mask;
    let b: u64 = (x >> lo_off) & mask;
    assert(hi == a << hi_off && lo == b << lo_off && lo_shifted == b << hi_off && (hi
        <= lo_shifted) == (a <= b) && hi >> gap == a << lo_off) by (bit_vector)
        requires
            gap == 5 || gap == 6,
            mask == (if gap == 6 {
                63u64
            } else {
                31u64
            }),
            hi_off + gap <= 56,
            hi_off >= gap,
            lo_off == hi_off - gap,
            hi == x & (mask << hi_off),
            lo == x & (mask << lo_off),
            lo_shifted == lo << gap,
            a == (x >> hi_off) & mask,
            b == (x >> lo_off) & mask,
    ;
    if hi <= lo_shifted {
        (hi, lo)
    } else {
        (lo_shifted, hi >> gap)
    }
}

impl NodeBuilder {
    /// Ensures that `chick0 <= chick1`, `elephant0 <= elephant1`, and
    /// `giraffe0 <= giraffe1` (see `built`).
    pub fn build(self) -> (r: SearchNode)
        ensures
            r.0 == built(self.0),
    {
        let (chick0, chick1) = sorted_pair(self.0, 50, 6, 63);
        let (elephant0, elephant1) = sorted_pair(self.0, 39, 5, 31);
        let (giraffe0, giraffe1) = sorted_pair(self.0, 29, 5, 31);
        SearchNode(
            (self.0 & !NONLION_MASK) | chick0 | chick1 | elephant0 | elephant1 | giraffe0
                | giraffe1,
        )
    }
}

} // verus!

verus! {

use crate::outcome::{Outcome, FromZeroPaddedI9, IntoZeroPaddedI9Unchecked, i9_value, i9_encoding};

/// The state bits of a search node (bits 16 to 56), in place.
pub const STATE_MASK: u64 = 0x00ff_ffff_ffff_0000;

/// The state of node `x`, in place.
pub open spec fn state_of(x: u64) -> u64 {
    x & STATE_MASK
}

/// The required child report count of node `x`.
pub open spec fn report_count_of(x: u64) -> u64 {
    field(x, 9, 127)
}

/// The best known outcome of node `x`.
pub open spec fn best_known_outcome_of(x: u64) -> int {
    i9_value(field(x, 0, 511))
}

/// The initial position: each player's chick in front of the lion, the
/// elephant to the lion's left and the giraffe to its right (as sente sees
/// the board), with all state stats zero.
pub const INITIAL_NODE: u64 = 0x2b_2078_5c1d_0000;

impl SearchNode {
    pub fn initial() -> (r: Self)
        ensures
            r.0 == INITIAL_NODE,
            crate::lineage::is_valid(r.0),
            built(r.0) == r.0,
            r.0 < 0x100_0000_0000_0000,
    {
        let active_chick: u64 = 0b0_01_01_0;
        let passive_chick: u64 = 0b1_10_01_0;
        let (chick0, chick1) = ascending(active_chick, passive_chick);

        let active_elephant: u64 = 0b0_00_00;
        let passive_elephant: u64 = 0b1_11_10;
        let (elephant0, elephant1) = ascending(active_elephant, passive_elephant);

        let active_giraffe: u64 = 0b0_00_10;
        let passive_giraffe: u64 = 0b1_11_00;
        let (giraffe0, giraffe1) = ascending(active_giraffe, passive_giraffe);

        let active_lion: u64 = 0b00_01;
        let passive_lion: u64 = 0b11_01;

        let r: u64 = (chick0 << 50u64) | (chick1 << 44u64) | (elephant0 << 39u64) | (elephant1
            << 34u64) | (giraffe0 << 29u64) | (giraffe1 << 24u64) | (active_lion << 20u64) | (
        passive_lion << 16u64);
        assert(r == 0x2b_2078_5c1d_0000u64) by (bit_vector)
            requires
                r == (10u64 << 50u64) | (50u64 << 44u64) | (0u64 << 39u64) | (30u64 << 34u64) | (
                2u64 << 29u64) | (28u64 << 24u64) | (1u64 << 20u64) | (13u64 << 16u64),
        ;
        proof {
            crate::retrograde::lemma_initial_node_valid();
        }
        SearchNode(r)
    }

    /// The state of the node, in its original (i.e., nonshifted) position.
    pub fn state(self) -> (r: u64)
        ensures
            r == state_of(self.0),
    {
        self.0 & STATE_MASK
    }

    pub fn required_child_report_count(self) -> (r: u8)
        ensures
            r == report_count_of(self.0),
    {
        proof {
            lemma_field_bounds(self.0, 9);
        }
        ((self.0 >> 9u64) & 0b111_1111) as u8
    }

    pub fn best_known_outcome(self) -> (r: Outcome)
        ensures
            r.0 == best_known_outcome_of(self.0),
    {
        proof {
            lemma_field_bounds(self.0, 0);
        }
        Outcome(i16::from_zero_padded_i9((self.0 >> 0u64) & 0b1_1111_1111))
    }

    /// The best outcome, once every child that has to report has reported.
    pub fn best_outcome(self) -> (r: Option<Outcome>)
        ensures
            r == (if report_count_of(self.0) > 0 {
                None
            } else {
                Some(Outcome(best_known_outcome_of(self.0) as i16))
            }),
    {
        if self.required_child_report_count() > 0 {
            return None;
        }
        Some(self.best_known_outcome())
    }

    /// Takes the outcome of a child into account: the child's outcome, seen
    /// from this node one ply earlier, replaces the best known outcome if it
    /// is better.
    pub fn record_child_outcome(self, child_outcome: Outcome) -> (r: Self)
        requires
            -256 <= child_outcome.0 <= 255,
        ensures
            ({
                let challenger = child_challenger(child_outcome.0 as int);
                if challenger > best_known_outcome_of(self.0) {
                    r.0 == crate::bits::with_field(self.0, 0, 511, i9_encoding(challenger))
                } else {
                    r.0 == self.0
                }
            }),
    {
        let incumbent = self.best_known_outcome();
        let challenger = child_outcome.invert().delay_by_one();
        if challenger.0 > incumbent.0 {
            let encoded: u64 = challenger.0.into_zero_padded_i9_unchecked();
            Self(self.0 & !(0b1_1111_1111u64 << 0u64) | (encoded << 0u64))
        } else {
            self
        }
    }

    /// One fewer child has to report.
    pub fn decrement_required_child_report_count(self) -> (r: Self)
        requires
            report_count_of(self.0) > 0,
        ensures
            report_count_of(r.0) == report_count_of(self.0) - 1,
            r.0 & !(127u64 << 9u64) == self.0 & !(127u64 << 9u64),
            r.0 == self.0 - 512,
    {
        let one: u64 = 1u64 << 9u64;
        proof {
            lemma_decrement_count(self.0, one);
        }
        Self(self.0 - one)
    }
}

/// Taking one from the required child report count.
proof fn lemma_decrement_count(x: u64, one: u64)
    by (bit_vector)
    requires
        (x >> 9u64) & 127 > 0,
        one == 1u64 << 9u64,
    ensures
        one == 512,
        x >= 512,
        (((x - 512) as u64) >> 9u64) & 127 == ((x >> 9u64) & 127) - 1,
        ((x - 512) as u64) & !(127u64 << 9u64) == x & !(127u64 << 9u64),
{
}

/// A child's outcome seen from its parent: from the other player's point of
/// view, and one ply later.
pub open spec fn child_challenger(child_outcome: int) -> int {
    if child_outcome < 0 {
        -child_outcome - 1
    } else if child_outcome > 0 {
        -child_outcome + 1
    } else {
        0
    }
}

/// Seen from the parent, a child in which the player to move wins in `n`
/// plies (outcome `201 - n`) is lost in `n + 1` plies (`-201 + n + 1`), a
/// child in which that player loses in `n` plies (`-201 + n`) is won in
/// `n + 1` plies (`201 - n - 1`), and a draw stays a draw.
pub proof fn lemma_child_challenger_in_plies(n: int)
    requires
        0 <= n < 201,
    ensures
        child_challenger(201 - n) == -201 + (n + 1),
        child_challenger(-201 + n) == 201 - (n + 1),
        child_challenger(0) == 0,
{
}

/// The two numbers in ascending order.
fn ascending(a: u64, b: u64) -> (r: (u64, u64))
    ensures
        r == (min_u64(a, b), max_u64(a, b)),
{
    if a <= b {
        (a, b)
    } else {
        (b, a)
    }
}

} // verus!

verus! {

use crate::coords::{Board, Coords};
use crate::pieces::{Nonlion, coords_offset_of, allegiance_offset_of};

/// The square contents of the non-lion with code `p` of node `x`, at the bit
/// of the board where its square lies (pieces in hand land in the unused
/// column).
pub open spec fn nonlion_board_term(x: u64, p: u8) -> u64 {
    (field(x, (allegiance_offset_of(p) - 3) as u64, 8) | (p as u64)) << (4 * field(
        x,
        coords_offset_of(p),
        15,
    )) as u64
}

/// The board of node `x`: every piece's square contents at its square.
pub open spec fn board_of(x: u64) -> u64 {
    nonlion_board_term(x, 2) | nonlion_board_term(x, 3) | nonlion_board_term(x, 4)
        | nonlion_board_term(x, 5) | nonlion_board_term(x, 6) | nonlion_board_term(x, 7) | (1u64
        << (4 * field(x, 20, 15)) as u64) | (9u64 << (4 * field(x, 16, 15)) as u64)
}

/// A square of a node's board is either empty or holds a piece code.
pub proof fn lemma_board_square_has_piece(x: u64, c: u64)
    requires
        c < 16,
    ensures
        ({
            let sq = field(board_of(x), (4 * c) as u64, 15);
            sq == 0 || sq & 7 != 0
        }),
{
    let b = board_of(x);
    let cc = (4 * c) as u64;
    assert((b >> cc) & 15 == 0 || ((b >> cc) & 15) & 7 != 0) by (bit_vector)
        requires
            cc == 4 * c,
            c < 16,
            b == ((((x >> 52u64) & 8) | 2) << ((4 * ((x >> 51u64) & 15)) as u64))
                | ((((x >> 46u64) & 8) | 3) << ((4 * ((x >> 45u64) & 15)) as u64))
                | ((((x >> 40u64) & 8) | 4) << ((4 * ((x >> 39u64) & 15)) as u64))
                | ((((x >> 35u64) & 8) | 5) << ((4 * ((x >> 34u64) & 15)) as u64))
                | ((((x >> 30u64) & 8) | 6) << ((4 * ((x >> 29u64) & 15)) as u64))
                | ((((x >> 25u64) & 8) | 7) << ((4 * ((x >> 24u64) & 15)) as u64))
                | (1u64 << ((4 * ((x >> 20u64) & 15)) as u64))
                | (9u64 << ((4 * ((x >> 16u64) & 15)) as u64)),
    ;
}

impl NodeBuilder {
    pub fn nonlion_coords(self, piece: Nonlion) -> (r: Coords)
        ensures
            r.0 == field(self.0, crate::pieces::nonlion_offset_of(piece.0.0), 15),
            r.0 < 16,
    {
        let n: u64 = self.0;
        let off: u64 = piece.coords_offset();
        proof {
            lemma_field_bounds(n, off);
        }
        Coords(((n >> off) & 0b1111) as u8)
    }

    /// The allegiance bit of a non-lion, moved to bit 3.
    pub fn nonlion_allegiance_in_bit_3(self, piece: Nonlion) -> (r: u64)
        ensures
            r == (if crate::pieces::is_nonlion_code(piece.0.0) {
                field(self.0, (allegiance_offset_of(piece.0.0) - 3) as u64, 8)
            } else {
                0
            }),
    {
        let p: u8 = piece.0.0;
        if 2 <= p && p <= 7 {
            (self.0 >> (crate::pieces::coords_offset_for(p) + 1)) & 0b1000u64
        } else {
            0
        }
    }

    pub fn active_lion_coords(self) -> (r: Coords)
        ensures
            r.0 == field(self.0, 20, 15),
            r.0 < 16,
    {
        let n: u64 = self.0;
        proof {
            lemma_field_bounds(n, 20);
        }
        Coords(((n >> 20u64) & 0b1111) as u8)
    }

    pub fn passive_lion_coords(self) -> (r: Coords)
        ensures
            r.0 == field(self.0, 16, 15),
            r.0 < 16,
    {
        let n: u64 = self.0;
        proof {
            lemma_field_bounds(n, 16);
        }
        Coords(((n >> 16u64) & 0b1111) as u8)
    }

    /// The square contents of a non-lion, at the bit where its square lies.
    fn nonlion_board_term(self, piece: Nonlion) -> (r: u64)
        requires
            2 <= piece.0.0 <= 7,
        ensures
            r == nonlion_board_term(self.0, piece.0.0),
    {
        let board_offset: u64 = self.nonlion_coords(piece).board_offset();
        (self.nonlion_allegiance_in_bit_3(piece) | (piece.0.0 as u64)) << board_offset
    }

    /// The board of this node (see `board_of`).
    pub fn board(self) -> (r: Board)
        ensures
            r.0 == board_of(self.0),
    {
        let chick0: u64 = self.nonlion_board_term(Nonlion::chick0());
        let chick1: u64 = self.nonlion_board_term(Nonlion::chick1());
        let elephant0: u64 = self.nonlion_board_term(Nonlion::elephant0());
        let elephant1: u64 = self.nonlion_board_term(Nonlion::elephant1());
        let giraffe0: u64 = self.nonlion_board_term(Nonlion::giraffe0());
        let giraffe1: u64 = self.nonlion_board_term(Nonlion::giraffe1());
        let active_lion: u64 = 1u64 << self.active_lion_coords().board_offset();
        let passive_lion: u64 = 0b1_001u64 << self.passive_lion_coords().board_offset();
        Board(
            chick0 | chick1 | elephant0 | elephant1 | giraffe0 | giraffe1 | active_lion
                | passive_lion,
        )
    }
}

} // verus!
