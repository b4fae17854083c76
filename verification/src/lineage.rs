//! How a node's children and parents relate: the parts a node is made of,
//! the nodes that differ only in which piece of a species is which, and the
//! fact that a node is a parent of each of its children.
use vstd::prelude::*;
use crate::bits::{field, lemma_field_bounds, lemma_with_bit, lemma_with_nibble, with_field};
use crate::children::{captured, children_of, drop_child, drop_is_duplicate, vacated};
use crate::coords::{is_board_square, square_of};
use crate::node::{
    Terminality, board_of, built, inverted, inverted_coords, is_terminal_node, lemma_built_fields,
    lemma_inversion_is_involutive, lemma_inverted_fields, max_u64, min_u64, terminality_of,
};
use crate::parents::{actor_parents, concat_map, keep_parent, parents_of};
use crate::pieces::{allegiance_offset_of, coords_offset_of, is_nonlion_code, promotion_offset_of};

verus! {

/// Bit position of the coordinates of piece `q`: `0` stands for the passive
/// lion, `1` for the active lion and `2` to `7` for the non-lions.
pub open spec fn co_offset(q: u8) -> u64 {
    if q == 0 {
        16
    } else {
        coords_offset_of(q)
    }
}

/// The coordinates of piece `q` of node `x`.
pub open spec fn co(x: u64, q: u8) -> u64 {
    field(x, co_offset(q), 15)
}

/// The allegiance bit of piece `q` of node `x` (`0` for a lion).
pub open spec fn al(x: u64, q: u8) -> u64 {
    if is_nonlion_code(q) {
        field(x, allegiance_offset_of(q), 1)
    } else {
        0
    }
}

/// The promotion bit of piece `q` of node `x` (`0` for any but a chick).
pub open spec fn pr(x: u64, q: u8) -> u64 {
    if q == 2 || q == 3 {
        field(x, promotion_offset_of(q), 1)
    } else {
        0
    }
}

/// Everything node `x` says of piece `q`.
pub open spec fn tri(x: u64, q: u8) -> (u64, u64, u64) {
    (co(x, q), al(x, q), pr(x, q))
}

/// The state stats of node `x`.
pub open spec fn low(x: u64) -> u64 {
    x & 0xffff
}

/// The unused top byte of node `x`.
pub open spec fn top(x: u64) -> u64 {
    x >> 56u64
}

/// Whether node `b` agrees with node `a` on everything but piece `q`.
pub open spec fn same_but(a: u64, b: u64, q: u8) -> bool {
    &&& low(b) == low(a)
    &&& top(b) == top(a)
    &&& forall|r: u8| r <= 7 && r != q ==> #[trigger] tri(b, r) == tri(a, r)
}

/// The parts of a node determine it.
proof fn lemma_equal_by_bits(a: u64, b: u64)
    requires
        a & 0xffff == b & 0xffff,
        a >> 56u64 == b >> 56u64,
        (a >> 16u64) & 15 == (b >> 16u64) & 15,
        (a >> 20u64) & 15 == (b >> 20u64) & 15,
        (a >> 24u64) & 15 == (b >> 24u64) & 15,
        (a >> 29u64) & 15 == (b >> 29u64) & 15,
        (a >> 34u64) & 15 == (b >> 34u64) & 15,
        (a >> 39u64) & 15 == (b >> 39u64) & 15,
        (a >> 45u64) & 15 == (b >> 45u64) & 15,
        (a >> 51u64) & 15 == (b >> 51u64) & 15,
        (a >> 28u64) & 1 == (b >> 28u64) & 1,
        (a >> 33u64) & 1 == (b >> 33u64) & 1,
        (a >> 38u64) & 1 == (b >> 38u64) & 1,
        (a >> 43u64) & 1 == (b >> 43u64) & 1,
        (a >> 49u64) & 1 == (b >> 49u64) & 1,
        (a >> 55u64) & 1 == (b >> 55u64) & 1,
        (a >> 44u64) & 1 == (b >> 44u64) & 1,
        (a >> 50u64) & 1 == (b >> 50u64) & 1,
    ensures
        a == b,
{
    assert(a == b) by (bit_vector)
        requires
            a & 0xffff == b & 0xffff,
            a >> 56u64 == b >> 56u64,
            (a >> 16u64) & 15 == (b >> 16u64) & 15,
            (a >> 20u64) & 15 == (b >> 20u64) & 15,
            (a >> 24u64) & 15 == (b >> 24u64) & 15,
            (a >> 29u64) & 15 == (b >> 29u64) & 15,
            (a >> 34u64) & 15 == (b >> 34u64) & 15,
            (a >> 39u64) & 15 == (b >> 39u64) & 15,
            (a >> 45u64) & 15 == (b >> 45u64) & 15,
            (a >> 51u64) & 15 == (b >> 51u64) & 15,
            (a >> 28u64) & 1 == (b >> 28u64) & 1,
            (a >> 33u64) & 1 == (b >> 33u64) & 1,
            (a >> 38u64) & 1 == (b >> 38u64) & 1,
            (a >> 43u64) & 1 == (b >> 43u64) & 1,
            (a >> 49u64) & 1 == (b >> 49u64) & 1,
            (a >> 55u64) & 1 == (b >> 55u64) & 1,
            (a >> 44u64) & 1 == (b >> 44u64) & 1,
            (a >> 50u64) & 1 == (b >> 50u64) & 1,
    ;
}

/// Nodes that agree on every part are equal.
pub proof fn lemma_equal_by_tri(a: u64, b: u64)
    requires
        low(a) == low(b),
        top(a) == top(b),
        forall|r: u8| r <= 7 ==> #[trigger] tri(a, r) == tri(b, r),
    ensures
        a == b,
{
    assert(tri(a, 0) == tri(b, 0));
    assert(tri(a, 1) == tri(b, 1));
    assert(tri(a, 2) == tri(b, 2));
    assert(tri(a, 3) == tri(b, 3));
    assert(tri(a, 4) == tri(b, 4));
    assert(tri(a, 5) == tri(b, 5));
    assert(tri(a, 6) == tri(b, 6));
    assert(tri(a, 7) == tri(b, 7));
    lemma_equal_by_bits(a, b);
}

/// Every part fits its field.
pub proof fn lemma_tri_bounds(x: u64, q: u8)
    ensures
        co(x, q) < 16,
        al(x, q) < 2,
        pr(x, q) < 2,
{
    lemma_field_bounds(x, co_offset(q));
    lemma_field_bounds(x, allegiance_offset_of(q));
    lemma_field_bounds(x, promotion_offset_of(q));
}

/// Replacing a 4-bit or 1-bit field of a piece keeps the state stats and
/// the top byte.
proof fn lemma_update_keeps_ends(x: u64, off: u64, mask: u64, v: u64)
    by (bit_vector)
    requires
        16 <= off <= 55,
        mask == 15 ==> off <= 52,
        mask == 15 || mask == 1,
        v <= mask,
    ensures
        ((x & !(mask << off)) | (v << off)) & 0xffff == x & 0xffff,
        ((x & !(mask << off)) | (v << off)) >> 56u64 == x >> 56u64,
{
}

/// Moving piece `q` to `v` changes nothing else.
pub proof fn lemma_set_co(x: u64, q: u8, v: u64)
    requires
        q <= 7,
        v < 16,
    ensures
        same_but(x, with_field(x, co_offset(q), 15, v), q),
        tri(with_field(x, co_offset(q), 15, v), q) == (v, al(x, q), pr(x, q)),
{
    let off = co_offset(q);
    let y = with_field(x, off, 15, v);
    lemma_with_nibble(x, off, v);
    lemma_update_keeps_ends(x, off, 15, v);
    assert forall|r: u8| r <= 7 implies #[trigger] tri(y, r) == if r == q {
        (v, al(x, q), pr(x, q))
    } else {
        tri(x, r)
    } by {
        assert(r == 0 || r == 1 || r == 2 || r == 3 || r == 4 || r == 5 || r == 6 || r == 7);
        assert(q == 0 || q == 1 || q == 2 || q == 3 || q == 4 || q == 5 || q == 6 || q == 7);
        assert(field(y, co_offset(r), 15) == field(x, co_offset(r), 15) || r == q);
        if is_nonlion_code(r) {
            assert(field(y, allegiance_offset_of(r), 1) == field(x, allegiance_offset_of(r), 1));
        }
        if r == 2 || r == 3 {
            assert(field(y, promotion_offset_of(r), 1) == field(x, promotion_offset_of(r), 1));
        }
    }
}

/// Setting the allegiance or promotion bit of piece `q` changes nothing
/// else.
pub proof fn lemma_set_bit(x: u64, q: u8, off: u64, v: u64)
    requires
        2 <= q <= 7,
        off == allegiance_offset_of(q) || ((q == 2 || q == 3) && off == promotion_offset_of(q)),
        v < 2,
    ensures
        same_but(x, with_field(x, off, 1, v), q),
        tri(with_field(x, off, 1, v), q) == if off == allegiance_offset_of(q) {
            (co(x, q), v, pr(x, q))
        } else {
            (co(x, q), al(x, q), v)
        },
{
    let y = with_field(x, off, 1, v);
    lemma_with_bit(x, off, v);
    lemma_update_keeps_ends(x, off, 1, v);
    assert forall|r: u8| r <= 7 implies #[trigger] tri(y, r) == if r == q {
        if off == allegiance_offset_of(q) {
            (co(x, q), v, pr(x, q))
        } else {
            (co(x, q), al(x, q), v)
        }
    } else {
        tri(x, r)
    } by {
        assert(r == 0 || r == 1 || r == 2 || r == 3 || r == 4 || r == 5 || r == 6 || r == 7);
        assert(q == 2 || q == 3 || q == 4 || q == 5 || q == 6 || q == 7);
        assert(field(y, co_offset(r), 15) == field(x, co_offset(r), 15));
        if is_nonlion_code(r) {
            assert(field(y, allegiance_offset_of(r), 1) == field(x, allegiance_offset_of(r), 1)
                || (r == q && off == allegiance_offset_of(q)));
        }
        if r == 2 || r == 3 {
            assert(field(y, promotion_offset_of(r), 1) == field(x, promotion_offset_of(r), 1)
                || (r == q && off == promotion_offset_of(q)));
        }
    }
}

/// The numbers by which `built` orders the two pieces of a species: the
/// whole field of a non-lion.
pub open spec fn val(x: u64, q: u8) -> u64 {
    if q == 2 || q == 3 {
        field(x, promotion_offset_of(q), 63)
    } else {
        field(x, coords_offset_of(q), 31)
    }
}

/// A chick's field is its promotion bit, coordinates and allegiance bit; any
/// other non-lion's field is its coordinates and allegiance bit.
proof fn lemma_field_parts(x: u64, o: u64)
    by (bit_vector)
    requires
        o <= 58,
    ensures
        (x >> o) & 63 == ((x >> o) & 1) + 2 * ((x >> ((o + 1) as u64)) & 15) + 32 * ((x >> ((o
            + 5) as u64)) & 1),
        (x >> o) & 31 == ((x >> o) & 15) + 16 * ((x >> ((o + 4) as u64)) & 1),
        (x >> o) & 8 == 8 * ((x >> ((o + 3) as u64)) & 1),
{
}

/// The number by which `built` orders a non-lion is made of its parts.
pub proof fn lemma_val(x: u64, q: u8)
    requires
        2 <= q <= 7,
    ensures
        val(x, q) == pr(x, q) + 2 * co(x, q) + 32 * al(x, q) || (q >= 4 && val(x, q) == co(x, q)
            + 16 * al(x, q)),
        q >= 4 ==> val(x, q) == co(x, q) + 16 * al(x, q),
        q <= 3 ==> val(x, q) == pr(x, q) + 2 * co(x, q) + 32 * al(x, q),
{
    lemma_field_parts(x, promotion_offset_of(q));
    lemma_field_parts(x, coords_offset_of(q));
}

/// Two non-lions of one species with one number agree on every part.
pub proof fn lemma_val_injective(a: u64, qa: u8, b: u64, qb: u8)
    requires
        2 <= qa <= 7,
        2 <= qb <= 7,
        (qa <= 3) == (qb <= 3),
        val(a, qa) == val(b, qb),
    ensures
        tri(a, qa) == tri(b, qb),
{
    lemma_val(a, qa);
    lemma_val(b, qb);
    lemma_tri_bounds(a, qa);
    lemma_tri_bounds(b, qb);
}

/// Bits that agree outside the non-lions' fields give the same state stats,
/// top byte and lions.
proof fn lemma_outside_nonlions(a: u64, b: u64)
    by (bit_vector)
    requires
        a & !0x00ff_ffff_ff00_0000u64 == b & !0x00ff_ffff_ff00_0000u64,
    ensures
        a & 0xffff == b & 0xffff,
        a >> 56u64 == b >> 56u64,
        (a >> 16u64) & 15 == (b >> 16u64) & 15,
        (a >> 20u64) & 15 == (b >> 20u64) & 15,
{
}

/// Bits that agree on what a change of perspective keeps give the same
/// state stats, top byte and promotion bits.
proof fn lemma_perspective_bits(a: u64, b: u64)
    by (bit_vector)
    requires
        a & 0xff04_1000_0000_ffffu64 == b & 0xff04_1000_0000_ffffu64,
    ensures
        a & 0xffff == b & 0xffff,
        a >> 56u64 == b >> 56u64,
        (a >> 44u64) & 1 == (b >> 44u64) & 1,
        (a >> 50u64) & 1 == (b >> 50u64) & 1,
{
}

/// The second piece of the species of non-lion `q`.
pub open spec fn partner(q: u8) -> u8 {
    if q % 2 == 0 {
        (q + 1) as u8
    } else {
        (q - 1) as u8
    }
}

/// Whether `a` and `b` hold the same two pieces of the species whose first
/// piece is `q`, in either order.
pub open spec fn pair_matches(a: u64, b: u64, q: u8) -> bool {
    ||| (tri(a, q) == tri(b, q) && tri(a, (q + 1) as u8) == tri(b, (q + 1) as u8))
    ||| (tri(a, q) == tri(b, (q + 1) as u8) && tri(a, (q + 1) as u8) == tri(b, q))
}

/// Whether `a` and `b` are one node but for which piece of a species is
/// which.
pub open spec fn equiv(a: u64, b: u64) -> bool {
    &&& low(a) == low(b)
    &&& top(a) == top(b)
    &&& tri(a, 0) == tri(b, 0)
    &&& tri(a, 1) == tri(b, 1)
    &&& pair_matches(a, b, 2)
    &&& pair_matches(a, b, 4)
    &&& pair_matches(a, b, 6)
}

/// What `built` does, part by part: it keeps everything but the order of
/// the two pieces of each species, which it sorts by their numbers.
pub proof fn lemma_built_parts(x: u64)
    ensures
        equiv(built(x), x),
        val(built(x), 2) <= val(built(x), 3),
        val(built(x), 4) <= val(built(x), 5),
        val(built(x), 6) <= val(built(x), 7),
{
    let y = built(x);
    lemma_built_fields(x);
    lemma_outside_nonlions(y, x);
    assert(val(y, 2) == min_u64(val(x, 2), val(x, 3)));
    assert(val(y, 3) == max_u64(val(x, 2), val(x, 3)));
    assert(val(y, 4) == min_u64(val(x, 4), val(x, 5)));
    assert(val(y, 5) == max_u64(val(x, 4), val(x, 5)));
    assert(val(y, 6) == min_u64(val(x, 6), val(x, 7)));
    assert(val(y, 7) == max_u64(val(x, 6), val(x, 7)));
    if val(x, 2) <= val(x, 3) {
        lemma_val_injective(y, 2, x, 2);
        lemma_val_injective(y, 3, x, 3);
    } else {
        lemma_val_injective(y, 2, x, 3);
        lemma_val_injective(y, 3, x, 2);
    }
    if val(x, 4) <= val(x, 5) {
        lemma_val_injective(y, 4, x, 4);
        lemma_val_injective(y, 5, x, 5);
    } else {
        lemma_val_injective(y, 4, x, 5);
        lemma_val_injective(y, 5, x, 4);
    }
    if val(x, 6) <= val(x, 7) {
        lemma_val_injective(y, 6, x, 6);
        lemma_val_injective(y, 7, x, 7);
    } else {
        lemma_val_injective(y, 6, x, 7);
        lemma_val_injective(y, 7, x, 6);
    }
}

/// Nodes that are one node but for which piece of a species is which build
/// to the same node.
pub proof fn lemma_equiv_built(a: u64, b: u64)
    requires
        equiv(a, b),
    ensures
        built(a) == built(b),
{
    let ya = built(a);
    let yb = built(b);
    lemma_built_parts(a);
    lemma_built_parts(b);
    lemma_val(a, 2);
    lemma_val(a, 3);
    lemma_val(a, 4);
    lemma_val(a, 5);
    lemma_val(a, 6);
    lemma_val(a, 7);
    lemma_val(b, 2);
    lemma_val(b, 3);
    lemma_val(b, 4);
    lemma_val(b, 5);
    lemma_val(b, 6);
    lemma_val(b, 7);
    lemma_built_fields(a);
    lemma_built_fields(b);
    assert(val(ya, 2) == val(yb, 2) && val(ya, 3) == val(yb, 3));
    assert(val(ya, 4) == val(yb, 4) && val(ya, 5) == val(yb, 5));
    assert(val(ya, 6) == val(yb, 6) && val(ya, 7) == val(yb, 7));
    assert forall|r: u8| r <= 7 implies #[trigger] tri(ya, r) == tri(yb, r) by {
        if 2 <= r {
            lemma_val_injective(ya, r, yb, r);
        }
    }
    lemma_equal_by_tri(ya, yb);
}

/// What `inverted` does, part by part.
pub proof fn lemma_inverted_parts(x: u64)
    ensures
        low(inverted(x)) == low(x),
        top(inverted(x)) == top(x),
        tri(inverted(x), 0) == (inverted_coords(co(x, 1)), 0u64, 0u64),
        tri(inverted(x), 1) == (inverted_coords(co(x, 0)), 0u64, 0u64),
        forall|q: u8|
            2 <= q <= 7 ==> #[trigger] tri(inverted(x), q) == (
                inverted_coords(co(x, q)),
                (1 - al(x, q)) as u64,
                pr(x, q),
            ),
{
    let y = inverted(x);
    lemma_inverted_fields(x);
    lemma_perspective_bits(y, x);
    assert forall|q: u8| 2 <= q <= 7 implies #[trigger] tri(inverted(x), q) == (
        inverted_coords(co(x, q)),
        (1 - al(x, q)) as u64,
        pr(x, q),
    ) by {
        assert(q == 2 || q == 3 || q == 4 || q == 5 || q == 6 || q == 7);
    }
}

/// Seeing two such nodes from the other side keeps them so.
pub proof fn lemma_equiv_inverted(a: u64, b: u64)
    requires
        equiv(a, b),
    ensures
        equiv(inverted(a), inverted(b)),
{
    lemma_inverted_parts(a);
    lemma_inverted_parts(b);
    assert(tri(inverted(a), 2) == tri(inverted(a), 2));
    assert(tri(inverted(a), 3) == tri(inverted(a), 3));
    assert(tri(inverted(a), 4) == tri(inverted(a), 4));
    assert(tri(inverted(a), 5) == tri(inverted(a), 5));
    assert(tri(inverted(a), 6) == tri(inverted(a), 6));
    assert(tri(inverted(a), 7) == tri(inverted(a), 7));
    assert(tri(inverted(b), 2) == tri(inverted(b), 2));
    assert(tri(inverted(b), 3) == tri(inverted(b), 3));
    assert(tri(inverted(b), 4) == tri(inverted(b), 4));
    assert(tri(inverted(b), 5) == tri(inverted(b), 5));
    assert(tri(inverted(b), 6) == tri(inverted(b), 6));
    assert(tri(inverted(b), 7) == tri(inverted(b), 7));
}

/// Agreeing on everything but one piece goes both ways.
pub proof fn lemma_same_but_symmetric(a: u64, b: u64, q: u8)
    requires
        same_but(a, b, q),
    ensures
        same_but(b, a, q),
{
    assert forall|r: u8| r <= 7 && r != q implies #[trigger] tri(a, r) == tri(b, r) by {
        assert(tri(b, r) == tri(a, r));
    }
}

/// For each piece of `b`, `a` has a piece of the same species with the same
/// parts.
pub proof fn lemma_corresponding(a: u64, b: u64, qb: u8) -> (qa: u8)
    requires
        equiv(a, b),
        qb <= 7,
    ensures
        qa <= 7,
        qa == qb || (2 <= qb && qa == partner(qb)),
        tri(a, qa) == tri(b, qb),
{
    if qb <= 1 || tri(a, qb) == tri(b, qb) {
        qb
    } else {
        partner(qb)
    }
}

/// Changing corresponding pieces of two such nodes alike keeps them so.
pub proof fn lemma_equiv_update(a: u64, b: u64, qa: u8, qb: u8, a2: u64, b2: u64)
    requires
        equiv(a, b),
        qb <= 7,
        qa == qb || (2 <= qb && qa == partner(qb)),
        tri(a, qa) == tri(b, qb),
        same_but(a, a2, qa),
        same_but(b, b2, qb),
        tri(a2, qa) == tri(b2, qb),
    ensures
        equiv(a2, b2),
{
    assert(qb == 0 || qb == 1 || qb == 2 || qb == 3 || qb == 4 || qb == 5 || qb == 6 || qb == 7);
    assert(tri(a2, 0) == tri(a, 0) || qa == 0);
    assert(tri(a2, 1) == tri(a, 1) || qa == 1);
    assert(tri(a2, 2) == tri(a, 2) || qa == 2);
    assert(tri(a2, 3) == tri(a, 3) || qa == 3);
    assert(tri(a2, 4) == tri(a, 4) || qa == 4);
    assert(tri(a2, 5) == tri(a, 5) || qa == 5);
    assert(tri(a2, 6) == tri(a, 6) || qa == 6);
    assert(tri(a2, 7) == tri(a, 7) || qa == 7);
    assert(tri(b2, 0) == tri(b, 0) || qb == 0);
    assert(tri(b2, 1) == tri(b, 1) || qb == 1);
    assert(tri(b2, 2) == tri(b, 2) || qb == 2);
    assert(tri(b2, 3) == tri(b, 3) || qb == 3);
    assert(tri(b2, 4) == tri(b, 4) || qb == 4);
    assert(tri(b2, 5) == tri(b, 5) || qb == 5);
    assert(tri(b2, 6) == tri(b, 6) || qb == 6);
    assert(tri(b2, 7) == tri(b, 7) || qb == 7);
}

/// The row bits of the active lion's coordinates.
proof fn lemma_lion_row(x: u64)
    by (bit_vector)
    ensures
        (x >> 22u64) & 3 == ((x >> 20u64) & 15) / 4,
{
}

/// Whether a node is terminal depends on its active lion alone.
pub proof fn lemma_terminality_by_lion(a: u64, b: u64)
    requires
        co(a, 1) == co(b, 1),
    ensures
        terminality_of(a) == terminality_of(b),
{
    lemma_lion_row(a);
    lemma_lion_row(b);
}

/// A child seen by the player who moved is, but for which piece of a
/// species is which, the node right after the move.
pub proof fn lemma_child_seen_back(m: u64)
    ensures
        equiv(inverted(built(inverted(m))), m),
{
    lemma_built_parts(inverted(m));
    lemma_equiv_inverted(built(inverted(m)), inverted(m));
    lemma_inversion_is_involutive(m);
}

/// Whether every piece of node `x` stands on a square of its own or in a
/// hand, with no hen in a hand.
pub open spec fn pieces_placed(x: u64) -> bool {
    &&& forall|q: u8| q <= 7 ==> (#[trigger] co(x, q) == 15 || is_board_square(co(x, q)))
    &&& forall|q: u8, r: u8|
        q <= 7 && r <= 7 && q != r && #[trigger] co(x, q) == #[trigger] co(x, r) ==> co(x, q) == 15
    &&& forall|q: u8| (q == 2 || q == 3) && co(x, q) == 15 ==> #[trigger] pr(x, q) == 0
}

/// Whether node `x` is well placed (see `pieces_placed`) with the lion of
/// the player who just moved on the board.
pub open spec fn is_valid(x: u64) -> bool {
    &&& pieces_placed(x)
    &&& is_board_square(co(x, 0))
}

/// A node that is one node but for which piece of a species is which, with
/// the active lion of `x`, is a possible parent that builds to `x`.
proof fn lemma_keep_parent_of(v: u64, x: u64)
    requires
        equiv(v, x),
        built(x) == x,
        !is_terminal_node(x),
    ensures
        keep_parent(v) == seq![x],
{
    lemma_equiv_built(v, x);
    lemma_terminality_by_lion(v, x);
}

/// A drop leads to a child that lists the dropping node among its parents.
pub proof fn lemma_drop_child_lists_parent(x: u64, p: u8, d: u64)
    requires
        is_valid(x),
        built(x) == x,
        !is_terminal_node(x),
        2 <= p <= 7,
        al(x, p) == 0,
        co(x, p) == 15,
        is_board_square(d),
    ensures
        parents_of(drop_child(x, p, d)).contains(x),
{
    let m = with_field(x, co_offset(p), 15, d);
    let c = drop_child(x, p, d);
    let y = inverted(c);
    lemma_set_co(x, p, d);
    lemma_child_seen_back(m);
    assert(pr(x, p) == 0);
    let q = lemma_corresponding(y, m, p);
    assert(tri(y, q) == (d, 0u64, 0u64));
    let v = with_field(y, co_offset(q), 15, 15);
    lemma_set_co(y, q, 15);
    lemma_same_but_symmetric(x, m, p);
    lemma_equiv_update(y, m, q, p, v, x);
    lemma_keep_parent_of(v, x);
    let ap = actor_parents(y, q);
    assert(ap == keep_parent(v) + ap.subrange(1, ap.len() as int));
    assert(ap[0] == x);
    lemma_parents_contain(c, q, x, 0);
}

/// A node that some actor's parents contain is among the parents.
proof fn lemma_parents_contain(c: u64, q: u8, x: u64, i: int)
    requires
        1 <= q <= 7,
        0 <= i < actor_parents(inverted(c), q).len(),
        actor_parents(inverted(c), q)[i] == x,
    ensures
        parents_of(c).contains(x),
{
    let y = inverted(c);
    let s1 = actor_parents(y, 1);
    let s2 = actor_parents(y, 2);
    let s3 = actor_parents(y, 3);
    let s4 = actor_parents(y, 4);
    let s5 = actor_parents(y, 5);
    let s6 = actor_parents(y, 6);
    let s7 = actor_parents(y, 7);
    let all = parents_of(c);
    assert(all == s1 + s2 + s3 + s4 + s5 + s6 + s7);
    let k: int = if q == 1 {
        i
    } else if q == 2 {
        s1.len() + i
    } else if q == 3 {
        s1.len() + s2.len() + i
    } else if q == 4 {
        s1.len() + s2.len() + s3.len() + i
    } else if q == 5 {
        s1.len() + s2.len() + s3.len() + s4.len() + i
    } else if q == 6 {
        s1.len() + s2.len() + s3.len() + s4.len() + s5.len() + i
    } else {
        s1.len() + s2.len() + s3.len() + s4.len() + s5.len() + s6.len() + i
    };
    assert(all[k] == x);
}

/// What a board square holds: for each piece that stands there, its code,
/// with the bit `8` for the passive player.
proof fn lemma_board_bits(x: u64, c: u64, b: u64)
    by (bit_vector)
    requires
        c < 15,
        b == ((((x >> 52u64) & 8) | 2) << ((4 * ((x >> 51u64) & 15)) as u64)) | ((((x >> 46u64)
            & 8) | 3) << ((4 * ((x >> 45u64) & 15)) as u64)) | ((((x >> 40u64) & 8) | 4) << ((4
            * ((x >> 39u64) & 15)) as u64)) | ((((x >> 35u64) & 8) | 5) << ((4 * ((x >> 34u64)
            & 15)) as u64)) | ((((x >> 30u64) & 8) | 6) << ((4 * ((x >> 29u64) & 15)) as u64))
            | ((((x >> 25u64) & 8) | 7) << ((4 * ((x >> 24u64) & 15)) as u64)) | (1u64 << ((4
            * ((x >> 20u64) & 15)) as u64)) | (9u64 << ((4 * ((x >> 16u64) & 15)) as u64)),
    ensures
        (x >> 51u64) & 15 != c && (x >> 45u64) & 15 != c && (x >> 39u64) & 15 != c && (x >> 34u64)
            & 15 != c && (x >> 29u64) & 15 != c && (x >> 24u64) & 15 != c && (x >> 20u64) & 15 != c
            && (x >> 16u64) & 15 != c ==> (b >> ((4 * c) as u64)) & 15 == 0,
        (x >> 51u64) & 15 == c && (x >> 45u64) & 15 != c && (x >> 39u64) & 15 != c && (x >> 34u64) & 15 != c && (x >> 29u64) & 15 != c && (x >> 24u64) & 15 != c && (x >> 20u64) & 15 != c && (x >> 16u64) & 15 != c ==> (b >> ((4 * c) as u64)) & 15 == ((x >> 52u64) & 8) + 2,
        (x >> 51u64) & 15 != c && (x >> 45u64) & 15 == c && (x >> 39u64) & 15 != c && (x >> 34u64) & 15 != c && (x >> 29u64) & 15 != c && (x >> 24u64) & 15 != c && (x >> 20u64) & 15 != c && (x >> 16u64) & 15 != c ==> (b >> ((4 * c) as u64)) & 15 == ((x >> 46u64) & 8) + 3,
        (x >> 51u64) & 15 != c && (x >> 45u64) & 15 != c && (x >> 39u64) & 15 == c && (x >> 34u64) & 15 != c && (x >> 29u64) & 15 != c && (x >> 24u64) & 15 != c && (x >> 20u64) & 15 != c && (x >> 16u64) & 15 != c ==> (b >> ((4 * c) as u64)) & 15 == ((x >> 40u64) & 8) + 4,
        (x >> 51u64) & 15 != c && (x >> 45u64) & 15 != c && (x >> 39u64) & 15 != c && (x >> 34u64) & 15 == c && (x >> 29u64) & 15 != c && (x >> 24u64) & 15 != c && (x >> 20u64) & 15 != c && (x >> 16u64) & 15 != c ==> (b >> ((4 * c) as u64)) & 15 == ((x >> 35u64) & 8) + 5,
        (x >> 51u64) & 15 != c && (x >> 45u64) & 15 != c && (x >> 39u64) & 15 != c && (x >> 34u64) & 15 != c && (x >> 29u64) & 15 == c && (x >> 24u64) & 15 != c && (x >> 20u64) & 15 != c && (x >> 16u64) & 15 != c ==> (b >> ((4 * c) as u64)) & 15 == ((x >> 30u64) & 8) + 6,
        (x >> 51u64) & 15 != c && (x >> 45u64) & 15 != c && (x >> 39u64) & 15 != c && (x >> 34u64) & 15 != c && (x >> 29u64) & 15 != c && (x >> 24u64) & 15 == c && (x >> 20u64) & 15 != c && (x >> 16u64) & 15 != c ==> (b >> ((4 * c) as u64)) & 15 == ((x >> 25u64) & 8) + 7,
        (x >> 51u64) & 15 != c && (x >> 45u64) & 15 != c && (x >> 39u64) & 15 != c && (x >> 34u64) & 15 != c && (x >> 29u64) & 15 != c && (x >> 24u64) & 15 != c && (x >> 20u64) & 15 == c && (x >> 16u64) & 15 != c ==> (b >> ((4 * c) as u64)) & 15 == 1,
        (x >> 51u64) & 15 != c && (x >> 45u64) & 15 != c && (x >> 39u64) & 15 != c && (x >> 34u64) & 15 != c && (x >> 29u64) & 15 != c && (x >> 24u64) & 15 != c && (x >> 20u64) & 15 != c && (x >> 16u64) & 15 == c ==> (b >> ((4 * c) as u64)) & 15 == 9,
{
}

/// What square contents piece `q` of node `x` shows on the board.
pub open spec fn contents(x: u64, q: u8) -> u64 {
    if q == 0 {
        9
    } else if q == 1 {
        1
    } else {
        (8 * al(x, q) + q) as u64
    }
}

/// A square where no piece stands is empty; a square where exactly one
/// piece stands shows that piece.
pub proof fn lemma_square_contents(x: u64, c: u64)
    requires
        c < 15,
    ensures
        (forall|q: u8| q <= 7 ==> #[trigger] co(x, q) != c) ==> square_of(board_of(x), c) == 0,
        forall|q: u8|
            q <= 7 && co(x, q) == c && (forall|r: u8| r <= 7 && r != q ==> #[trigger] co(x, r) != c)
                ==> square_of(board_of(x), c) == #[trigger] contents(x, q),
{
    lemma_board_bits(x, c, board_of(x));
    lemma_field_parts(x, 52);
    lemma_field_parts(x, 46);
    lemma_field_parts(x, 40);
    lemma_field_parts(x, 35);
    lemma_field_parts(x, 30);
    lemma_field_parts(x, 25);
    lemma_field_bounds(x, 55);
    lemma_field_bounds(x, 49);
    lemma_field_bounds(x, 43);
    lemma_field_bounds(x, 38);
    lemma_field_bounds(x, 33);
    lemma_field_bounds(x, 28);
    assert(co(x, 0) == (x >> 16u64) & 15);
    assert(co(x, 1) == (x >> 20u64) & 15);
    assert(co(x, 2) == (x >> 51u64) & 15);
    assert(co(x, 3) == (x >> 45u64) & 15);
    assert(co(x, 4) == (x >> 39u64) & 15);
    assert(co(x, 5) == (x >> 34u64) & 15);
    assert(co(x, 6) == (x >> 29u64) & 15);
    assert(co(x, 7) == (x >> 24u64) & 15);
    assert forall|q: u8|
        q <= 7 && co(x, q) == c && (forall|r: u8| r <= 7 && r != q ==> #[trigger] co(x, r) != c)
            implies square_of(board_of(x), c) == #[trigger] contents(x, q) by {
        assert(q == 0 || q == 1 || q == 2 || q == 3 || q == 4 || q == 5 || q == 6 || q == 7);
        assert(co(x, 0) != c || q == 0);
        assert(co(x, 1) != c || q == 1);
        assert(co(x, 2) != c || q == 2);
        assert(co(x, 3) != c || q == 3);
        assert(co(x, 4) != c || q == 4);
        assert(co(x, 5) != c || q == 5);
        assert(co(x, 6) != c || q == 6);
        assert(co(x, 7) != c || q == 7);
    }
    if forall|q: u8| q <= 7 ==> #[trigger] co(x, q) != c {
        assert(co(x, 0) != c && co(x, 1) != c && co(x, 2) != c && co(x, 3) != c);
        assert(co(x, 4) != c && co(x, 5) != c && co(x, 6) != c && co(x, 7) != c);
    }
}

/// The bits of a square's contents: `8` marks the passive player and the
/// low three bits are the piece code.
proof fn lemma_contents_bits(v: u64)
    by (bit_vector)
    requires
        v < 16,
    ensures
        (v & 8 == 0) == (v < 8),
        v & 7 == (if v < 8 {
            v
        } else {
            (v - 8) as u64
        }),
{
}

/// A sequence that one part holds, the whole holds.
pub proof fn lemma_add_contains(a: Seq<u64>, b: Seq<u64>, z: u64)
    requires
        a.contains(z) || b.contains(z),
    ensures
        (a + b).contains(z),
{
    if a.contains(z) {
        let i = choose|i: int| 0 <= i < a.len() && a[i] == z;
        assert((a + b)[i] == z);
    } else {
        let j = choose|j: int| 0 <= j < b.len() && b[j] == z;
        assert((a + b)[a.len() + j] == z);
    }
}

/// What `f` gives for an element, the concatenation over all elements holds.
pub proof fn lemma_concat_map_contains(s: Seq<u64>, f: spec_fn(u64) -> Seq<u64>, e: u64, z: u64)
    requires
        s.contains(e),
        f(e).contains(z),
    ensures
        concat_map(s, f).contains(z),
    decreases s.len(),
{
    if s.last() == e {
        lemma_add_contains(concat_map(s.drop_last(), f), f(e), z);
    } else {
        let i = choose|i: int| 0 <= i < s.len() && s[i] == e;
        assert(s.drop_last()[i] == e);
        lemma_concat_map_contains(s.drop_last(), f, e, z);
        lemma_add_contains(concat_map(s.drop_last(), f), f(s.last()), z);
    }
}

/// What a square holds, seen through `vacated`: nothing, the passive lion
/// or a passive non-lion (a square of the active player's is no
/// destination). The result is `8` for an empty square, `0` for the passive
/// lion and the code of the non-lion otherwise.
pub proof fn lemma_vacated_cases(x: u64, d: u64) -> (k: u8)
    requires
        is_valid(x),
        is_board_square(d),
        vacated(x, board_of(x), d) != 0,
    ensures
        k == 8 ==> vacated(x, board_of(x), d) == x && forall|r: u8| r <= 7 ==> #[trigger] co(x, r)
            != d,
        k == 0 ==> vacated(x, board_of(x), d) == captured(x, 1) && co(x, 0) == d,
        k != 8 ==> k <= 7 && k != 1 && co(x, k) == d && (forall|r: u8|
            r <= 7 && r != k ==> #[trigger] co(x, r) != d),
        2 <= k <= 7 ==> vacated(x, board_of(x), d) == captured(x, k as u64) && al(x, k) == 1,
{
    let b = board_of(x);
    lemma_square_contents(x, d);
    let sq = square_of(b, d);
    lemma_field_bounds(b, (4 * d) as u64);
    lemma_contents_bits(sq);
    if forall|r: u8| r <= 7 ==> #[trigger] co(x, r) != d {
        8
    } else {
        let k = choose|k: u8| k <= 7 && #[trigger] co(x, k) == d;
        assert forall|r: u8| r <= 7 && r != k implies #[trigger] co(x, r) != d by {
            if co(x, r) == d {
                assert(co(x, r) == co(x, k));
            }
        }
        assert(sq == contents(x, k));
        lemma_tri_bounds(x, k);
        if k == 1 {
            assert(false);
        }
        if k >= 2 && al(x, k) == 0 {
            assert(false);
        }
        k
    }
}

/// Agreeing on everything but one piece is transitive.
pub proof fn lemma_same_but_trans(a: u64, b: u64, c: u64, q: u8)
    requires
        same_but(a, b, q),
        same_but(b, c, q),
    ensures
        same_but(a, c, q),
{
    assert forall|r: u8| r <= 7 && r != q implies #[trigger] tri(c, r) == tri(a, r) by {
        assert(tri(c, r) == tri(b, r));
        assert(tri(b, r) == tri(a, r));
    }
}

/// Capturing piece `k` (`1` for the passive lion, whose part is `0`) puts
/// it in the active player's hand, as a chick if it was a hen, and changes
/// nothing else.
pub proof fn lemma_captured_parts(x: u64, k: u8)
    requires
        k == 1 || 2 <= k <= 7,
    ensures
        k == 1 ==> same_but(x, captured(x, 1), 0) && tri(captured(x, 1), 0) == (15u64, 0u64, 0u64),
        2 <= k <= 7 ==> same_but(x, captured(x, k as u64), k) && tri(captured(x, k as u64), k) == (
            15u64,
            0u64,
            0u64,
        ),
{
    if k == 1 {
        lemma_set_co(x, 0, 15);
    } else {
        let off = co_offset(k);
        let in_hand = with_field(x, off, 15, 15);
        lemma_set_co(x, k, 15);
        let handed = with_field(in_hand, allegiance_offset_of(k), 1, 0);
        lemma_set_bit(in_hand, k, allegiance_offset_of(k), 0);
        lemma_same_but_trans(x, in_hand, handed, k);
        if k == 2 || k == 3 {
            let demoted = with_field(handed, promotion_offset_of(k), 1, 0);
            lemma_set_bit(handed, k, promotion_offset_of(k), 0);
            lemma_same_but_trans(x, handed, demoted, k);
        }
    }
}

/// Moving piece `p` to `d` (and promoting a chick that reaches the last
/// row) changes nothing but that piece.
pub proof fn lemma_moved_parts(v: u64, p: u8, d: u64)
    requires
        1 <= p <= 7,
        d < 16,
    ensures
        same_but(v, crate::pieces::moved_and_promoted(v, p, d), p),
        tri(crate::pieces::moved_and_promoted(v, p, d), p) == (
            d,
            al(v, p),
            if (p == 2 || p == 3) && 12 <= d <= 14 {
                1u64
            } else {
                pr(v, p)
            },
        ),
{
    let moved = with_field(v, co_offset(p), 15, d);
    lemma_set_co(v, p, d);
    if (p == 2 || p == 3) && 12 <= d <= 14 {
        lemma_set_bit(moved, p, promotion_offset_of(p), 1);
        lemma_same_but_trans(v, moved, with_field(moved, promotion_offset_of(p), 1, 1), p);
    }
}

/// Each of the twelve board squares is a board square.
pub proof fn lemma_board_squares_are_board_squares(c: u64)
    requires
        crate::coords::board_squares().contains(c),
    ensures
        is_board_square(c),
{
    let i = choose|i: int| 0 <= i < 12 && crate::coords::board_squares()[i] == c;
    assert(0 <= i < 12);
    assert(i == 0 || i == 1 || i == 2 || i == 3 || i == 4 || i == 5 || i == 6 || i == 7 || i == 8
        || i == 9 || i == 10 || i == 11);
}

/// A destination of a move is a board square other than the start, and a
/// chick goes one row forward.
pub proof fn lemma_destination(p: u8, promoted: bool, s: u64, d: u64)
    requires
        crate::movement::legal_squares_of(p, promoted, crate::movement::Unknown::Dest, s).contains(
            d,
        ),
    ensures
        is_board_square(s),
        is_board_square(d),
        d != s,
        (p == 2 || p == 3) && !promoted ==> d == s + 4,
{
    let dirs = crate::movement::directions_of(p, promoted);
    let pred = |c: u64| crate::movement::connects_spec(dirs, s, c);
    crate::movement::lemma_filter_contains_iff(crate::coords::board_squares(), pred, d);
    lemma_board_squares_are_board_squares(d);
}

/// Being one node but for which piece of a species is which goes both
/// ways.
pub proof fn lemma_equiv_symmetric(a: u64, b: u64)
    requires
        equiv(a, b),
    ensures
        equiv(b, a),
{
}

/// The parent that a capture of non-lion `k` on `d` comes from is among
/// the capturing parents of some non-lion of `y`, the node after the
/// capture seen by the capturing player, once the capturing piece `q` is
/// back on its square (node `base`).
proof fn lemma_capture_parent(x: u64, y: u64, base: u64, v: u64, q: u8, k: u8, d: u64) -> (kk: u8)
    requires
        is_valid(x),
        built(x) == x,
        !is_terminal_node(x),
        2 <= k <= 7,
        1 <= q <= 7,
        is_board_square(d),
        equiv(base, v),
        same_but(y, base, q),
        co(base, q) != 15,
        co(y, q) != 15,
        same_but(x, v, k),
        tri(v, k) == (15u64, 0u64, 0u64),
        co(x, k) == d,
        al(x, k) == 1,
    ensures
        2 <= kk <= 7,
        crate::parents::capturing_parents(y, base, kk, d).contains(x),
{
    let k1 = lemma_corresponding(base, v, k);
    assert(k1 != q);
    assert(tri(y, k1) == tri(base, k1));
    let kk: u8 = if drop_is_duplicate(y, k1) {
        (k1 - 1) as u8
    } else {
        k1
    };
    if drop_is_duplicate(y, k1) {
        assert(kk != q);
        assert(tri(y, kk) == tri(base, kk));
        lemma_tri_bounds(y, kk);
        let pk = partner(k);
        assert(kk == k || kk == pk);
        assert(tri(base, kk) == tri(v, k) || tri(base, kk) == tri(v, pk));
        if tri(base, kk) != tri(v, k) {
            assert(tri(v, pk) == tri(x, pk));
            assert(co(x, pk) == 15);
        }
        assert(pr(base, kk) == 0);
    }
    assert(tri(base, kk) == (15u64, 0u64, 0u64));
    assert(kk == k || kk == partner(k));
    let cap1 = with_field(base, co_offset(kk), 15, d);
    lemma_set_co(base, kk, d);
    let cap = with_field(cap1, allegiance_offset_of(kk), 1, 1);
    lemma_set_bit(cap1, kk, allegiance_offset_of(kk), 1);
    lemma_same_but_trans(base, cap1, cap, kk);
    lemma_same_but_symmetric(x, v, k);
    lemma_tri_bounds(x, k);
    let cp = crate::parents::capturing_parents(y, base, kk, d);
    if pr(x, k) == 0 {
        lemma_equiv_update(base, v, kk, k, cap, x);
        lemma_keep_parent_of(cap, x);
        let first = if kk == 2 || kk == 3 {
            keep_parent(with_field(cap, promotion_offset_of(kk), 1, 1))
        } else {
            Seq::empty()
        };
        assert(keep_parent(cap).contains(x)) by {
            assert(keep_parent(cap)[0] == x);
        }
        lemma_add_contains(first, keep_parent(cap), x);
        assert(cp == first + keep_parent(cap));
    } else {
        let cap3 = with_field(cap, promotion_offset_of(kk), 1, 1);
        lemma_set_bit(cap, kk, promotion_offset_of(kk), 1);
        lemma_same_but_trans(base, cap, cap3, kk);
        lemma_equiv_update(base, v, kk, k, cap3, x);
        lemma_keep_parent_of(cap3, x);
        assert(keep_parent(cap3).contains(x)) by {
            assert(keep_parent(cap3)[0] == x);
        }
        lemma_add_contains(keep_parent(cap3), keep_parent(cap), x);
        assert(cp == keep_parent(cap3) + keep_parent(cap));
    }
    kk
}

/// The parent that a move from `s` to `d` comes from is among the parents
/// from square `s` of `y`, the node after the move seen by the moving
/// player, where the moving piece is `q`. Node `v` is the parent with the
/// square `d` cleared (`k` says how, as in `lemma_vacated_cases`), and
/// `base` is `y` with the moving piece back on `s`.
proof fn lemma_square_parent(
    x: u64,
    y: u64,
    base: u64,
    v: u64,
    q: u8,
    k: u8,
    demote: bool,
    s: u64,
    d: u64,
)
    requires
        is_valid(x),
        built(x) == x,
        !is_terminal_node(x),
        1 <= q <= 7,
        is_board_square(s),
        is_board_square(d),
        base == crate::parents::demoted_if(crate::pieces::with_coords(y, q, s), q, demote),
        equiv(base, v),
        same_but(y, base, q),
        co(base, q) == s,
        co(y, q) == d,
        co(y, 0) == co(v, 0),
        k == 8 ==> v == x,
        k == 0 ==> same_but(x, v, 0) && tri(v, 0) == (15u64, 0u64, 0u64) && co(x, 0) == d,
        2 <= k <= 7 ==> same_but(x, v, k) && tri(v, k) == (15u64, 0u64, 0u64) && co(x, k) == d
            && al(x, k) == 1,
        k == 8 || k == 0 || 2 <= k <= 7,
    ensures
        crate::parents::parents_from_square(y, q, demote, s, d).contains(x),
{
    let ps = crate::parents::parents_from_square(y, q, demote, s, d);
    if k == 0 {
        assert(co(y, 0) == 15);
        let base2 = with_field(base, co_offset(0), 15, d);
        lemma_set_co(base, 0, d);
        lemma_same_but_symmetric(x, v, 0);
        lemma_equiv_update(base, v, 0, 0, base2, x);
        lemma_keep_parent_of(base2, x);
        assert(ps == keep_parent(base2));
        assert(ps[0] == x);
    } else {
        assert(co(v, 0) == co(x, 0));
        assert(co(y, 0) != 15);
        let a0 = keep_parent(base);
        let a2 = crate::parents::capturing_parents(y, base, 2, d);
        let a3 = crate::parents::capturing_parents(y, base, 3, d);
        let a4 = crate::parents::capturing_parents(y, base, 4, d);
        let a5 = crate::parents::capturing_parents(y, base, 5, d);
        let a6 = crate::parents::capturing_parents(y, base, 6, d);
        let a7 = crate::parents::capturing_parents(y, base, 7, d);
        assert(ps == a0 + a2 + a3 + a4 + a5 + a6 + a7);
        let kk: u8 = if k == 8 {
            lemma_keep_parent_of(base, x);
            assert(a0[0] == x);
            0
        } else {
            lemma_capture_parent(x, y, base, v, q, k, d)
        };
        if kk <= 2 {
            lemma_add_contains(a0, a2, x);
        }
        if kk <= 3 {
            lemma_add_contains(a0 + a2, a3, x);
        }
        if kk <= 4 {
            lemma_add_contains(a0 + a2 + a3, a4, x);
        }
        if kk <= 5 {
            lemma_add_contains(a0 + a2 + a3 + a4, a5, x);
        }
        if kk <= 6 {
            lemma_add_contains(a0 + a2 + a3 + a4 + a5, a6, x);
        }
        lemma_add_contains(a0 + a2 + a3 + a4 + a5 + a6, a7, x);
    }
}

/// The parents through moves from one of `squares` hold what the parents
/// from one such empty square hold.
proof fn lemma_moving_parents_contains(
    y: u64,
    q: u8,
    demote: bool,
    squares: Seq<u64>,
    e: u64,
    z: u64,
)
    requires
        squares.contains(e),
        square_of(board_of(y), e) == 0,
        crate::parents::parents_from_square(
            y,
            q,
            demote,
            e,
            crate::pieces::coords_of(y, q),
        ).contains(z),
    ensures
        crate::parents::moving_parents(y, q, demote, squares).contains(z),
    decreases squares.len(),
{
    let rest = squares.drop_last();
    let here = if square_of(board_of(y), squares.last()) == 0 {
        crate::parents::parents_from_square(
            y,
            q,
            demote,
            squares.last(),
            crate::pieces::coords_of(y, q),
        )
    } else {
        Seq::empty()
    };
    assert(crate::parents::moving_parents(y, q, demote, squares) == crate::parents::moving_parents(
        y,
        q,
        demote,
        rest,
    ) + here);
    if squares.last() == e {
        lemma_add_contains(crate::parents::moving_parents(y, q, demote, rest), here, z);
    } else {
        let i = choose|i: int| 0 <= i < squares.len() && squares[i] == e;
        assert(rest[i] == e);
        lemma_moving_parents_contains(y, q, demote, rest, e, z);
        lemma_add_contains(crate::parents::moving_parents(y, q, demote, rest), here, z);
    }
}

/// The square a piece left is empty after the move, whichever piece of a
/// species is which.
proof fn lemma_start_empty(x: u64, y: u64, m: u64, v: u64, p: u8, k: u8, s: u64, d: u64)
    requires
        is_valid(x),
        equiv(y, m),
        1 <= p <= 7,
        co(x, p) == s,
        is_board_square(s),
        d != s,
        same_but(v, m, p),
        co(m, p) == d,
        k == 8 ==> v == x,
        k == 0 ==> same_but(x, v, 0) && co(v, 0) == 15,
        2 <= k <= 7 ==> same_but(x, v, k) && co(v, k) == 15,
        k == 8 || k == 0 || 2 <= k <= 7,
    ensures
        square_of(board_of(y), s) == 0,
{
    lemma_equiv_symmetric(y, m);
    assert forall|r: u8| r <= 7 implies #[trigger] co(y, r) != s by {
        let r2 = lemma_corresponding(m, y, r);
        assert(tri(m, r2) == tri(y, r));
        if r2 != p {
            assert(tri(m, r2) == tri(v, r2));
            if !(r2 == k || (k == 0 && r2 == 0)) {
                assert(tri(v, r2) == tri(x, r2));
                if co(x, r2) == s {
                    assert(co(x, r2) == co(x, p));
                }
            }
        }
    }
    lemma_square_contents(y, s);
}

/// A node that the parents through some actor hold is among the parents.
proof fn lemma_parents_hold(c: u64, q: u8, x: u64)
    requires
        1 <= q <= 7,
        actor_parents(inverted(c), q).contains(x),
    ensures
        parents_of(c).contains(x),
{
    let i = choose|i: int|
        0 <= i < actor_parents(inverted(c), q).len() && actor_parents(inverted(c), q)[i] == x;
    lemma_parents_contain(c, q, x, i);
}

/// A move leads to a child that lists the moving node among its parents.
pub proof fn lemma_move_child_lists_parent(x: u64, p: u8, d: u64)
    requires
        is_valid(x),
        built(x) == x,
        !is_terminal_node(x),
        1 <= p <= 7,
        p == 1 || al(x, p) == 0,
        crate::movement::legal_squares_of(
            p,
            crate::pieces::is_promoted_in(x, p),
            crate::movement::Unknown::Dest,
            co(x, p),
        ).contains(d),
        vacated(x, board_of(x), d) != 0,
    ensures
        parents_of(crate::children::move_child(vacated(x, board_of(x), d), p, d)).contains(x),
{
    let s = co(x, p);
    let promoted_x = crate::pieces::is_promoted_in(x, p);
    lemma_destination(p, promoted_x, s, d);
    let v = vacated(x, board_of(x), d);
    let k = lemma_vacated_cases(x, d);
    if k == 0 {
        lemma_captured_parts(x, 1);
    } else if k != 8 {
        lemma_captured_parts(x, k);
    }
    assert(tri(v, p) == tri(x, p));
    let m = crate::pieces::moved_and_promoted(v, p, d);
    lemma_moved_parts(v, p, d);
    let c = crate::children::move_child(v, p, d);
    let y = inverted(c);
    lemma_child_seen_back(m);
    let q = lemma_corresponding(y, m, p);
    let demote = (p == 2 || p == 3) && 12 <= d <= 14 && pr(x, p) == 0;
    let base1 = with_field(y, co_offset(q), 15, s);
    lemma_set_co(y, q, s);
    let base = crate::parents::demoted_if(crate::pieces::with_coords(y, q, s), q, demote);
    if demote {
        lemma_set_bit(base1, q, promotion_offset_of(q), 0);
        lemma_same_but_trans(y, base1, base, q);
    }
    lemma_tri_bounds(x, p);
    assert(tri(base, q) == tri(v, p));
    lemma_same_but_symmetric(v, m, p);
    lemma_equiv_update(y, m, q, p, base, v);
    lemma_square_parent(x, y, base, v, q, k, demote, s, d);
    lemma_start_empty(x, y, m, v, p, k, s, d);
    let promoted = crate::pieces::is_promoted_in(y, q);
    let dropping = if !promoted && q != 1 {
        keep_parent(crate::pieces::with_coords(y, q, 15))
    } else {
        Seq::empty()
    };
    let mp1 = crate::parents::moving_parents(
        y,
        q,
        false,
        crate::movement::legal_squares_of(q, promoted, crate::movement::Unknown::Start, d),
    );
    let mp2 = if promoted && 12 <= d <= 14 {
        crate::parents::moving_parents(y, q, true, seq![(d - 4) as u64])
    } else {
        Seq::empty()
    };
    if demote {
        assert(seq![(d - 4) as u64][0] == s);
        lemma_moving_parents_contains(y, q, true, seq![(d - 4) as u64], s, x);
        lemma_add_contains(mp1, mp2, x);
    } else {
        assert(promoted == promoted_x);
        crate::movement::lemma_legal_squares_are_symmetric(q, promoted, s, d);
        crate::movement::lemma_piece0_and_piece1_move_alike(
            promoted,
            crate::movement::Unknown::Dest,
            s,
        );
        lemma_moving_parents_contains(
            y,
            q,
            false,
            crate::movement::legal_squares_of(q, promoted, crate::movement::Unknown::Start, d),
            s,
            x,
        );
        lemma_add_contains(mp1, mp2, x);
    }
    assert(actor_parents(y, q) == dropping + (mp1 + mp2));
    lemma_add_contains(dropping, mp1 + mp2, x);
    lemma_parents_hold(c, q, x);
}

/// The child that an actor's move or drop leads to lists the node among
/// its parents.
proof fn lemma_actor_child_lists_parent(x: u64, p: u8, j: int)
    requires
        is_valid(x),
        built(x) == x,
        !is_terminal_node(x),
        1 <= p <= 7,
        0 <= j < crate::children::actor_children(x, p).len(),
    ensures
        parents_of(crate::children::actor_children(x, p)[j]).contains(x),
{
    let b = board_of(x);
    let ac = crate::children::actor_children(x, p);
    assert(!crate::pieces::is_passive_in(x, p));
    lemma_tri_bounds(x, p);
    if crate::pieces::coords_of(x, p) == 15 {
        assert(p != 1);
        let es = crate::coords::empty_squares_of(b);
        let d = es[j];
        assert(es.contains(d));
        crate::movement::lemma_filter_contains_iff(
            crate::coords::board_squares(),
            |c: u64| square_of(b, c) == 0,
            d,
        );
        lemma_board_squares_are_board_squares(d);
        assert(ac[j] == drop_child(x, p, d));
        lemma_drop_child_lists_parent(x, p, d);
    } else {
        let legal = crate::movement::legal_squares_of(
            p,
            crate::pieces::is_promoted_in(x, p),
            crate::movement::Unknown::Dest,
            crate::pieces::coords_of(x, p),
        );
        let pred = |d: u64| vacated(x, b, d) != 0;
        let f = legal.filter(pred);
        let d = f[j];
        assert(f.contains(d));
        crate::movement::lemma_filter_contains_iff(legal, pred, d);
        assert(ac[j] == crate::children::move_child(vacated(x, b, d), p, d));
        lemma_move_child_lists_parent(x, p, d);
    }
}

/// Every child of a valid, built, nonterminal node lists the node among its
/// parents.
pub proof fn lemma_every_child_lists_parent(x: u64, i: int)
    requires
        is_valid(x),
        built(x) == x,
        !is_terminal_node(x),
        0 <= i < children_of(x).len(),
    ensures
        parents_of(children_of(x)[i]).contains(x),
{
    let s1 = crate::children::actor_children(x, 1);
    let s2 = crate::children::actor_children(x, 2);
    let s3 = crate::children::actor_children(x, 3);
    let s4 = crate::children::actor_children(x, 4);
    let s5 = crate::children::actor_children(x, 5);
    let s6 = crate::children::actor_children(x, 6);
    let s7 = crate::children::actor_children(x, 7);
    let all = children_of(x);
    assert(all == s1 + s2 + s3 + s4 + s5 + s6 + s7);
    let l1 = s1.len() as int;
    let l2 = l1 + s2.len();
    let l3 = l2 + s3.len();
    let l4 = l3 + s4.len();
    let l5 = l4 + s5.len();
    let l6 = l5 + s6.len();
    if i < l1 {
        lemma_actor_child_lists_parent(x, 1, i);
    } else if i < l2 {
        lemma_actor_child_lists_parent(x, 2, i - l1);
    } else if i < l3 {
        lemma_actor_child_lists_parent(x, 3, i - l2);
    } else if i < l4 {
        lemma_actor_child_lists_parent(x, 4, i - l3);
    } else if i < l5 {
        lemma_actor_child_lists_parent(x, 5, i - l4);
    } else if i < l6 {
        lemma_actor_child_lists_parent(x, 6, i - l5);
    } else {
        lemma_actor_child_lists_parent(x, 7, i - l6);
    }
}

/// What a concatenation holds, one of its parts holds.
pub proof fn lemma_add_member(a: Seq<u64>, b: Seq<u64>, z: u64)
    requires
        (a + b).contains(z),
    ensures
        a.contains(z) || b.contains(z),
{
    let i = choose|i: int| 0 <= i < (a + b).len() && (a + b)[i] == z;
    if i < a.len() {
        assert(a[i] == z);
    } else {
        assert(b[i - a.len()] == z);
    }
}

/// What the parents through moves from one of `squares` hold, the parents
/// from one of those squares, an empty one, hold.
proof fn lemma_moving_parents_member(y: u64, q: u8, demote: bool, squares: Seq<u64>, z: u64) -> (e:
    u64)
    requires
        crate::parents::moving_parents(y, q, demote, squares).contains(z),
    ensures
        squares.contains(e),
        square_of(board_of(y), e) == 0,
        crate::parents::parents_from_square(
            y,
            q,
            demote,
            e,
            crate::pieces::coords_of(y, q),
        ).contains(z),
    decreases squares.len(),
{
    if squares.len() == 0 {
        assert(crate::parents::moving_parents(y, q, demote, squares) =~= Seq::<u64>::empty());
        assert(false);
        0
    } else {
        let rest = squares.drop_last();
        let e0 = squares.last();
        let here = if square_of(board_of(y), e0) == 0 {
            crate::parents::parents_from_square(
                y,
                q,
                demote,
                e0,
                crate::pieces::coords_of(y, q),
            )
        } else {
            Seq::empty()
        };
        assert(crate::parents::moving_parents(y, q, demote, squares)
            == crate::parents::moving_parents(y, q, demote, rest) + here);
        lemma_add_member(crate::parents::moving_parents(y, q, demote, rest), here, z);
        if here.contains(z) {
            assert(squares[squares.len() - 1] == e0);
            e0
        } else {
            let e = lemma_moving_parents_member(y, q, demote, rest, z);
            let i = choose|i: int| 0 <= i < rest.len() && rest[i] == e;
            assert(squares[i] == e);
            e
        }
    }
}

/// A node that some actor's children hold is among the children.
proof fn lemma_children_hold(x: u64, p: u8, z: u64)
    requires
        1 <= p <= 7,
        !is_terminal_node(x),
        crate::children::actor_children(x, p).contains(z),
    ensures
        children_of(x).contains(z),
{
    let s1 = crate::children::actor_children(x, 1);
    let s2 = crate::children::actor_children(x, 2);
    let s3 = crate::children::actor_children(x, 3);
    let s4 = crate::children::actor_children(x, 4);
    let s5 = crate::children::actor_children(x, 5);
    let s6 = crate::children::actor_children(x, 6);
    let s7 = crate::children::actor_children(x, 7);
    assert(children_of(x) == s1 + s2 + s3 + s4 + s5 + s6 + s7);
    if p <= 2 {
        lemma_add_contains(s1, s2, z);
    }
    if p <= 3 {
        lemma_add_contains(s1 + s2, s3, z);
    }
    if p <= 4 {
        lemma_add_contains(s1 + s2 + s3, s4, z);
    }
    if p <= 5 {
        lemma_add_contains(s1 + s2 + s3 + s4, s5, z);
    }
    if p <= 6 {
        lemma_add_contains(s1 + s2 + s3 + s4 + s5, s6, z);
    }
    lemma_add_contains(s1 + s2 + s3 + s4 + s5 + s6, s7, z);
}

/// Seeing a well-placed node from the other side keeps it well placed.
pub proof fn lemma_inverted_placed(c: u64)
    requires
        pieces_placed(c),
    ensures
        pieces_placed(inverted(c)),
{
    let y = inverted(c);
    lemma_inverted_parts(c);
    assert forall|q: u8| q <= 7 implies (#[trigger] co(y, q) == 15 || is_board_square(co(y, q)))
        && co(y, q) == inverted_coords(co(c, crate::lineage::seen_back(q))) by {
        assert(q == 0 || q == 1 || q == 2 || q == 3 || q == 4 || q == 5 || q == 6 || q == 7);
        assert(co(c, seen_back(q)) == 15 || is_board_square(co(c, seen_back(q))));
        lemma_tri_bounds(c, seen_back(q));
        assert(tri(y, q).0 == co(y, q));
        lemma_inverted_square(co(c, seen_back(q)));
    }
    assert forall|q: u8, r: u8|
        q <= 7 && r <= 7 && q != r && #[trigger] co(y, q) == #[trigger] co(y, r) implies co(y, q)
        == 15 by {
        lemma_tri_bounds(c, seen_back(q));
        lemma_tri_bounds(c, seen_back(r));
        assert(seen_back(q) != seen_back(r));
        assert(co(c, seen_back(q)) == co(c, seen_back(r)));
    }
    assert forall|q: u8| (q == 2 || q == 3) && co(y, q) == 15 implies #[trigger] pr(y, q) == 0 by {
        assert(tri(y, q) == (inverted_coords(co(c, q)), (1 - al(c, q)) as u64, pr(c, q)));
        lemma_tri_bounds(c, q);
        assert(co(c, q) == 15);
    }
}

/// A square seen from the other side is a square; the hand stays the hand.
pub proof fn lemma_inverted_square(c: u64)
    requires
        c == 15 || is_board_square(c),
    ensures
        inverted_coords(c) == 15 || is_board_square(inverted_coords(c)),
        inverted_coords(c) == 15 <==> c == 15,
        inverted_coords(inverted_coords(c)) == c,
{
    if c != 15 {
        assert(c == 0 || c == 1 || c == 2 || c == 4 || c == 5 || c == 6 || c == 8 || c == 9 || c
            == 10 || c == 12 || c == 13 || c == 14);
    }
}

/// The piece of the other side's view that piece `q` of a node is seen as:
/// the two lions trade places.
pub open spec fn seen_back(q: u8) -> u8 {
    if q == 0 {
        1
    } else if q == 1 {
        0
    } else {
        q
    }
}

/// A node that is one node but for which piece of a species is which with a
/// well-placed node is well placed.
pub proof fn lemma_equiv_placed(a: u64, b: u64)
    requires
        equiv(a, b),
        pieces_placed(b),
    ensures
        pieces_placed(a),
{
    lemma_equiv_symmetric(a, b);
    assert forall|q: u8| q <= 7 implies (#[trigger] co(a, q) == 15 || is_board_square(co(a, q))) by {
        let q2 = lemma_corresponding(b, a, q);
        assert(co(b, q2) == 15 || is_board_square(co(b, q2)));
    }
    assert forall|q: u8, r: u8|
        q <= 7 && r <= 7 && q != r && #[trigger] co(a, q) == #[trigger] co(a, r) implies co(a, q)
        == 15 by {
        let q2 = lemma_corresponding(b, a, q);
        let r2 = lemma_corresponding(b, a, r);
        if q2 != r2 {
            assert(co(b, q2) == co(b, r2));
        } else {
            assert(tri(a, q) == tri(a, r));
            assert(q == 0 || q == 1 || q == 2 || q == 3 || q == 4 || q == 5 || q == 6 || q == 7);
            assert(r == partner(q));
            let other = partner(q2);
            assert(tri(b, q2) == tri(b, other));
            assert(co(b, q2) == co(b, other));
        }
    }
    assert forall|q: u8| (q == 2 || q == 3) && co(a, q) == 15 implies #[trigger] pr(a, q) == 0 by {
        let q2 = lemma_corresponding(b, a, q);
        assert(co(b, q2) == 15);
        assert(pr(b, q2) == 0);
    }
}

/// A node holds no piece on square `d` if the node it is one node with,
/// but for which piece of a species is which, holds none there.
proof fn lemma_equiv_square_free(a: u64, b: u64, d: u64)
    requires
        equiv(a, b),
        forall|r: u8| r <= 7 ==> #[trigger] co(b, r) != d,
    ensures
        forall|r: u8| r <= 7 ==> #[trigger] co(a, r) != d,
{
    lemma_equiv_symmetric(a, b);
    assert forall|r: u8| r <= 7 implies #[trigger] co(a, r) != d by {
        let r2 = lemma_corresponding(b, a, r);
        assert(co(b, r2) != d);
    }
}

/// A node with no piece on `d` but `k`, if it is one node with another but
/// for which piece of a species is which, holds there only the piece of its
/// own that corresponds to `k`.
proof fn lemma_equiv_square_single(a: u64, b: u64, k: u8, ka: u8, d: u64)
    requires
        equiv(a, b),
        pieces_placed(b),
        k <= 7,
        ka <= 7,
        d != 15,
        co(b, k) == d,
        tri(a, ka) == tri(b, k),
    ensures
        forall|r: u8| r <= 7 && r != ka ==> #[trigger] co(a, r) != d,
{
    lemma_equiv_symmetric(a, b);
    assert forall|r: u8| r <= 7 && r != ka implies #[trigger] co(a, r) != d by {
        let r2 = lemma_corresponding(b, a, r);
        if co(a, r) == d {
            assert(co(b, r2) == d);
            if r2 != k {
                assert(co(b, r2) == co(b, k));
            } else {
                assert(tri(a, r) == tri(a, ka));
                assert(k == 0 || k == 1 || k == 2 || k == 3 || k == 4 || k == 5 || k == 6 || k
                    == 7);
                assert(r == partner(ka));
                assert(tri(b, k) == tri(b, partner(k)));
                assert(co(b, k) == co(b, partner(k)));
            }
        }
    }
}

/// What `vacated` makes of square `d` of a node that is one node, but for
/// which piece of a species is which, with a well-placed parent `w`: the
/// node itself if `w` holds nothing there (`kind == 8`), the node with the
/// passive lion captured if `w` holds that lion there (`kind == 0`), and
/// otherwise the node with its piece `k2` that corresponds to the passive
/// non-lion `kind` of `w` captured. The result is never `0`.
proof fn lemma_parent_vacated(x2: u64, w: u64, kind: u8, d: u64) -> (k2: u8)
    requires
        equiv(x2, w),
        pieces_placed(w),
        is_board_square(co(w, 0)),
        is_board_square(d),
        kind == 8 ==> forall|r: u8| r <= 7 ==> #[trigger] co(w, r) != d,
        kind == 0 ==> co(w, 0) == d,
        2 <= kind <= 7 ==> co(w, kind) == d && al(w, kind) == 1,
        kind == 8 || kind == 0 || 2 <= kind <= 7,
    ensures
        vacated(x2, board_of(x2), d) != 0,
        kind == 8 ==> vacated(x2, board_of(x2), d) == x2,
        kind == 0 ==> vacated(x2, board_of(x2), d) == captured(x2, 1),
        2 <= kind <= 7 ==> (k2 == kind || k2 == partner(kind)) && tri(x2, k2) == tri(w, kind)
            && vacated(x2, board_of(x2), d) == captured(x2, k2 as u64) && 2 <= k2 <= 7,
{
    let b = board_of(x2);
    lemma_square_contents(x2, d);
    lemma_field_bounds(0, 16);
    lemma_field_bounds(0, 20);
    if kind == 8 {
        lemma_equiv_square_free(x2, w, d);
        assert(square_of(b, d) == 0);
        assert(co(x2, 0) == co(w, 0));
        assert(co(x2, 1) == co(w, 1));
        if co(w, 0) == co(w, 1) {
            assert(co(w, 0) == 15);
        }
        0
    } else if kind == 0 {
        lemma_equiv_square_single(x2, w, 0, 0, d);
        assert(square_of(b, d) == contents(x2, 0));
        lemma_contents_bits(9);
        lemma_captured_parts(x2, 1);
        assert(co(captured(x2, 1), 0) == 15);
        0
    } else {
        let k2 = lemma_corresponding(x2, w, kind);
        lemma_equiv_square_single(x2, w, kind, k2, d);
        assert(co(x2, k2) == d);
        assert(square_of(b, d) == contents(x2, k2));
        assert(contents(x2, k2) == 8 + k2);
        lemma_contents_bits((8 + k2) as u64);
        lemma_captured_parts(x2, k2);
        lemma_field_bounds(0, co_offset(k2));
        assert(co(captured(x2, k2 as u64), k2) == 15);
        k2
    }
}

/// A parent from which piece `q` moved from `s` to `d` (node `w`; `base` is
/// `w` with what was captured already in the capturer's hand, and `kind`
/// says what that was: `8` nothing, `0` the lion, or the code of a
/// non-lion) has the child among its children.
proof fn lemma_move_parent_lists_child(
    c: u64,
    w: u64,
    base: u64,
    q: u8,
    kind: u8,
    s: u64,
    d: u64,
)
    requires
        built(c) == c,
        1 <= q <= 7,
        is_board_square(s),
        is_board_square(d),
        s != d,
        pieces_placed(w),
        is_board_square(co(w, 0)),
        !is_terminal_node(w),
        co(w, q) == s,
        q == 1 || al(w, q) == 0,
        crate::movement::legal_squares_of(
            q,
            crate::pieces::is_promoted_in(w, q),
            crate::movement::Unknown::Dest,
            s,
        ).contains(d),
        same_but(base, inverted(c), q),
        tri(base, q) == tri(w, q),
        tri(inverted(c), q) == (
            d,
            al(w, q),
            if (q == 2 || q == 3) && 12 <= d <= 14 {
                1u64
            } else {
                pr(w, q)
            },
        ),
        kind == 8 ==> base == w && forall|r: u8| r <= 7 ==> #[trigger] co(w, r) != d,
        kind == 0 ==> same_but(w, base, 0) && co(w, 0) == d && tri(base, 0) == (
            15u64,
            0u64,
            0u64,
        ),
        2 <= kind <= 7 ==> kind != q && same_but(w, base, kind) && co(w, kind) == d && al(w, kind)
            == 1 && tri(base, kind) == (15u64, 0u64, 0u64),
        kind == 8 || kind == 0 || 2 <= kind <= 7,
    ensures
        children_of(built(w)).contains(c),
{
    let y = inverted(c);
    let x2 = built(w);
    lemma_built_parts(w);
    lemma_equiv_placed(x2, w);
    lemma_terminality_by_lion(x2, w);
    let p = lemma_corresponding(x2, w, q);
    let b = board_of(x2);
    lemma_tri_bounds(w, q);
    crate::movement::lemma_piece0_and_piece1_move_alike(
        crate::pieces::is_promoted_in(w, q),
        crate::movement::Unknown::Dest,
        s,
    );
    assert(crate::pieces::is_promoted_in(x2, p) == crate::pieces::is_promoted_in(w, q));
    let k2 = lemma_parent_vacated(x2, w, kind, d);
    let v2 = vacated(x2, b, d);
    let m = crate::pieces::moved_and_promoted(v2, p, d);
    lemma_moved_parts(v2, p, d);
    if kind == 8 {
        lemma_equiv_update(x2, w, p, q, m, y);
    } else if kind == 0 {
        lemma_captured_parts(x2, 1);
        lemma_equiv_update(x2, w, 0, 0, v2, base);
        lemma_equiv_update(v2, base, p, q, m, y);
    } else {
        lemma_captured_parts(x2, k2);
        lemma_equiv_update(x2, w, k2, kind, v2, base);
        assert(p != k2);
        lemma_equiv_update(v2, base, p, q, m, y);
    }
    lemma_equiv_inverted(m, y);
    lemma_inversion_is_involutive(c);
    lemma_equiv_built(inverted(m), c);
    let child = crate::children::move_child(v2, p, d);
    assert(child == c);
    let legal = crate::movement::legal_squares_of(
        p,
        crate::pieces::is_promoted_in(x2, p),
        crate::movement::Unknown::Dest,
        crate::pieces::coords_of(x2, p),
    );
    let pred = |e: u64| vacated(x2, b, e) != 0;
    let f = legal.filter(pred);
    crate::movement::lemma_filter_contains_iff(legal, pred, d);
    let j = choose|j: int| 0 <= j < f.len() && f[j] == d;
    let ac = crate::children::actor_children(x2, p);
    assert(ac == f.map_values(|e: u64| crate::children::move_child(vacated(x2, b, e), p, e)));
    assert(ac[j] == c);
    lemma_children_hold(x2, p, c);
}

/// Moving one piece of a well-placed node to a hand (unpromoted) or to a
/// free square keeps it well placed.
pub proof fn lemma_placed_move(a: u64, b: u64, q: u8)
    requires
        pieces_placed(a),
        q <= 7,
        same_but(a, b, q),
        co(b, q) == 15 ==> pr(b, q) == 0,
        co(b, q) != 15 ==> is_board_square(co(b, q)) && forall|r: u8|
            r <= 7 && r != q ==> #[trigger] co(a, r) != co(b, q),
    ensures
        pieces_placed(b),
{
    assert forall|r: u8| r <= 7 implies (#[trigger] co(b, r) == 15 || is_board_square(co(b, r))) by {
        if r != q {
            assert(tri(b, r) == tri(a, r));
        }
    }
    assert forall|r: u8, t: u8|
        r <= 7 && t <= 7 && r != t && #[trigger] co(b, r) == #[trigger] co(b, t) implies co(b, r)
        == 15 by {
        if r != q && t != q {
            assert(tri(b, r) == tri(a, r));
            assert(tri(b, t) == tri(a, t));
        } else if r == q {
            assert(tri(b, t) == tri(a, t));
        } else {
            assert(tri(b, r) == tri(a, r));
        }
    }
    assert forall|r: u8| (r == 2 || r == 3) && co(b, r) == 15 implies #[trigger] pr(b, r) == 0 by {
        if r != q {
            assert(tri(b, r) == tri(a, r));
        }
    }
}

/// An empty square of a well-placed node holds no piece.
pub proof fn lemma_empty_square_free(x: u64, c: u64)
    requires
        pieces_placed(x),
        c < 15,
        square_of(board_of(x), c) == 0,
    ensures
        forall|r: u8| r <= 7 ==> #[trigger] co(x, r) != c,
{
    lemma_square_contents(x, c);
    assert forall|r: u8| r <= 7 implies #[trigger] co(x, r) != c by {
        if co(x, r) == c {
            assert forall|t: u8| t <= 7 && t != r implies #[trigger] co(x, t) != c by {
                if co(x, t) == c {
                    assert(co(x, t) == co(x, r));
                }
            }
            assert(square_of(board_of(x), c) == contents(x, r));
            lemma_tri_bounds(x, r);
        }
    }
}

/// A parent in which the active player's non-lion `q` of `y` (the child seen
/// by the player who just moved) was still in hand, that is, a parent in
/// which it was dropped, has the child among its children.
proof fn lemma_drop_parent_lists_child(c: u64, q: u8)
    requires
        built(c) == c,
        pieces_placed(c),
        2 <= q <= 7,
        al(inverted(c), q) == 0,
        co(inverted(c), q) != 15,
        pr(inverted(c), q) == 0,
        !is_terminal_node(with_field(inverted(c), co_offset(q), 15, 15)),
    ensures
        children_of(built(with_field(inverted(c), co_offset(q), 15, 15))).contains(c),
{
    let y = inverted(c);
    lemma_inverted_placed(c);
    let d = co(y, q);
    assert(is_board_square(d));
    let w = with_field(y, co_offset(q), 15, 15);
    lemma_set_co(y, q, 15);
    lemma_placed_move(y, w, q);
    let x2 = built(w);
    lemma_built_parts(w);
    lemma_equiv_placed(x2, w);
    lemma_terminality_by_lion(x2, w);
    let p = lemma_corresponding(x2, w, q);
    let pd: u8 = if drop_is_duplicate(x2, p) {
        (p - 1) as u8
    } else {
        p
    };
    if drop_is_duplicate(x2, p) {
        lemma_tri_bounds(x2, pd);
        assert(co(x2, pd) == 15);
    }
    assert(tri(x2, pd) == (15u64, 0u64, 0u64));
    assert(pd == p || pd == partner(p));
    assert forall|r: u8| r <= 7 implies #[trigger] co(w, r) != d by {
        if r != q {
            assert(tri(w, r) == tri(y, r));
            if co(y, r) == d {
                assert(co(y, r) == co(y, q));
            }
        }
    }
    lemma_equiv_square_free(x2, w, d);
    lemma_square_contents(x2, d);
    let b = board_of(x2);
    assert(square_of(b, d) == 0);
    let es = crate::coords::empty_squares_of(b);
    crate::movement::lemma_board_squares_contains(d);
    crate::movement::lemma_filter_contains_iff(
        crate::coords::board_squares(),
        |e: u64| square_of(b, e) == 0,
        d,
    );
    let j = choose|j: int| 0 <= j < es.len() && es[j] == d;
    let mm = with_field(x2, co_offset(pd), 15, d);
    lemma_set_co(x2, pd, d);
    lemma_same_but_symmetric(y, w, q);
    lemma_equiv_update(x2, w, pd, q, mm, y);
    lemma_equiv_inverted(mm, y);
    lemma_inversion_is_involutive(c);
    lemma_equiv_built(inverted(mm), c);
    assert(drop_child(x2, pd, d) == c);
    let ac = crate::children::actor_children(x2, pd);
    assert(ac == es.map_values(|e: u64| drop_child(x2, pd, e)));
    assert(ac[j] == c);
    lemma_children_hold(x2, pd, c);
}

/// A parent that the parents from square `s` of `y` (the child seen by the
/// player who just moved, whose piece `q` moved from `s` to `d`) hold has
/// the child among its children.
proof fn lemma_square_parent_lists_child(
    c: u64,
    q: u8,
    demote: bool,
    s: u64,
    d: u64,
    z: u64,
)
    requires
        built(c) == c,
        pieces_placed(c),
        1 <= q <= 7,
        q == 1 || al(inverted(c), q) == 0,
        co(inverted(c), q) == d,
        is_board_square(d),
        is_board_square(s),
        square_of(board_of(inverted(c)), s) == 0,
        !demote ==> crate::movement::legal_squares_of(
            q,
            crate::pieces::is_promoted_in(inverted(c), q),
            crate::movement::Unknown::Dest,
            s,
        ).contains(d),
        !demote ==> ((q == 2 || q == 3) && 12 <= d <= 14 ==> pr(inverted(c), q) == 1),
        demote ==> (q == 2 || q == 3) && 12 <= d <= 14 && pr(inverted(c), q) == 1 && s + 4 == d,
        crate::parents::parents_from_square(inverted(c), q, demote, s, d).contains(z),
    ensures
        children_of(z).contains(c),
{
    let y = inverted(c);
    lemma_inverted_placed(c);
    lemma_empty_square_free(y, s);
    let base1 = with_field(y, co_offset(q), 15, s);
    lemma_set_co(y, q, s);
    let base = crate::parents::demoted_if(crate::pieces::with_coords(y, q, s), q, demote);
    if demote && (q == 2 || q == 3) {
        lemma_set_bit(base1, q, promotion_offset_of(q), 0);
        lemma_same_but_trans(y, base1, base, q);
    }
    lemma_same_but_symmetric(y, base, q);
    lemma_tri_bounds(y, q);
    assert(s != d);
    lemma_placed_move(y, base, q);
    if demote {
        let dirs = crate::movement::directions_of(q, false);
        crate::movement::lemma_board_squares_contains(d);
        crate::movement::lemma_filter_contains_iff(
            crate::coords::board_squares(),
            |e: u64| crate::movement::connects_spec(dirs, s, e),
            d,
        );
    }
    assert(crate::movement::legal_squares_of(
        q,
        crate::pieces::is_promoted_in(base, q),
        crate::movement::Unknown::Dest,
        s,
    ).contains(d));
    let ps = crate::parents::parents_from_square(y, q, demote, s, d);
    if co(y, 0) == 15 {
        let w = with_field(base, co_offset(0), 15, d);
        lemma_set_co(base, 0, d);
        assert(ps == keep_parent(w));
        assert(z == built(w));
        lemma_same_but_symmetric(base, w, 0);
        assert forall|r: u8| r <= 7 && r != 0 implies #[trigger] co(base, r) != d by {
            if r != q {
                assert(tri(base, r) == tri(y, r));
                if co(y, r) == d {
                    assert(co(y, r) == co(y, q));
                }
            }
        }
        lemma_placed_move(base, w, 0);
        lemma_move_parent_lists_child(c, w, base, q, 0, s, d);
    } else {
        let a0 = keep_parent(base);
        let a2 = crate::parents::capturing_parents(y, base, 2, d);
        let a3 = crate::parents::capturing_parents(y, base, 3, d);
        let a4 = crate::parents::capturing_parents(y, base, 4, d);
        let a5 = crate::parents::capturing_parents(y, base, 5, d);
        let a6 = crate::parents::capturing_parents(y, base, 6, d);
        let a7 = crate::parents::capturing_parents(y, base, 7, d);
        assert(ps == a0 + a2 + a3 + a4 + a5 + a6 + a7);
        lemma_add_member(a0 + a2 + a3 + a4 + a5 + a6, a7, z);
        if !a7.contains(z) {
            lemma_add_member(a0 + a2 + a3 + a4 + a5, a6, z);
            if !a6.contains(z) {
                lemma_add_member(a0 + a2 + a3 + a4, a5, z);
                if !a5.contains(z) {
                    lemma_add_member(a0 + a2 + a3, a4, z);
                    if !a4.contains(z) {
                        lemma_add_member(a0 + a2, a3, z);
                        if !a3.contains(z) {
                            lemma_add_member(a0, a2, z);
                        }
                    }
                }
            }
        }
        assert forall|r: u8| r <= 7 && r != q implies #[trigger] co(base, r) != d by {
            assert(tri(base, r) == tri(y, r));
            if co(y, r) == d {
                assert(co(y, r) == co(y, q));
            }
        }
        assert(tri(base, 0) == tri(y, 0));
        assert(co(y, 0) == 15 || is_board_square(co(y, 0)));
        if a0.contains(z) {
            assert(z == built(base));
            lemma_move_parent_lists_child(c, base, base, q, 8, s, d);
        } else {
            let cc: u8 = if a2.contains(z) {
                2
            } else if a3.contains(z) {
                3
            } else if a4.contains(z) {
                4
            } else if a5.contains(z) {
                5
            } else if a6.contains(z) {
                6
            } else {
                7
            };
            lemma_capturing_member(c, base, q, cc, s, d, z);
        }
    }
}

/// A parent that the capturing parents of non-lion `cc` hold has the child
/// among its children.
proof fn lemma_capturing_member(c: u64, base: u64, q: u8, cc: u8, s: u64, d: u64, z: u64)
    requires
        built(c) == c,
        pieces_placed(c),
        pieces_placed(inverted(c)),
        pieces_placed(base),
        1 <= q <= 7,
        2 <= cc <= 7,
        q == 1 || al(inverted(c), q) == 0,
        co(inverted(c), q) == d,
        co(inverted(c), 0) != 15,
        is_board_square(d),
        is_board_square(s),
        s != d,
        same_but(inverted(c), base, q),
        same_but(base, inverted(c), q),
        co(base, q) == s,
        al(base, q) == al(inverted(c), q),
        forall|r: u8| r <= 7 && r != q ==> #[trigger] co(base, r) != d,
        crate::movement::legal_squares_of(
            q,
            crate::pieces::is_promoted_in(base, q),
            crate::movement::Unknown::Dest,
            s,
        ).contains(d),
        tri(inverted(c), q) == (
            d,
            al(base, q),
            if (q == 2 || q == 3) && 12 <= d <= 14 {
                1u64
            } else {
                pr(base, q)
            },
        ),
        crate::parents::capturing_parents(inverted(c), base, cc, d).contains(z),
    ensures
        children_of(z).contains(c),
{
    let y = inverted(c);
    assert(crate::pieces::is_active_in(y, cc) && crate::pieces::coords_of(y, cc) == 15);
    assert(cc != q);
    assert(tri(base, cc) == tri(y, cc));
    lemma_tri_bounds(y, cc);
    assert(tri(base, cc) == (15u64, 0u64, 0u64));
    let cap1 = with_field(base, co_offset(cc), 15, d);
    lemma_set_co(base, cc, d);
    let cap = with_field(cap1, allegiance_offset_of(cc), 1, 1);
    lemma_set_bit(cap1, cc, allegiance_offset_of(cc), 1);
    lemma_same_but_trans(base, cap1, cap, cc);
    let first = if cc == 2 || cc == 3 {
        keep_parent(with_field(cap, promotion_offset_of(cc), 1, 1))
    } else {
        Seq::empty()
    };
    assert(crate::parents::capturing_parents(y, base, cc, d) == first + keep_parent(cap));
    lemma_add_member(first, keep_parent(cap), z);
    let w = if keep_parent(cap).contains(z) {
        cap
    } else {
        let cap3 = with_field(cap, promotion_offset_of(cc), 1, 1);
        lemma_set_bit(cap, cc, promotion_offset_of(cc), 1);
        lemma_same_but_trans(base, cap, cap3, cc);
        cap3
    };
    assert(z == built(w));
    lemma_same_but_symmetric(base, w, cc);
    lemma_placed_move(base, w, cc);
    assert(tri(w, q) == tri(base, q));
    assert(tri(w, 0) == tri(base, 0));
    assert(tri(base, 0) == tri(y, 0));
    assert(co(y, 0) == 15 || is_board_square(co(y, 0)));
    lemma_move_parent_lists_child(c, w, base, q, cc, s, d);
}

/// A parent that the parents through actor `q` of the child seen by the
/// player who just moved hold has the child among its children.
proof fn lemma_actor_parent_lists_child(c: u64, q: u8, z: u64)
    requires
        built(c) == c,
        pieces_placed(c),
        1 <= q <= 7,
        actor_parents(inverted(c), q).contains(z),
    ensures
        children_of(z).contains(c),
{
    let y = inverted(c);
    lemma_inverted_placed(c);
    let dest = crate::pieces::coords_of(y, q);
    let promoted = crate::pieces::is_promoted_in(y, q);
    lemma_tri_bounds(y, q);
    assert(crate::pieces::is_active_in(y, q) && dest != 15);
    assert(co(y, q) == dest);
    assert(is_board_square(dest));
    let dropping = if !promoted && q != 1 {
        keep_parent(crate::pieces::with_coords(y, q, 15))
    } else {
        Seq::empty()
    };
    let start = crate::movement::legal_squares_of(
        q,
        promoted,
        crate::movement::Unknown::Start,
        dest,
    );
    let mp1 = crate::parents::moving_parents(y, q, false, start);
    let mp2 = if promoted && 12 <= dest <= 14 {
        crate::parents::moving_parents(y, q, true, seq![(dest - 4) as u64])
    } else {
        Seq::empty()
    };
    let moving = if (q == 2 || q == 3) && !promoted && 12 <= dest <= 14 {
        Seq::empty()
    } else {
        mp1 + mp2
    };
    assert(actor_parents(y, q) == dropping + moving);
    lemma_add_member(dropping, moving, z);
    if dropping.contains(z) {
        assert(z == built(with_field(y, co_offset(q), 15, 15)));
        lemma_drop_parent_lists_child(c, q);
    } else {
        lemma_add_member(mp1, mp2, z);
        if mp1.contains(z) {
            let s = lemma_moving_parents_member(y, q, false, start, z);
            let dirs = crate::movement::directions_of(q, promoted);
            crate::movement::lemma_filter_contains_iff(
                crate::coords::board_squares(),
                |e: u64| crate::movement::connects_spec(dirs, e, dest),
                s,
            );
            lemma_board_squares_are_board_squares(s);
            crate::movement::lemma_legal_squares_are_symmetric(q, promoted, s, dest);
            lemma_square_parent_lists_child(c, q, false, s, dest, z);
        } else {
            let s = lemma_moving_parents_member(y, q, true, seq![(dest - 4) as u64], z);
            assert(seq![(dest - 4) as u64][0] == s);
            lemma_square_parent_lists_child(c, q, true, s, dest, z);
        }
    }
}

/// Every parent of a built, well-placed node lists the node among its
/// children.
pub proof fn lemma_every_parent_lists_child(c: u64, i: int)
    requires
        built(c) == c,
        pieces_placed(c),
        0 <= i < parents_of(c).len(),
    ensures
        children_of(parents_of(c)[i]).contains(c),
{
    let z = parents_of(c)[i];
    let y = inverted(c);
    let s1 = actor_parents(y, 1);
    let s2 = actor_parents(y, 2);
    let s3 = actor_parents(y, 3);
    let s4 = actor_parents(y, 4);
    let s5 = actor_parents(y, 5);
    let s6 = actor_parents(y, 6);
    let s7 = actor_parents(y, 7);
    assert(parents_of(c) == s1 + s2 + s3 + s4 + s5 + s6 + s7);
    assert(parents_of(c).contains(z));
    lemma_add_member(s1 + s2 + s3 + s4 + s5 + s6, s7, z);
    let q: u8 = if s7.contains(z) {
        7
    } else {
        lemma_add_member(s1 + s2 + s3 + s4 + s5, s6, z);
        if s6.contains(z) {
            6
        } else {
            lemma_add_member(s1 + s2 + s3 + s4, s5, z);
            if s5.contains(z) {
                5
            } else {
                lemma_add_member(s1 + s2 + s3, s4, z);
                if s4.contains(z) {
                    4
                } else {
                    lemma_add_member(s1 + s2, s3, z);
                    if s3.contains(z) {
                        3
                    } else {
                        lemma_add_member(s1, s2, z);
                        if s2.contains(z) {
                            2
                        } else {
                            1
                        }
                    }
                }
            }
        }
    };
    lemma_actor_parent_lists_child(c, q, z);
}

/// Being one node but for which piece of a species is which is
/// transitive.
pub proof fn lemma_equiv_trans(a: u64, b: u64, c: u64)
    requires
        equiv(a, b),
        equiv(b, c),
    ensures
        equiv(a, c),
{
}

/// Nodes that build to one node are one node but for which piece of a
/// species is which.
pub proof fn lemma_built_equal_equiv(a: u64, b: u64)
    requires
        built(a) == built(b),
    ensures
        equiv(a, b),
{
    lemma_built_parts(a);
    lemma_built_parts(b);
    lemma_equiv_symmetric(built(a), a);
    lemma_equiv_trans(a, built(a), b);
}

/// Which player piece `q` of node `x` belongs to: `0` for the active
/// player, `1` for the passive one.
pub open spec fn side(x: u64, q: u8) -> u64 {
    if q == 0 {
        1
    } else if q == 1 {
        0
    } else {
        al(x, q)
    }
}

/// Whether a piece of player `t` stands on square `sq` of node `x`.
pub open spec fn occupies(x: u64, sq: u64, t: u64) -> bool {
    exists|r: u8| r <= 7 && #[trigger] co(x, r) == sq && side(x, r) == t
}

/// Whether a piece of the species whose first piece is `sp` stands on
/// square `sq` of node `x`.
pub open spec fn species_at(x: u64, sp: u8, sq: u64) -> bool {
    co(x, sp) == sq || co(x, (sp + 1) as u8) == sq
}

/// Nodes that are one node but for which piece of a species is which have
/// the same pieces on the same squares.
pub proof fn lemma_equiv_occupies(a: u64, b: u64, sq: u64, t: u64)
    requires
        equiv(a, b),
    ensures
        occupies(a, sq, t) == occupies(b, sq, t),
        species_at(a, 2, sq) == species_at(b, 2, sq),
        species_at(a, 4, sq) == species_at(b, 4, sq),
        species_at(a, 6, sq) == species_at(b, 6, sq),
{
    lemma_equiv_symmetric(a, b);
    if occupies(a, sq, t) {
        let r = choose|r: u8| r <= 7 && #[trigger] co(a, r) == sq && side(a, r) == t;
        let r2 = lemma_corresponding(b, a, r);
        assert(co(b, r2) == sq && side(b, r2) == t);
    }
    if occupies(b, sq, t) {
        let r = choose|r: u8| r <= 7 && #[trigger] co(b, r) == sq && side(b, r) == t;
        let r2 = lemma_corresponding(a, b, r);
        assert(co(a, r2) == sq && side(a, r2) == t);
    }
}

/// Whether the sequence is strictly increasing.
pub open spec fn increasing(s: Seq<u64>) -> bool {
    forall|i: int, j: int| 0 <= i < j < s.len() ==> s[i] < s[j]
}

/// Filtering a strictly increasing sequence keeps it strictly increasing.
pub proof fn lemma_filter_increasing(s: Seq<u64>, pred: spec_fn(u64) -> bool)
    requires
        increasing(s),
    ensures
        increasing(s.filter(pred)),
    decreases s.len(),
{
    reveal(Seq::filter);
    if s.len() > 0 {
        let rest = s.drop_last();
        assert(increasing(rest));
        lemma_filter_increasing(rest, pred);
        let f = rest.filter(pred);
        if pred(s.last()) {
            assert forall|i: int| 0 <= i < f.len() implies f[i] < s.last() by {
                assert(f.contains(f[i]));
                crate::movement::lemma_filter_contains_iff(rest, pred, f[i]);
                let k = choose|k: int| 0 <= k < rest.len() && rest[k] == f[i];
                assert(s[k] == f[i]);
            }
            assert(s.filter(pred) == f.push(s.last()));
        } else {
            assert(s.filter(pred) == f);
        }
    }
}

/// The twelve board squares are strictly increasing.
pub proof fn lemma_board_squares_increasing()
    ensures
        increasing(crate::coords::board_squares()),
{
    let b = crate::coords::board_squares();
    assert(b =~= seq![0u64, 1, 2, 4, 5, 6, 8, 9, 10, 12, 13, 14]);
}

/// The squares that the active player's piece `p` of `x` can move to, the
/// other player's piece there, if any, to be captured.
pub open spec fn move_dests(x: u64, p: u8) -> Seq<u64> {
    crate::movement::legal_squares_of(
        p,
        crate::pieces::is_promoted_in(x, p),
        crate::movement::Unknown::Dest,
        crate::pieces::coords_of(x, p),
    ).filter(|d: u64| vacated(x, board_of(x), d) != 0)
}

/// Where the `j`-th child of actor `p` of `x` has that piece.
pub open spec fn child_dest(x: u64, p: u8, j: int) -> u64 {
    if crate::pieces::coords_of(x, p) == 15 {
        crate::coords::empty_squares_of(board_of(x))[j]
    } else {
        move_dests(x, p)[j]
    }
}

/// The node right after the `j`-th move or drop of actor `p` of `x`, still
/// seen by the player who made it.
pub open spec fn child_move(x: u64, p: u8, j: int) -> u64 {
    let d = child_dest(x, p, j);
    if crate::pieces::coords_of(x, p) == 15 {
        with_field(x, co_offset(p), 15, d)
    } else {
        crate::pieces::moved_and_promoted(vacated(x, board_of(x), d), p, d)
    }
}

/// Where the children of actor `p` start among the children of `x`.
pub open spec fn child_offset(x: u64, p: u8) -> int
    decreases p,
{
    if p <= 1 {
        0
    } else {
        child_offset(x, (p - 1) as u8) + crate::children::actor_children(x, (p - 1) as u8).len()
    }
}

/// The `i`-th child of `x` is the child of one actor, at its place among
/// that actor's children.
pub proof fn lemma_child_index(x: u64, i: int) -> (r: (u8, int))
    requires
        !is_terminal_node(x),
        0 <= i < children_of(x).len(),
    ensures
        1 <= r.0 <= 7,
        0 <= r.1 < crate::children::actor_children(x, r.0).len(),
        i == child_offset(x, r.0) + r.1,
        children_of(x)[i] == crate::children::actor_children(x, r.0)[r.1],
{
    let s1 = crate::children::actor_children(x, 1);
    let s2 = crate::children::actor_children(x, 2);
    let s3 = crate::children::actor_children(x, 3);
    let s4 = crate::children::actor_children(x, 4);
    let s5 = crate::children::actor_children(x, 5);
    let s6 = crate::children::actor_children(x, 6);
    let s7 = crate::children::actor_children(x, 7);
    assert(children_of(x) == s1 + s2 + s3 + s4 + s5 + s6 + s7);
    assert(child_offset(x, 1) == 0);
    assert(child_offset(x, 2) == s1.len());
    assert(child_offset(x, 3) == s1.len() + s2.len());
    assert(child_offset(x, 4) == s1.len() + s2.len() + s3.len());
    assert(child_offset(x, 5) == s1.len() + s2.len() + s3.len() + s4.len());
    assert(child_offset(x, 6) == s1.len() + s2.len() + s3.len() + s4.len() + s5.len());
    assert(child_offset(x, 7) == s1.len() + s2.len() + s3.len() + s4.len() + s5.len() + s6.len());
    let p: u8 = if i < child_offset(x, 2) {
        1
    } else if i < child_offset(x, 3) {
        2
    } else if i < child_offset(x, 4) {
        3
    } else if i < child_offset(x, 5) {
        4
    } else if i < child_offset(x, 6) {
        5
    } else if i < child_offset(x, 7) {
        6
    } else {
        7
    };
    (p, i - child_offset(x, p))
}

/// What the `j`-th child of actor `p` of a valid node is made of.
proof fn lemma_actor_child(x: u64, p: u8, j: int)
    requires
        is_valid(x),
        !is_terminal_node(x),
        1 <= p <= 7,
        0 <= j < crate::children::actor_children(x, p).len(),
    ensures
        crate::children::actor_children(x, p)[j] == built(inverted(child_move(x, p, j))),
        side(x, p) == 0,
        is_board_square(child_dest(x, p, j)),
        co(x, p) == 15 ==> 2 <= p && !drop_is_duplicate(x, p) && forall|r: u8|
            r <= 7 ==> #[trigger] co(x, r) != child_dest(x, p, j),
        co(x, p) != 15 ==> is_board_square(co(x, p)) && co(x, p) != child_dest(x, p, j)
            && !occupies(x, child_dest(x, p, j), 0) && crate::movement::legal_squares_of(
            p,
            crate::pieces::is_promoted_in(x, p),
            crate::movement::Unknown::Dest,
            co(x, p),
        ).contains(child_dest(x, p, j)) && vacated(x, board_of(x), child_dest(x, p, j)) != 0,
{
    let b = board_of(x);
    let ac = crate::children::actor_children(x, p);
    assert(!crate::pieces::is_passive_in(x, p));
    lemma_tri_bounds(x, p);
    let d = child_dest(x, p, j);
    if crate::pieces::coords_of(x, p) == 15 {
        assert(p != 1);
        let es = crate::coords::empty_squares_of(b);
        assert(es.contains(d));
        crate::movement::lemma_filter_contains_iff(
            crate::coords::board_squares(),
            |c: u64| square_of(b, c) == 0,
            d,
        );
        lemma_board_squares_are_board_squares(d);
        lemma_empty_square_free(x, d);
    } else {
        let legal = crate::movement::legal_squares_of(
            p,
            crate::pieces::is_promoted_in(x, p),
            crate::movement::Unknown::Dest,
            crate::pieces::coords_of(x, p),
        );
        let pred = |e: u64| vacated(x, b, e) != 0;
        let f = legal.filter(pred);
        assert(f.contains(d));
        crate::movement::lemma_filter_contains_iff(legal, pred, d);
        lemma_destination(p, crate::pieces::is_promoted_in(x, p), co(x, p), d);
        let k = lemma_vacated_cases(x, d);
        if occupies(x, d, 0) {
            let r = choose|r: u8| r <= 7 && #[trigger] co(x, r) == d && side(x, r) == 0;
            assert(r == k);
        }
    }
}

/// Changing one piece leaves the squares it neither left nor reached as
/// they were.
proof fn lemma_occupies_frame(a: u64, b: u64, q: u8, sq: u64, t: u64)
    requires
        same_but(a, b, q),
        q <= 7,
        sq != co(a, q),
        sq != co(b, q),
    ensures
        occupies(a, sq, t) == occupies(b, sq, t),
{
    if occupies(a, sq, t) {
        let r = choose|r: u8| r <= 7 && #[trigger] co(a, r) == sq && side(a, r) == t;
        assert(tri(b, r) == tri(a, r));
        assert(co(b, r) == sq);
    }
    if occupies(b, sq, t) {
        let r = choose|r: u8| r <= 7 && #[trigger] co(b, r) == sq && side(b, r) == t;
        assert(tri(b, r) == tri(a, r));
        assert(co(a, r) == sq);
    }
}

/// The first piece of the species of non-lion `p`.
pub open spec fn species_of(p: u8) -> u8 {
    if p % 2 == 0 {
        p
    } else {
        (p - 1) as u8
    }
}

/// Which squares the `j`-th move or drop of actor `p` of a valid node fills
/// and empties.
proof fn lemma_move_occupancy(x: u64, p: u8, j: int)
    requires
        is_valid(x),
        !is_terminal_node(x),
        1 <= p <= 7,
        0 <= j < crate::children::actor_children(x, p).len(),
    ensures
        occupies(child_move(x, p, j), child_dest(x, p, j), 0),
        !occupies(child_move(x, p, j), child_dest(x, p, j), 1),
        co(x, p) == 15 ==> (forall|sq: u64, t: u64|
            sq < 15 && sq != child_dest(x, p, j) ==> #[trigger] occupies(
                child_move(x, p, j),
                sq,
                t,
            ) == occupies(x, sq, t)),
        co(x, p) == 15 ==> species_at(child_move(x, p, j), species_of(p), child_dest(x, p, j)),
        co(x, p) == 15 ==> forall|sp: u8|
            (sp == 2 || sp == 4 || sp == 6) && sp != species_of(p) ==> !#[trigger] species_at(
                child_move(x, p, j),
                sp,
                child_dest(x, p, j),
            ),
        co(x, p) != 15 ==> !occupies(child_move(x, p, j), co(x, p), 0) && !occupies(
            child_move(x, p, j),
            co(x, p),
            1,
        ),
        co(x, p) != 15 ==> (forall|sq: u64, t: u64|
            sq < 15 && sq != child_dest(x, p, j) && sq != co(x, p) ==> #[trigger] occupies(
                child_move(x, p, j),
                sq,
                t,
            ) == occupies(x, sq, t)),
{
    lemma_actor_child(x, p, j);
    let d = child_dest(x, p, j);
    let m = child_move(x, p, j);
    lemma_tri_bounds(x, p);
    if co(x, p) == 15 {
        lemma_set_co(x, p, d);
        assert(co(m, p) == d && side(m, p) == 0);
        assert forall|r: u8| r <= 7 && r != p implies #[trigger] co(m, r) != d by {
            assert(tri(m, r) == tri(x, r));
        }
        assert forall|sq: u64, t: u64| sq < 15 && sq != d implies #[trigger] occupies(m, sq, t)
            == occupies(x, sq, t) by {
            lemma_occupies_frame(x, m, p, sq, t);
        }
        assert forall|sp: u8|
            (sp == 2 || sp == 4 || sp == 6) && sp != species_of(p) implies !#[trigger] species_at(
            m,
            sp,
            d,
        ) by {
            assert(sp != p && (sp + 1) as u8 != p);
        }
    } else {
        let s = co(x, p);
        let v = vacated(x, board_of(x), d);
        let k = lemma_vacated_cases(x, d);
        if k == 0 {
            lemma_captured_parts(x, 1);
        } else if k != 8 {
            lemma_captured_parts(x, k);
        }
        lemma_moved_parts(v, p, d);
        assert(tri(v, p) == tri(x, p));
        assert(co(m, p) == d && side(m, p) == 0);
        assert forall|r: u8| r <= 7 && r != p implies #[trigger] co(m, r) != d && co(m, r) != s by {
            assert(tri(m, r) == tri(v, r));
            if !(r == k || (k == 0 && r == 0)) {
                assert(tri(v, r) == tri(x, r));
                if co(x, r) == s {
                    assert(co(x, r) == co(x, p));
                }
            }
        }
        assert forall|sq: u64, t: u64|
            sq < 15 && sq != d && sq != s implies #[trigger] occupies(m, sq, t) == occupies(
            x,
            sq,
            t,
        ) by {
            lemma_occupies_frame(v, m, p, sq, t);
            if k == 0 {
                lemma_occupies_frame(x, v, 0, sq, t);
            } else if k != 8 {
                lemma_occupies_frame(x, v, k, sq, t);
            }
        }
    }
}

/// The places of an actor's children list distinct squares.
proof fn lemma_child_dests_increasing(x: u64, p: u8)
    ensures
        increasing(crate::coords::empty_squares_of(board_of(x))),
        increasing(move_dests(x, p)),
{
    let b = board_of(x);
    lemma_board_squares_increasing();
    lemma_filter_increasing(crate::coords::board_squares(), |c: u64| square_of(b, c) == 0);
    let promoted = crate::pieces::is_promoted_in(x, p);
    let s = crate::pieces::coords_of(x, p);
    let legal = crate::movement::legal_squares_of(
        p,
        promoted,
        crate::movement::Unknown::Dest,
        s,
    );
    let dirs = crate::movement::directions_of(p, promoted);
    if is_board_square(s) {
        lemma_filter_increasing(
            crate::coords::board_squares(),
            |c: u64| crate::movement::connects_spec(dirs, s, c),
        );
    }
    assert(increasing(legal));
    lemma_filter_increasing(legal, |d: u64| vacated(x, b, d) != 0);
}

/// Two moves or drops of a valid node that lead to one node, but for which
/// piece of a species is which, are one move or drop.
proof fn lemma_same_descriptor(x: u64, p1: u8, j1: int, p2: u8, j2: int)
    requires
        is_valid(x),
        !is_terminal_node(x),
        1 <= p1 <= 7,
        1 <= p2 <= 7,
        0 <= j1 < crate::children::actor_children(x, p1).len(),
        0 <= j2 < crate::children::actor_children(x, p2).len(),
        equiv(child_move(x, p1, j1), child_move(x, p2, j2)),
    ensures
        p1 == p2,
        j1 == j2,
{
    let m1 = child_move(x, p1, j1);
    let m2 = child_move(x, p2, j2);
    let d1 = child_dest(x, p1, j1);
    let d2 = child_dest(x, p2, j2);
    lemma_actor_child(x, p1, j1);
    lemma_actor_child(x, p2, j2);
    lemma_move_occupancy(x, p1, j1);
    lemma_move_occupancy(x, p2, j2);
    lemma_tri_bounds(x, p1);
    lemma_tri_bounds(x, p2);
    let drop1 = co(x, p1) == 15;
    let drop2 = co(x, p2) == 15;
    if drop1 && !drop2 {
        let s2 = co(x, p2);
        assert(occupies(x, s2, 0));
        assert(s2 != d1);
        assert(occupies(m1, s2, 0));
        lemma_equiv_occupies(m1, m2, s2, 0);
        assert(false);
    }
    if !drop1 && drop2 {
        let s1 = co(x, p1);
        assert(occupies(x, s1, 0));
        assert(s1 != d2);
        assert(occupies(m2, s1, 0));
        lemma_equiv_occupies(m1, m2, s1, 0);
        assert(false);
    }
    if !drop1 && !drop2 {
        let s1 = co(x, p1);
        let s2 = co(x, p2);
        if s1 != s2 {
            assert(occupies(x, s1, 0));
            if s1 != d2 {
                assert(occupies(m2, s1, 0));
            }
            lemma_equiv_occupies(m1, m2, s1, 0);
            assert(false);
        }
        if p1 != p2 {
            assert(co(x, p1) == co(x, p2));
        }
        if d1 != d2 {
            assert(occupies(m2, d1, 0) == occupies(x, d1, 0));
            lemma_equiv_occupies(m1, m2, d1, 0);
            assert(false);
        }
    }
    if drop1 && drop2 {
        if d1 != d2 {
            assert(!occupies(x, d1, 0));
            assert(occupies(m2, d1, 0) == occupies(x, d1, 0));
            lemma_equiv_occupies(m1, m2, d1, 0);
            assert(false);
        }
        if species_of(p1) != species_of(p2) {
            lemma_equiv_occupies(m1, m2, d1, 0);
            let sp = species_of(p1);
            assert(sp == 2 || sp == 4 || sp == 6);
            assert(species_at(m1, sp, d1));
            assert(!species_at(m2, sp, d1));
            assert(false);
        }
        if p1 != p2 {
            assert(p1 == partner(p2));
            assert(drop_is_duplicate(x, p1) || drop_is_duplicate(x, p2));
        }
    }
    lemma_child_dests_increasing(x, p1);
    if j1 < j2 {
        assert(child_dest(x, p1, j1) < child_dest(x, p1, j2));
    }
    if j2 < j1 {
        assert(child_dest(x, p1, j2) < child_dest(x, p1, j1));
    }
}

/// A valid node's children are distinct.
pub proof fn lemma_visited_children_are_unique(x: u64, i1: int, i2: int)
    requires
        is_valid(x),
        !is_terminal_node(x),
        0 <= i1 < i2 < children_of(x).len(),
    ensures
        children_of(x)[i1] != children_of(x)[i2],
{
    let r1 = lemma_child_index(x, i1);
    let r2 = lemma_child_index(x, i2);
    if children_of(x)[i1] == children_of(x)[i2] {
        let m1 = child_move(x, r1.0, r1.1);
        let m2 = child_move(x, r2.0, r2.1);
        lemma_actor_child(x, r1.0, r1.1);
        lemma_actor_child(x, r2.0, r2.1);
        lemma_built_equal_equiv(inverted(m1), inverted(m2));
        lemma_equiv_inverted(inverted(m1), inverted(m2));
        lemma_inversion_is_involutive(m1);
        lemma_inversion_is_involutive(m2);
        lemma_same_descriptor(x, r1.0, r1.1, r2.0, r2.1);
    }
}

/// Whether a piece of player `t` with promotion bit `pp` stands on square
/// `sq` of node `x`.
pub open spec fn holds(x: u64, sq: u64, t: u64, pp: u64) -> bool {
    exists|r: u8| r <= 7 && #[trigger] co(x, r) == sq && side(x, r) == t && pr(x, r) == pp
}

/// Nodes that are one node but for which piece of a species is which hold
/// the same pieces on the same squares, promotion included.
proof fn lemma_equiv_holds(a: u64, b: u64, sq: u64, t: u64, pp: u64)
    requires
        equiv(a, b),
    ensures
        holds(a, sq, t, pp) == holds(b, sq, t, pp),
{
    lemma_equiv_symmetric(a, b);
    if holds(a, sq, t, pp) {
        let r = choose|r: u8| r <= 7 && #[trigger] co(a, r) == sq && side(a, r) == t && pr(a, r) == pp;
        let r2 = lemma_corresponding(b, a, r);
        assert(co(b, r2) == sq && side(b, r2) == t && pr(b, r2) == pp);
    }
    if holds(b, sq, t, pp) {
        let r = choose|r: u8| r <= 7 && #[trigger] co(b, r) == sq && side(b, r) == t && pr(b, r) == pp;
        let r2 = lemma_corresponding(a, b, r);
        assert(co(a, r2) == sq && side(a, r2) == t && pr(a, r2) == pp);
    }
}

/// A square of a well-placed node holds at most one piece.
proof fn lemma_holds_unique(z: u64, sq: u64, t1: u64, p1: u64, t2: u64, p2: u64)
    requires
        pieces_placed(z),
        sq != 15,
        holds(z, sq, t1, p1),
        holds(z, sq, t2, p2),
    ensures
        t1 == t2,
        p1 == p2,
{
    let r1 = choose|r: u8| r <= 7 && #[trigger] co(z, r) == sq && side(z, r) == t1 && pr(z, r) == p1;
    let r2 = choose|r: u8| r <= 7 && #[trigger] co(z, r) == sq && side(z, r) == t2 && pr(z, r) == p2;
    if r1 != r2 {
        assert(co(z, r1) == co(z, r2));
    }
}

/// Sequences without repeats whose elements are told apart by `pred` join
/// without repeats.
proof fn lemma_no_dup_add(a: Seq<u64>, b: Seq<u64>, pred: spec_fn(u64) -> bool)
    requires
        a.no_duplicates(),
        b.no_duplicates(),
        forall|i: int| 0 <= i < a.len() ==> pred(#[trigger] a[i]),
        forall|j: int| 0 <= j < b.len() ==> !pred(#[trigger] b[j]),
    ensures
        (a + b).no_duplicates(),
{
    assert forall|i: int, j: int| 0 <= i < a.len() && 0 <= j < b.len() implies a[i] != b[j] by {
        assert(pred(a[i]));
        assert(!pred(b[j]));
    }
    vstd::seq_lib::lemma_no_dup_in_concat(a, b);
}

/// What a parent kept from a raw parent is: at most the raw parent built.
proof fn lemma_keep_parent_shape(w: u64)
    ensures
        keep_parent(w).no_duplicates(),
        forall|i: int| 0 <= i < keep_parent(w).len() ==> #[trigger] keep_parent(w)[i] == built(w)
            && !is_terminal_node(w),
{
}

/// What the squares of a parent hold, where the child's piece `q` came from
/// `s` (empty in `y`, the child seen by the player who moved) to `d`, with
/// promotion bit `ps` before the move; `kind` says what was captured, as in
/// `lemma_move_parent_lists_child`, with promotion bit `pc` for a captured
/// non-lion.
proof fn lemma_parent_squares(
    y: u64,
    w1: u64,
    w: u64,
    q: u8,
    kind: u8,
    s: u64,
    d: u64,
    ps: u64,
    pc: u64,
)
    requires
        pieces_placed(y),
        1 <= q <= 7,
        co(y, q) == d,
        side(y, q) == 0,
        d < 15,
        is_board_square(s),
        ps < 2,
        forall|r: u8| r <= 7 ==> #[trigger] co(y, r) != s,
        same_but(y, w1, q),
        tri(w1, q) == (s, al(y, q), ps),
        ps == 1 ==> (q == 2 || q == 3),
        kind == 8 ==> w == w1,
        kind == 0 ==> co(y, 0) == 15 && same_but(w1, w, 0) && tri(w, 0) == (d, 0u64, 0u64),
        2 <= kind <= 7 ==> co(y, kind) == 15 && same_but(w1, w, kind) && tri(w, kind) == (
            d,
            1u64,
            pc,
        ) && pc < 2 && (pc == 1 ==> (kind == 2 || kind == 3)),
        kind == 8 || kind == 0 || 2 <= kind <= 7,
    ensures
        pieces_placed(built(w)),
        occupies(built(w), s, 0),
        holds(built(w), s, 0, ps),
        forall|sq: u64, t: u64|
            sq < 15 && sq != s && sq != d ==> #[trigger] occupies(built(w), sq, t) == occupies(
                y,
                sq,
                t,
            ),
        !occupies(built(w), d, 0),
        kind == 8 ==> !occupies(built(w), d, 1),
        kind == 0 ==> co(built(w), 0) == d,
        2 <= kind <= 7 ==> co(built(w), 0) != d && occupies(built(w), d, 1) && holds(
            built(w),
            d,
            1,
            pc,
        ) && species_at(built(w), species_of(kind), d) && forall|sp: u8|
            (sp == 2 || sp == 4 || sp == 6) && sp != species_of(kind) ==> !#[trigger] species_at(
                built(w),
                sp,
                d,
            ),
{
    let z = built(w);
    lemma_tri_bounds(y, q);
    assert forall|r: u8| r <= 7 && r != q implies #[trigger] co(w1, r) != s && co(w1, r) != d
        || (co(w1, r) == 15 && co(w1, r) != s) by {
        assert(tri(w1, r) == tri(y, r));
        if co(y, r) == d {
            assert(co(y, r) == co(y, q));
        }
    }
    assert(pieces_placed(w1)) by {
        assert forall|r: u8| r <= 7 && r != q implies #[trigger] co(y, r) != co(w1, q) by {}
        lemma_placed_move(y, w1, q);
    }
    if kind == 0 {
        assert forall|r: u8| r <= 7 && r != 0 implies #[trigger] co(w1, r) != d by {
            if r != q {
                assert(tri(w1, r) == tri(y, r));
                if co(y, r) == d {
                    assert(co(y, r) == co(y, q));
                }
            }
        }
        lemma_placed_move(w1, w, 0);
    } else if kind != 8 {
        assert(kind != q);
        assert forall|r: u8| r <= 7 && r != kind implies #[trigger] co(w1, r) != d by {
            if r != q {
                assert(tri(w1, r) == tri(y, r));
                if co(y, r) == d {
                    assert(co(y, r) == co(y, q));
                }
            }
        }
        lemma_placed_move(w1, w, kind);
    }
    lemma_built_parts(w);
    lemma_equiv_placed(z, w);
    assert(co(w, q) == s && side(w, q) == 0 && pr(w, q) == ps) by {
        if kind == 0 {
            assert(tri(w, q) == tri(w1, q));
        } else if kind != 8 {
            assert(tri(w, q) == tri(w1, q));
        }
    }
    lemma_equiv_holds(z, w, s, 0, ps);
    lemma_equiv_occupies(z, w, s, 0);
    assert forall|sq: u64, t: u64|
        sq < 15 && sq != s && sq != d implies #[trigger] occupies(z, sq, t) == occupies(y, sq, t) by {
        lemma_equiv_occupies(z, w, sq, t);
        lemma_occupies_frame(y, w1, q, sq, t);
        if kind == 0 {
            assert(tri(w1, 0) == tri(y, 0));
            lemma_occupies_frame(w1, w, 0, sq, t);
        } else if kind != 8 {
            assert(tri(w1, kind) == tri(y, kind));
            lemma_occupies_frame(w1, w, kind, sq, t);
        }
    }
    lemma_equiv_occupies(z, w, d, 0);
    lemma_equiv_occupies(z, w, d, 1);
    assert(!occupies(w, d, 0)) by {
        if occupies(w, d, 0) {
            let r = choose|r: u8| r <= 7 && #[trigger] co(w, r) == d && side(w, r) == 0;
            if r != q && !(kind == 0 && r == 0) && !(2 <= kind <= 7 && r == kind) {
                if kind == 0 {
                    assert(tri(w, r) == tri(w1, r));
                } else if kind != 8 {
                    assert(tri(w, r) == tri(w1, r));
                }
                assert(tri(w1, r) == tri(y, r));
                assert(co(y, r) == co(y, q));
            } else if r == q {
                if kind == 0 {
                    assert(tri(w, q) == tri(w1, q));
                } else if kind != 8 {
                    assert(tri(w, q) == tri(w1, q));
                }
            }
        }
    }
    if kind == 8 {
        assert(!occupies(w, d, 1)) by {
            if occupies(w, d, 1) {
                let r = choose|r: u8| r <= 7 && #[trigger] co(w, r) == d && side(w, r) == 1;
                if r != q {
                    assert(tri(w1, r) == tri(y, r));
                    assert(co(y, r) == co(y, q));
                }
            }
        }
    }
    if kind == 0 {
        assert(tri(z, 0) == tri(w, 0));
    }
    if 2 <= kind <= 7 {
        assert(tri(z, 0) == tri(w, 0));
        assert(tri(w, 0) == tri(w1, 0));
        assert(tri(w1, 0) == tri(y, 0));
        assert(co(y, 0) != d) by {
            if co(y, 0) == d {
                assert(co(y, 0) == co(y, q));
            }
        }
        assert(co(w, kind) == d && side(w, kind) == 1 && pr(w, kind) == pc);
        lemma_equiv_holds(z, w, d, 1, pc);
        let sp = species_of(kind);
        assert(species_at(w, sp, d));
        assert forall|sp2: u8|
            (sp2 == 2 || sp2 == 4 || sp2 == 6) && sp2 != species_of(kind) implies !#[trigger] species_at(
            w,
            sp2,
            d,
        ) by {
            let r0 = sp2;
            let r1 = (sp2 + 1) as u8;
            if co(w, r0) == d {
                assert(co(w, r0) == co(w, kind));
            }
            if co(w, r1) == d {
                assert(co(w, r1) == co(w, kind));
            }
        }
        assert forall|sp2: u8|
            (sp2 == 2 || sp2 == 4 || sp2 == 6) && sp2 != species_of(kind) implies !#[trigger] species_at(
            z,
            sp2,
            d,
        ) by {
            lemma_equiv_occupies(z, w, d, 0);
            assert(!species_at(w, sp2, d));
        }
        lemma_equiv_occupies(z, w, d, 1);
    }
}

/// What every parent that a parent list holds says of the squares of a
/// move of piece `q` from `s` (empty in `y`) to `d`, with promotion bit `ps`
/// before the move.
pub open spec fn moved_from(y: u64, z: u64, s: u64, d: u64, ps: u64) -> bool {
    &&& pieces_placed(z)
    &&& occupies(z, s, 0)
    &&& holds(z, s, 0, ps)
    &&& forall|sq: u64, t: u64|
        sq < 15 && sq != s && sq != d ==> #[trigger] occupies(z, sq, t) == occupies(y, sq, t)
    &&& !occupies(z, d, 0)
}

/// The capturing parents of non-lion `k` hold no repeats, and each says that
/// `k`'s species stood on `d` for the other player.
proof fn lemma_capturing_facts(y: u64, base: u64, q: u8, k: u8, s: u64, d: u64, ps: u64)
    requires
        pieces_placed(y),
        1 <= q <= 7,
        2 <= k <= 7,
        co(y, q) == d,
        side(y, q) == 0,
        d < 15,
        is_board_square(s),
        ps < 2,
        forall|r: u8| r <= 7 ==> #[trigger] co(y, r) != s,
        same_but(y, base, q),
        tri(base, q) == (s, al(y, q), ps),
        ps == 1 ==> (q == 2 || q == 3),
    ensures
        crate::parents::capturing_parents(y, base, k, d).no_duplicates(),
        crate::parents::capturing_parents(y, base, k, d).len() > 0 ==> crate::pieces::is_active_in(
            y,
            k,
        ) && crate::pieces::coords_of(y, k) == 15 && !drop_is_duplicate(y, k),
        forall|i: int|
            0 <= i < crate::parents::capturing_parents(y, base, k, d).len() ==> {
                let z = #[trigger] crate::parents::capturing_parents(y, base, k, d)[i];
                &&& moved_from(y, z, s, d, ps)
                &&& occupies(z, d, 1)
                &&& species_at(z, species_of(k), d)
                &&& forall|sp: u8|
                    (sp == 2 || sp == 4 || sp == 6) && sp != species_of(k) ==> !#[trigger] species_at(
                        z,
                        sp,
                        d,
                    )
            },
{
    let cp = crate::parents::capturing_parents(y, base, k, d);
    if crate::pieces::is_active_in(y, k) && crate::pieces::coords_of(y, k) == 15 && !drop_is_duplicate(
        y,
        k,
    ) {
        assert(k != q);
        lemma_tri_bounds(y, k);
        assert(tri(base, k) == tri(y, k));
        let cap1 = with_field(base, co_offset(k), 15, d);
        lemma_set_co(base, k, d);
        let cap = with_field(cap1, allegiance_offset_of(k), 1, 1);
        lemma_set_bit(cap1, k, allegiance_offset_of(k), 1);
        lemma_same_but_trans(base, cap1, cap, k);
        let first = if k == 2 || k == 3 {
            keep_parent(with_field(cap, promotion_offset_of(k), 1, 1))
        } else {
            Seq::empty()
        };
        assert(cp == first + keep_parent(cap));
        lemma_keep_parent_shape(cap);
        assert(pr(y, k) == 0);
        lemma_parent_squares(y, base, cap, q, k, s, d, ps, 0);
        if k == 2 || k == 3 {
            let cap3 = with_field(cap, promotion_offset_of(k), 1, 1);
            lemma_set_bit(cap, k, promotion_offset_of(k), 1);
            lemma_same_but_trans(base, cap, cap3, k);
            lemma_keep_parent_shape(cap3);
            lemma_parent_squares(y, base, cap3, q, k, s, d, ps, 1);
            assert forall|j: int| 0 <= j < keep_parent(cap).len() implies !holds(
                #[trigger] keep_parent(cap)[j],
                d,
                1,
                1,
            ) by {
                let z = keep_parent(cap)[j];
                if holds(z, d, 1, 1) {
                    lemma_holds_unique(z, d, 1, 1, 1, 0);
                }
            }
            lemma_no_dup_add(first, keep_parent(cap), |z: u64| holds(z, d, 1, 1));
        } else {
            assert(first.len() == 0);
            assert(cp =~= keep_parent(cap));
        }
    } else {
        assert(cp.len() == 0);
    }
}

/// The parents from square `s` hold no repeats, and each says that piece
/// `q` came from `s` to `d`.
#[verifier::spinoff_prover]
#[verifier::rlimit(50)]
proof fn lemma_square_parents_facts(y: u64, q: u8, demote: bool, s: u64, d: u64)
    requires
        pieces_placed(y),
        1 <= q <= 7,
        co(y, q) == d,
        side(y, q) == 0,
        d < 15,
        is_board_square(s),
        forall|r: u8| r <= 7 ==> #[trigger] co(y, r) != s,
    ensures
        crate::parents::parents_from_square(y, q, demote, s, d).no_duplicates(),
        forall|i: int|
            0 <= i < crate::parents::parents_from_square(y, q, demote, s, d).len() ==> moved_from(
                y,
                #[trigger] crate::parents::parents_from_square(y, q, demote, s, d)[i],
                s,
                d,
                if demote && (q == 2 || q == 3) {
                    0u64
                } else {
                    pr(y, q)
                },
            ),
{
    let ps = crate::parents::parents_from_square(y, q, demote, s, d);
    let pss = if demote && (q == 2 || q == 3) {
        0u64
    } else {
        pr(y, q)
    };
    let base1 = with_field(y, co_offset(q), 15, s);
    lemma_set_co(y, q, s);
    let base = crate::parents::demoted_if(crate::pieces::with_coords(y, q, s), q, demote);
    if demote && (q == 2 || q == 3) {
        lemma_set_bit(base1, q, promotion_offset_of(q), 0);
        lemma_same_but_trans(y, base1, base, q);
    }
    lemma_tri_bounds(y, q);
    assert(tri(base, q) == (s, al(y, q), pss));
    if co(y, 0) == 15 {
        let base2 = with_field(base, co_offset(0), 15, d);
        lemma_set_co(base, 0, d);
        assert(ps == keep_parent(base2));
        lemma_keep_parent_shape(base2);
        lemma_parent_squares(y, base, base2, q, 0, s, d, pss, 0);
    } else {
        let a0 = keep_parent(base);
        let a2 = crate::parents::capturing_parents(y, base, 2, d);
        let a3 = crate::parents::capturing_parents(y, base, 3, d);
        let a4 = crate::parents::capturing_parents(y, base, 4, d);
        let a5 = crate::parents::capturing_parents(y, base, 5, d);
        let a6 = crate::parents::capturing_parents(y, base, 6, d);
        let a7 = crate::parents::capturing_parents(y, base, 7, d);
        assert(ps == a0 + a2 + a3 + a4 + a5 + a6 + a7);
        lemma_keep_parent_shape(base);
        lemma_parent_squares(y, base, base, q, 8, s, d, pss, 0);
        lemma_capturing_facts(y, base, q, 2, s, d, pss);
        lemma_capturing_facts(y, base, q, 3, s, d, pss);
        lemma_capturing_facts(y, base, q, 4, s, d, pss);
        lemma_capturing_facts(y, base, q, 5, s, d, pss);
        lemma_capturing_facts(y, base, q, 6, s, d, pss);
        lemma_capturing_facts(y, base, q, 7, s, d, pss);
        assert(a3.len() > 0 ==> a2.len() == 0);
        assert(a5.len() > 0 ==> a4.len() == 0);
        assert(a7.len() > 0 ==> a6.len() == 0);
        lemma_no_dup_add(a0, a2, |z: u64| !occupies(z, d, 1));
        let p2 = a0 + a2;
        assert forall|i: int| 0 <= i < p2.len() implies moved_from(y, #[trigger] p2[i], s, d, pss)
            && (a3.len() > 0 ==> !(occupies(p2[i], d, 1) && species_at(p2[i], 2, d))) by {
            if i >= a0.len() {
                assert(p2[i] == a2[i - a0.len()]);
            } else {
                assert(p2[i] == a0[i]);
            }
        }
        if a3.len() > 0 {
            lemma_no_dup_add(p2, a3, |z: u64| !(occupies(z, d, 1) && species_at(z, 2, d)));
        } else {
            assert(p2 + a3 =~= p2);
        }
        let p3 = p2 + a3;
        assert forall|i: int| 0 <= i < p3.len() implies moved_from(y, #[trigger] p3[i], s, d, pss)
            && !(occupies(p3[i], d, 1) && species_at(p3[i], 4, d)) by {
            if i >= p2.len() {
                assert(p3[i] == a3[i - p2.len()]);
            } else {
                assert(p3[i] == p2[i]);
                if i >= a0.len() {
                    assert(p2[i] == a2[i - a0.len()]);
                } else {
                    assert(p2[i] == a0[i]);
                }
            }
        }
        lemma_no_dup_add(p3, a4, |z: u64| !(occupies(z, d, 1) && species_at(z, 4, d)));
        let p4 = p3 + a4;
        assert forall|i: int| 0 <= i < p4.len() implies moved_from(y, #[trigger] p4[i], s, d, pss)
            && (a5.len() > 0 ==> !(occupies(p4[i], d, 1) && species_at(p4[i], 4, d))) by {
            if i >= p3.len() {
                assert(p4[i] == a4[i - p3.len()]);
            } else {
                assert(p4[i] == p3[i]);
            }
        }
        if a5.len() > 0 {
            lemma_no_dup_add(p4, a5, |z: u64| !(occupies(z, d, 1) && species_at(z, 4, d)));
        } else {
            assert(p4 + a5 =~= p4);
        }
        let p5 = p4 + a5;
        assert forall|i: int| 0 <= i < p5.len() implies moved_from(y, #[trigger] p5[i], s, d, pss)
            && !(occupies(p5[i], d, 1) && species_at(p5[i], 6, d)) by {
            if i >= p4.len() {
                assert(p5[i] == a5[i - p4.len()]);
            } else {
                assert(p5[i] == p4[i]);
                if i >= p3.len() {
                    assert(p4[i] == a4[i - p3.len()]);
                } else {
                    assert(p4[i] == p3[i]);
                }
            }
        }
        lemma_no_dup_add(p5, a6, |z: u64| !(occupies(z, d, 1) && species_at(z, 6, d)));
        let p6 = p5 + a6;
        assert forall|i: int| 0 <= i < p6.len() implies moved_from(y, #[trigger] p6[i], s, d, pss)
            && (a7.len() > 0 ==> !(occupies(p6[i], d, 1) && species_at(p6[i], 6, d))) by {
            if i >= p5.len() {
                assert(p6[i] == a6[i - p5.len()]);
            } else {
                assert(p6[i] == p5[i]);
            }
        }
        if a7.len() > 0 {
            lemma_no_dup_add(p6, a7, |z: u64| !(occupies(z, d, 1) && species_at(z, 6, d)));
        } else {
            assert(p6 + a7 =~= p6);
        }
        let p7 = p6 + a7;
        assert forall|i: int| 0 <= i < p7.len() implies moved_from(y, #[trigger] p7[i], s, d, pss) by {
            if i >= p6.len() {
                assert(p7[i] == a7[i - p6.len()]);
            } else {
                assert(p7[i] == p6[i]);
            }
        }
    }
}

/// Whether parent `z` says that the moving piece came to `d` from one of
/// `squares` that is empty in `y`, with promotion bit `ps`.
pub open spec fn from_some_square(y: u64, z: u64, squares: Seq<u64>, d: u64, ps: u64) -> bool {
    exists|e: u64|
        #![trigger squares.contains(e)]
        squares.contains(e) && is_board_square(e) && (forall|r: u8| r <= 7 ==> #[trigger] co(y, r)
            != e) && moved_from(y, z, e, d, ps)
}

/// The parents through moves from `squares` hold no repeats, and each says
/// that piece `q` came from one of those squares, empty in `y`.
proof fn lemma_moving_parents_facts(y: u64, q: u8, demote: bool, squares: Seq<u64>)
    requires
        pieces_placed(y),
        1 <= q <= 7,
        co(y, q) < 15,
        side(y, q) == 0,
        increasing(squares),
        forall|i: int| 0 <= i < squares.len() ==> is_board_square(#[trigger] squares[i]),
    ensures
        crate::parents::moving_parents(y, q, demote, squares).no_duplicates(),
        forall|i: int|
            0 <= i < crate::parents::moving_parents(y, q, demote, squares).len()
                ==> from_some_square(
                y,
                #[trigger] crate::parents::moving_parents(y, q, demote, squares)[i],
                squares,
                co(y, q),
                if demote && (q == 2 || q == 3) {
                    0u64
                } else {
                    pr(y, q)
                },
            ),
    decreases squares.len(),
{
    let d = co(y, q);
    let pss = if demote && (q == 2 || q == 3) {
        0u64
    } else {
        pr(y, q)
    };
    let mp = crate::parents::moving_parents(y, q, demote, squares);
    if squares.len() == 0 {
        assert(mp =~= Seq::<u64>::empty());
    } else {
        let rest = squares.drop_last();
        let last = squares.last();
        assert(increasing(rest));
        lemma_moving_parents_facts(y, q, demote, rest);
        let mr = crate::parents::moving_parents(y, q, demote, rest);
        let here = if square_of(board_of(y), last) == 0 {
            crate::parents::parents_from_square(y, q, demote, last, d)
        } else {
            Seq::empty()
        };
        assert(mp == mr + here);
        assert(is_board_square(last));
        assert forall|i: int| 0 <= i < mr.len() implies from_some_square(
            y,
            #[trigger] mr[i],
            squares,
            d,
            pss,
        ) && (!occupies(mr[i], last, 0) || square_of(board_of(y), last) != 0) by {
            let z = mr[i];
            assert(from_some_square(y, z, rest, d, pss));
            let e = choose|e: u64|
                #![trigger rest.contains(e)]
                rest.contains(e) && is_board_square(e) && (forall|r: u8|
                    r <= 7 ==> #[trigger] co(y, r) != e) && moved_from(y, z, e, d, pss);
            let k = choose|k: int| 0 <= k < rest.len() && rest[k] == e;
            assert(squares[k] == e && k < squares.len() - 1);
            assert(squares.contains(e));
            if square_of(board_of(y), last) == 0 {
                lemma_empty_square_free(y, last);
                assert(e < last);
                assert(occupies(y, last, 0) == false) by {
                    if occupies(y, last, 0) {
                        let r = choose|r: u8| r <= 7 && #[trigger] co(y, r) == last && side(y, r) == 0;
                    }
                }
                assert(last != d);
                assert(occupies(z, last, 0) == occupies(y, last, 0));
            }
        }
        if square_of(board_of(y), last) == 0 {
            lemma_empty_square_free(y, last);
            lemma_square_parents_facts(y, q, demote, last, d);
            assert forall|j: int| 0 <= j < here.len() implies occupies(#[trigger] here[j], last, 0)
                && from_some_square(y, here[j], squares, d, pss) by {
                assert(moved_from(y, here[j], last, d, pss));
                assert(squares[squares.len() - 1] == last);
                assert(squares.contains(last));
            }
            lemma_no_dup_add(mr, here, |z: u64| !occupies(z, last, 0));
            assert forall|i: int| 0 <= i < mp.len() implies from_some_square(
                y,
                #[trigger] mp[i],
                squares,
                d,
                pss,
            ) by {
                if i < mr.len() {
                    assert(mp[i] == mr[i]);
                } else {
                    assert(mp[i] == here[i - mr.len()]);
                }
            }
        } else {
            assert(mp =~= mr);
            assert forall|i: int| 0 <= i < mp.len() implies from_some_square(
                y,
                #[trigger] mp[i],
                squares,
                d,
                pss,
            ) by {
                assert(mp[i] == mr[i]);
            }
        }
    }
}

/// Whether parent `z` leaves the square `d` of `y` without a piece of the
/// player who moved, and every other occupied square of `y` as it is.
pub open spec fn left_square(y: u64, z: u64, d: u64) -> bool {
    &&& !occupies(z, d, 0)
    &&& forall|sq: u64, t: u64|
        sq < 15 && sq != d && (occupies(y, sq, 0) || occupies(y, sq, 1)) ==> #[trigger] occupies(
            z,
            sq,
            t,
        ) == occupies(y, sq, t)
}

/// The parents through actor `q` hold no repeats, and each leaves the
/// square that `q` stands on.
#[verifier::spinoff_prover]
#[verifier::rlimit(50)]
proof fn lemma_actor_parents_facts(c: u64, q: u8)
    requires
        pieces_placed(c),
        1 <= q <= 7,
    ensures
        actor_parents(inverted(c), q).no_duplicates(),
        actor_parents(inverted(c), q).len() > 0 ==> side(inverted(c), q) == 0 && co(inverted(c), q)
            != 15,
        forall|i: int|
            0 <= i < actor_parents(inverted(c), q).len() ==> left_square(
                inverted(c),
                #[trigger] actor_parents(inverted(c), q)[i],
                co(inverted(c), q),
            ),
{
    let y = inverted(c);
    lemma_inverted_placed(c);
    let ap = actor_parents(y, q);
    let d = co(y, q);
    let promoted = crate::pieces::is_promoted_in(y, q);
    lemma_tri_bounds(y, q);
    if !(crate::pieces::is_active_in(y, q) && d != 15) {
        assert(ap.len() == 0);
    } else {
        assert(is_board_square(d));
        assert forall|r: u8| r <= 7 && r != q implies #[trigger] co(y, r) != d by {
            if co(y, r) == d {
                assert(co(y, r) == co(y, q));
            }
        }
        let dropping = if !promoted && q != 1 {
            keep_parent(crate::pieces::with_coords(y, q, 15))
        } else {
            Seq::empty()
        };
        let start = crate::movement::legal_squares_of(
            q,
            promoted,
            crate::movement::Unknown::Start,
            d,
        );
        let mp1 = crate::parents::moving_parents(y, q, false, start);
        let mp2 = if promoted && 12 <= d <= 14 {
            crate::parents::moving_parents(y, q, true, seq![(d - 4) as u64])
        } else {
            Seq::empty()
        };
        let moving = if (q == 2 || q == 3) && !promoted && 12 <= d <= 14 {
            Seq::empty()
        } else {
            mp1 + mp2
        };
        assert(ap == dropping + moving);
        let dirs = crate::movement::directions_of(q, promoted);
        let pred = |e: u64| crate::movement::connects_spec(dirs, e, d);
        lemma_board_squares_increasing();
        lemma_filter_increasing(crate::coords::board_squares(), pred);
        assert forall|i: int| 0 <= i < start.len() implies is_board_square(#[trigger] start[i]) by {
            assert(start.contains(start[i]));
            crate::movement::lemma_filter_contains_iff(crate::coords::board_squares(), pred, start[i]);
            lemma_board_squares_are_board_squares(start[i]);
        }
        lemma_moving_parents_facts(y, q, false, start);
        let one = seq![(d - 4) as u64];
        if promoted && 12 <= d <= 14 {
            assert(is_board_square(one[0]));
            lemma_moving_parents_facts(y, q, true, one);
        }
        let empty_free = |z: u64|
            forall|sq: u64|
                sq < 15 && !occupies(y, sq, 0) && !occupies(y, sq, 1) ==> !#[trigger] holds(
                    z,
                    sq,
                    0,
                    0,
                );
        let stays = |z: u64|
            forall|sq: u64|
                sq < 15 && #[trigger] occupies(z, sq, 0) ==> (occupies(y, sq, 0) || occupies(
                    y,
                    sq,
                    1,
                ));
        assert forall|i: int| 0 <= i < mp1.len() implies left_square(y, #[trigger] mp1[i], d) && !stays(
            mp1[i],
        ) && (mp2.len() > 0 ==> empty_free(mp1[i])) by {
            let z = mp1[i];
            assert(from_some_square(y, z, start, d, pr(y, q)));
            let e = choose|e: u64|
                #![trigger start.contains(e)]
                start.contains(e) && is_board_square(e) && (forall|r: u8|
                    r <= 7 ==> #[trigger] co(y, r) != e) && moved_from(y, z, e, d, pr(y, q));
            assert(!occupies(y, e, 0) && !occupies(y, e, 1)) by {
                if occupies(y, e, 0) {
                    let r = choose|r: u8| r <= 7 && #[trigger] co(y, r) == e && side(y, r) == 0;
                }
                if occupies(y, e, 1) {
                    let r = choose|r: u8| r <= 7 && #[trigger] co(y, r) == e && side(y, r) == 1;
                }
            }
            if mp2.len() > 0 {
                assert forall|sq: u64|
                    sq < 15 && !occupies(y, sq, 0) && !occupies(y, sq, 1) implies !#[trigger] holds(
                    z,
                    sq,
                    0,
                    0,
                ) by {
                    if holds(z, sq, 0, 0) {
                        if sq == e {
                            lemma_holds_unique(z, e, 0, 0, 0, 1);
                        } else {
                            let r = choose|r: u8|
                                r <= 7 && #[trigger] co(z, r) == sq && side(z, r) == 0 && pr(z, r)
                                    == 0;
                            assert(occupies(z, sq, 0));
                            if sq != d {
                                assert(occupies(z, sq, 0) == occupies(y, sq, 0));
                            }
                        }
                    }
                }
            }
        }
        assert forall|j: int| 0 <= j < mp2.len() implies left_square(y, #[trigger] mp2[j], d) && !stays(
            mp2[j],
        ) && !empty_free(mp2[j]) by {
            let z = mp2[j];
            assert(from_some_square(y, z, one, d, 0));
            let e = choose|e: u64|
                #![trigger one.contains(e)]
                one.contains(e) && is_board_square(e) && (forall|r: u8|
                    r <= 7 ==> #[trigger] co(y, r) != e) && moved_from(y, z, e, d, 0);
            assert(!occupies(y, e, 0) && !occupies(y, e, 1)) by {
                if occupies(y, e, 0) {
                    let r = choose|r: u8| r <= 7 && #[trigger] co(y, r) == e && side(y, r) == 0;
                }
                if occupies(y, e, 1) {
                    let r = choose|r: u8| r <= 7 && #[trigger] co(y, r) == e && side(y, r) == 1;
                }
            }
            assert(holds(z, e, 0, 0));
        }
        if mp2.len() > 0 {
            lemma_no_dup_add(mp1, mp2, empty_free);
        } else {
            assert(mp1 + mp2 =~= mp1);
        }
        assert forall|i: int| 0 <= i < moving.len() implies left_square(y, #[trigger] moving[i], d)
            && !stays(moving[i]) by {
            if i < mp1.len() {
                assert(moving[i] == mp1[i]);
            } else {
                assert(moving[i] == mp2[i - mp1.len()]);
            }
        }
        if !promoted && q != 1 {
            let w = with_field(y, co_offset(q), 15, 15);
            lemma_set_co(y, q, 15);
            lemma_keep_parent_shape(w);
            lemma_built_parts(w);
            assert forall|i: int| 0 <= i < dropping.len() implies left_square(
                y,
                #[trigger] dropping[i],
                d,
            ) && stays(dropping[i]) by {
                let z = dropping[i];
                assert(z == built(w));
                assert(!occupies(w, d, 0)) by {
                    if occupies(w, d, 0) {
                        let r = choose|r: u8| r <= 7 && #[trigger] co(w, r) == d && side(w, r) == 0;
                        if r != q {
                            assert(tri(w, r) == tri(y, r));
                        }
                    }
                }
                lemma_equiv_occupies(z, w, d, 0);
                assert forall|sq: u64, t: u64|
                    sq < 15 && sq != d && (occupies(y, sq, 0) || occupies(y, sq, 1)) implies #[trigger] occupies(
                    z,
                    sq,
                    t,
                ) == occupies(y, sq, t) by {
                    lemma_equiv_occupies(z, w, sq, t);
                    lemma_occupies_frame(y, w, q, sq, t);
                }
                assert forall|sq: u64| sq < 15 && #[trigger] occupies(z, sq, 0) implies (occupies(
                    y,
                    sq,
                    0,
                ) || occupies(y, sq, 1)) by {
                    lemma_equiv_occupies(z, w, sq, 0);
                    if sq != d {
                        lemma_occupies_frame(y, w, q, sq, 0);
                    }
                }
            }
            lemma_no_dup_add(dropping, moving, stays);
        } else {
            assert(dropping + moving =~= moving);
            if (q == 2 || q == 3) && !promoted && 12 <= d <= 14 {
                assert(moving.len() == 0);
            }
        }
        assert forall|i: int| 0 <= i < ap.len() implies left_square(y, #[trigger] ap[i], d) by {
            if i < dropping.len() {
                assert(ap[i] == dropping[i]);
            } else {
                assert(ap[i] == moving[i - dropping.len()]);
            }
        }
    }
}

/// The parents of a well-placed node are distinct.
pub proof fn lemma_visited_parents_are_unique(c: u64)
    requires
        pieces_placed(c),
    ensures
        parents_of(c).no_duplicates(),
{
    let y = inverted(c);
    lemma_inverted_placed(c);
    let s1 = actor_parents(y, 1);
    let s2 = actor_parents(y, 2);
    let s3 = actor_parents(y, 3);
    let s4 = actor_parents(y, 4);
    let s5 = actor_parents(y, 5);
    let s6 = actor_parents(y, 6);
    let s7 = actor_parents(y, 7);
    assert(parents_of(c) == s1 + s2 + s3 + s4 + s5 + s6 + s7);
    lemma_actor_parents_facts(c, 1);
    lemma_actor_parents_facts(c, 2);
    lemma_actor_parents_facts(c, 3);
    lemma_actor_parents_facts(c, 4);
    lemma_actor_parents_facts(c, 5);
    lemma_actor_parents_facts(c, 6);
    lemma_actor_parents_facts(c, 7);
    lemma_parents_prefix_step(y, s1, s2, 1, 2);
    lemma_parents_prefix_step(y, s1 + s2, s3, 2, 3);
    lemma_parents_prefix_step(y, s1 + s2 + s3, s4, 3, 4);
    lemma_parents_prefix_step(y, s1 + s2 + s3 + s4, s5, 4, 5);
    lemma_parents_prefix_step(y, s1 + s2 + s3 + s4 + s5, s6, 5, 6);
    lemma_parents_prefix_step(y, s1 + s2 + s3 + s4 + s5 + s6, s7, 6, 7);
}

/// Whether parent `z` leaves the square of one of the actors `1` to `upto`
/// of `y`, and keeps the other occupied squares.
pub open spec fn from_actor(y: u64, z: u64, upto: u8) -> bool {
    exists|q: u8|
        1 <= q <= upto && side(y, q) == 0 && co(y, q) != 15 && #[trigger] left_square(
            y,
            z,
            co(y, q),
        )
}

/// Adding the parents through the next actor keeps the parents distinct.
proof fn lemma_parents_prefix_step(y: u64, a: Seq<u64>, b: Seq<u64>, upto: u8, next: u8)
    requires
        pieces_placed(y),
        next == upto + 1,
        1 <= upto,
        next <= 7,
        a.no_duplicates(),
        b.no_duplicates(),
        upto == 1 ==> forall|i: int|
            0 <= i < a.len() ==> side(y, 1) == 0 && co(y, 1) != 15 && #[trigger] left_square(
                y,
                a[i],
                co(y, 1),
            ),
        upto > 1 ==> forall|i: int| 0 <= i < a.len() ==> #[trigger] from_actor(y, a[i], upto),
        b.len() > 0 ==> side(y, next) == 0 && co(y, next) != 15,
        forall|i: int| 0 <= i < b.len() ==> #[trigger] left_square(y, b[i], co(y, next)),
    ensures
        (a + b).no_duplicates(),
        forall|i: int| 0 <= i < (a + b).len() ==> #[trigger] from_actor(y, (a + b)[i], next),
{
    let dn = co(y, next);
    assert forall|i: int| 0 <= i < a.len() implies #[trigger] from_actor(y, a[i], upto) by {
        if upto == 1 {
            assert(left_square(y, a[i], co(y, 1)));
        }
    }
    if b.len() > 0 {
        assert forall|i: int| 0 <= i < a.len() implies occupies(#[trigger] a[i], dn, 0) by {
            assert(from_actor(y, a[i], upto));
            let q = choose|q: u8|
                1 <= q <= upto && side(y, q) == 0 && co(y, q) != 15 && #[trigger] left_square(
                    y,
                    a[i],
                    co(y, q),
                );
            assert(co(y, q) != dn) by {
                if co(y, q) == dn {
                    assert(co(y, q) == co(y, next));
                }
            }
            assert(occupies(y, dn, 0));
            assert(occupies(a[i], dn, 0) == occupies(y, dn, 0));
        }
        assert forall|j: int| 0 <= j < b.len() implies !occupies(#[trigger] b[j], dn, 0) by {
            assert(left_square(y, b[j], co(y, next)));
        }
        lemma_no_dup_add(a, b, |z: u64| occupies(z, dn, 0));
    } else {
        assert(a + b =~= a);
    }
    assert forall|i: int| 0 <= i < (a + b).len() implies #[trigger] from_actor(y, (a + b)[i], next) by {
        if i < a.len() {
            assert((a + b)[i] == a[i]);
            assert(from_actor(y, a[i], upto));
            let q = choose|q: u8|
                1 <= q <= upto && side(y, q) == 0 && co(y, q) != 15 && #[trigger] left_square(
                    y,
                    a[i],
                    co(y, q),
                );
            assert(left_square(y, (a + b)[i], co(y, q)));
        } else {
            assert((a + b)[i] == b[i - a.len()]);
            assert(left_square(y, (a + b)[i], co(y, next)));
        }
    }
}

/// Node `x` with the state stats `l`.
pub open spec fn set_low(x: u64, l: u64) -> u64 {
    (x & !0xffffu64) | l
}

/// Replacing the state stats keeps every higher bit.
proof fn lemma_set_low_bits(x: u64, l: u64, o: u64)
    by (bit_vector)
    requires
        l < 0x10000,
        16 <= o < 64,
    ensures
        ((x & !0xffffu64) | l) & 0xffff == l,
        ((x & !0xffffu64) | l) >> o == x >> o,
{
}

/// Replacing the state stats keeps every part of a node.
pub proof fn lemma_set_low_parts(x: u64, l: u64)
    requires
        l < 0x10000,
    ensures
        low(set_low(x, l)) == l,
        top(set_low(x, l)) == top(x),
        forall|o: u64, m: u64| 16 <= o < 64 ==> #[trigger] field(set_low(x, l), o, m) == field(x, o, m),
        forall|r: u8| r <= 7 ==> #[trigger] tri(set_low(x, l), r) == tri(x, r),
{
    lemma_set_low_bits(x, l, 56);
    assert forall|o: u64, m: u64| 16 <= o < 64 implies #[trigger] field(set_low(x, l), o, m) == field(
        x,
        o,
        m,
    ) by {
        lemma_set_low_bits(x, l, o);
    }
    assert forall|r: u8| r <= 7 implies #[trigger] tri(set_low(x, l), r) == tri(x, r) by {
        assert(r == 0 || r == 1 || r == 2 || r == 3 || r == 4 || r == 5 || r == 6 || r == 7);
        assert(field(set_low(x, l), co_offset(r), 15) == field(x, co_offset(r), 15));
        if is_nonlion_code(r) {
            assert(field(set_low(x, l), allegiance_offset_of(r), 1) == field(
                x,
                allegiance_offset_of(r),
                1,
            ));
        }
        assert(field(set_low(x, l), promotion_offset_of(r), 1) == field(
            x,
            promotion_offset_of(r),
            1,
        ));
    }
}

/// A node is determined by its parts; so replacing the state stats of a
/// node that agrees with another on every piece gives that node.
pub proof fn lemma_equal_with_low(a: u64, b: u64, l: u64)
    requires
        l < 0x10000,
        low(a) == l,
        top(a) == top(b),
        forall|r: u8| r <= 7 ==> #[trigger] tri(a, r) == tri(b, r),
    ensures
        a == set_low(b, l),
{
    lemma_set_low_parts(b, l);
    lemma_equal_by_tri(a, set_low(b, l));
}

/// Whether `off` is the position of a non-lion's allegiance bit or a
/// chick's promotion bit.
pub open spec fn is_piece_bit(off: u64) -> bool {
    off == 28 || off == 33 || off == 38 || off == 43 || off == 49 || off == 55 || off == 44 || off
        == 50
}

/// The non-lion whose allegiance or promotion bit lies at `off`.
pub open spec fn piece_of_bit(off: u64) -> u8 {
    if off == 55 || off == 50 {
        2
    } else if off == 49 || off == 44 {
        3
    } else if off == 43 {
        4
    } else if off == 38 {
        5
    } else if off == 33 {
        6
    } else {
        7
    }
}

/// Building, seeing from the other side, moving a piece and changing a
/// piece's bit all carry the state stats along.
pub proof fn lemma_low_commutes(x: u64, l: u64)
    requires
        l < 0x10000,
    ensures
        built(set_low(x, l)) == set_low(built(x), l),
        inverted(set_low(x, l)) == set_low(inverted(x), l),
        board_of(set_low(x, l)) == board_of(x),
        terminality_of(set_low(x, l)) == terminality_of(x),
        forall|q: u8, v: u64|
            q <= 7 && v < 16 ==> #[trigger] with_field(set_low(x, l), co_offset(q), 15, v) == set_low(
                with_field(x, co_offset(q), 15, v),
                l,
            ),
        forall|off: u64, v: u64|
            is_piece_bit(off) && v < 2 ==> #[trigger] with_field(set_low(x, l), off, 1, v)
                == set_low(with_field(x, off, 1, v), l),
{
    let x2 = set_low(x, l);
    lemma_set_low_parts(x, l);
    // built
    lemma_built_fields(x);
    lemma_built_fields(x2);
    lemma_outside_nonlions(built(x2), x2);
    lemma_val(x, 2);
    lemma_val(x, 3);
    lemma_val(x, 4);
    lemma_val(x, 5);
    lemma_val(x, 6);
    lemma_val(x, 7);
    lemma_val(x2, 2);
    lemma_val(x2, 3);
    lemma_val(x2, 4);
    lemma_val(x2, 5);
    lemma_val(x2, 6);
    lemma_val(x2, 7);
    assert forall|r: u8| r <= 7 implies #[trigger] tri(built(x2), r) == tri(built(x), r) by {
        lemma_built_parts(x);
        lemma_built_parts(x2);
        lemma_outside_nonlions(built(x), x);
        if 2 <= r {
            lemma_val_injective(built(x2), r, built(x), r);
        }
    }
    lemma_outside_nonlions(built(x), x);
    lemma_equal_with_low(built(x2), built(x), l);
    // inverted
    lemma_inverted_parts(x);
    lemma_inverted_parts(x2);
    assert forall|r: u8| r <= 7 implies #[trigger] tri(inverted(x2), r) == tri(inverted(x), r) by {
        assert(r == 0 || r == 1 || r == 2 || r == 3 || r == 4 || r == 5 || r == 6 || r == 7);
    }
    lemma_equal_with_low(inverted(x2), inverted(x), l);
    // moves
    assert forall|q: u8, v: u64|
        q <= 7 && v < 16 implies #[trigger] with_field(x2, co_offset(q), 15, v) == set_low(
            with_field(x, co_offset(q), 15, v),
            l,
        ) by {
        lemma_set_co(x, q, v);
        lemma_set_co(x2, q, v);
        assert forall|r: u8| r <= 7 implies #[trigger] tri(with_field(x2, co_offset(q), 15, v), r)
            == tri(with_field(x, co_offset(q), 15, v), r) by {}
        lemma_equal_with_low(with_field(x2, co_offset(q), 15, v), with_field(x, co_offset(q), 15, v), l);
    }
    assert forall|off: u64, v: u64| is_piece_bit(off) && v < 2 implies #[trigger] with_field(
        x2,
        off,
        1,
        v,
    ) == set_low(with_field(x, off, 1, v), l) by {
        let q = piece_of_bit(off);
        lemma_set_bit(x, q, off, v);
        lemma_set_bit(x2, q, off, v);
        assert forall|r: u8| r <= 7 implies #[trigger] tri(with_field(x2, off, 1, v), r) == tri(
            with_field(x, off, 1, v),
            r,
        ) by {}
        lemma_equal_with_low(with_field(x2, off, 1, v), with_field(x, off, 1, v), l);
    }
    lemma_lion_row(x);
    lemma_lion_row(x2);
}

/// Replacing the state stats by `l`, as a function.
pub open spec fn low_setter(l: u64) -> spec_fn(u64) -> u64 {
    |z: u64| set_low(z, l)
}

/// Filtering by predicates that agree on the sequence gives the same.
proof fn lemma_filter_agree(s: Seq<u64>, p1: spec_fn(u64) -> bool, p2: spec_fn(u64) -> bool)
    requires
        forall|x: u64| #[trigger] p1(x) == p2(x),
    ensures
        s.filter(p1) == s.filter(p2),
{
    assert(p1 =~= p2);
}

/// A node whose two lions stand on different squares is not zero.
proof fn lemma_nonzero_by_lions(x: u64)
    requires
        co(x, 0) != co(x, 1),
    ensures
        x != 0,
{
    lemma_field_bounds(0, 16);
    lemma_field_bounds(0, 20);
}

/// Capturing carries the state stats along and never gives zero.
proof fn lemma_captured_low(x: u64, l: u64, o: u64)
    requires
        l < 0x10000,
        o < 8,
    ensures
        captured(set_low(x, l), o) == set_low(captured(x, o), l),
        captured(x, o) != 0,
        captured(set_low(x, l), o) != 0,
{
    lemma_low_commutes(x, l);
    let off = crate::children::capture_offset_of(o);
    let q: u8 = if o == 1 {
        0
    } else if o == 2 {
        2
    } else if o == 3 {
        3
    } else if o == 4 {
        4
    } else if o == 5 {
        5
    } else if o == 6 {
        6
    } else {
        7
    };
    assert(off == co_offset(q));
    let in_hand = with_field(x, off, 15, 15);
    lemma_low_commutes(in_hand, l);
    lemma_set_co(x, q, 15);
    let handed = if o != 1 {
        with_field(in_hand, (off + 4) as u64, 1, 0)
    } else {
        in_hand
    };
    if o != 1 {
        assert(is_piece_bit((off + 4) as u64));
        lemma_set_bit(in_hand, q, (off + 4) as u64, 0);
    }
    lemma_low_commutes(handed, l);
    if o == 2 || o == 3 {
        assert(is_piece_bit((off - 1) as u64));
        lemma_set_bit(handed, q, (off - 1) as u64, 0);
        lemma_same_but_trans(in_hand, handed, with_field(handed, (off - 1) as u64, 1, 0), q);
    }
    let r = captured(x, o);
    assert(co(r, q) == 15) by {
        if o != 1 {
            lemma_same_but_trans(x, in_hand, handed, q);
        }
    }
    lemma_set_low_parts(r, l);
    lemma_field_bounds(0, co_offset(q));
    if r == 0 {
        assert(co(r, q) == 0);
    }
    if set_low(r, l) == 0 {
        assert(co(set_low(r, l), q) == 0);
    }
}

/// What `vacated` gives carries the state stats along, for a node whose
/// lions stand on different squares.
proof fn lemma_vacated_low(x: u64, l: u64, b: u64, d: u64)
    requires
        l < 0x10000,
        co(x, 0) != co(x, 1),
    ensures
        (vacated(set_low(x, l), b, d) == 0) == (vacated(x, b, d) == 0),
        vacated(x, b, d) != 0 ==> vacated(set_low(x, l), b, d) == set_low(vacated(x, b, d), l),
{
    let sq = field(b, (4 * d) as u64, 15);
    lemma_field_bounds(b, (4 * d) as u64);
    lemma_contents_bits(sq);
    lemma_set_low_parts(x, l);
    lemma_nonzero_by_lions(x);
    lemma_nonzero_by_lions(set_low(x, l));
    if sq != 0 && sq & 8 != 0 {
        lemma_captured_low(x, l, sq & 7);
    }
}

/// Mapping distributes over concatenation.
proof fn lemma_map_add(a: Seq<u64>, b: Seq<u64>, f: spec_fn(u64) -> u64)
    ensures
        (a + b).map_values(f) == a.map_values(f) + b.map_values(f),
{
    assert((a + b).map_values(f) =~= a.map_values(f) + b.map_values(f));
}

/// The children of an actor carry the state stats along.
proof fn lemma_actor_children_low(x: u64, l: u64, p: u8)
    requires
        l < 0x10000,
        co(x, 0) != co(x, 1),
        1 <= p <= 7,
    ensures
        crate::children::actor_children(set_low(x, l), p) == crate::children::actor_children(
            x,
            p,
        ).map_values(low_setter(l)),
{
    let x2 = set_low(x, l);
    let f = low_setter(l);
    lemma_set_low_parts(x, l);
    lemma_low_commutes(x, l);
    let b = board_of(x);
    assert(crate::pieces::is_passive_in(x2, p) == crate::pieces::is_passive_in(x, p));
    assert(crate::pieces::coords_of(x2, p) == crate::pieces::coords_of(x, p));
    assert(crate::pieces::is_promoted_in(x2, p) == crate::pieces::is_promoted_in(x, p));
    assert(drop_is_duplicate(x2, p) == drop_is_duplicate(x, p)) by {
        if p == 3 || p == 5 || p == 7 {
            let p0 = (p - 1) as u8;
            assert(field(x2, allegiance_offset_of(p0), 1) == field(x, allegiance_offset_of(p0), 1));
            assert(field(x2, coords_offset_of(p0), 15) == field(x, coords_offset_of(p0), 15));
        }
    }
    let a1 = crate::children::actor_children(x2, p);
    let a0 = crate::children::actor_children(x, p);
    if crate::pieces::is_passive_in(x, p) {
        assert(a1 =~= a0.map_values(f));
    } else if crate::pieces::coords_of(x, p) == 15 {
        if drop_is_duplicate(x, p) {
            assert(a1 =~= a0.map_values(f));
        } else {
            let es = crate::coords::empty_squares_of(b);
            assert forall|j: int| 0 <= j < es.len() implies drop_child(x2, p, #[trigger] es[j]) == set_low(
                drop_child(x, p, es[j]),
                l,
            ) by {
                let d = es[j];
                assert(es.contains(d));
                crate::movement::lemma_filter_contains_iff(
                    crate::coords::board_squares(),
                    |c: u64| square_of(b, c) == 0,
                    d,
                );
                lemma_board_squares_are_board_squares(d);
                let m = with_field(x, co_offset(p), 15, d);
                assert(with_field(x2, co_offset(p), 15, d) == set_low(m, l));
                lemma_low_commutes(m, l);
                lemma_low_commutes(inverted(m), l);
            }
            assert(a1 =~= a0.map_values(f));
        }
    } else {
        let legal = crate::movement::legal_squares_of(
            p,
            crate::pieces::is_promoted_in(x, p),
            crate::movement::Unknown::Dest,
            crate::pieces::coords_of(x, p),
        );
        let pred0 = |d: u64| vacated(x, b, d) != 0;
        let pred1 = |d: u64| vacated(x2, b, d) != 0;
        assert forall|d: u64| #[trigger] pred1(d) == pred0(d) by {
            lemma_vacated_low(x, l, b, d);
        }
        lemma_filter_agree(legal, pred1, pred0);
        let fl = legal.filter(pred0);
        assert forall|j: int| 0 <= j < fl.len() implies crate::children::move_child(
            vacated(x2, b, #[trigger] fl[j]),
            p,
            fl[j],
        ) == set_low(crate::children::move_child(vacated(x, b, fl[j]), p, fl[j]), l) by {
            let d = fl[j];
            assert(fl.contains(d));
            crate::movement::lemma_filter_contains_iff(legal, pred0, d);
            lemma_destination(p, crate::pieces::is_promoted_in(x, p), co(x, p), d);
            lemma_vacated_low(x, l, b, d);
            let v = vacated(x, b, d);
            lemma_low_commutes(v, l);
            let mv = with_field(v, co_offset(p), 15, d);
            lemma_low_commutes(mv, l);
            let m = crate::pieces::moved_and_promoted(v, p, d);
            if (p == 2 || p == 3) && 12 <= d <= 14 {
                assert(is_piece_bit(promotion_offset_of(p)));
            }
            assert(crate::pieces::moved_and_promoted(set_low(v, l), p, d) == set_low(m, l));
            lemma_low_commutes(m, l);
            lemma_low_commutes(inverted(m), l);
        }
        assert(a1 =~= a0.map_values(f));
    }
}

/// The children of a node whose lions stand on different squares carry its
/// state stats along: they do not depend on the state stats.
pub proof fn lemma_children_low(x: u64, l: u64)
    requires
        l < 0x10000,
        co(x, 0) != co(x, 1),
    ensures
        children_of(set_low(x, l)) == children_of(x).map_values(low_setter(l)),
{
    let f = low_setter(l);
    lemma_low_commutes(x, l);
    if is_terminal_node(x) {
        assert(children_of(set_low(x, l)) =~= children_of(x).map_values(f));
    } else {
        lemma_actor_children_low(x, l, 1);
        lemma_actor_children_low(x, l, 2);
        lemma_actor_children_low(x, l, 3);
        lemma_actor_children_low(x, l, 4);
        lemma_actor_children_low(x, l, 5);
        lemma_actor_children_low(x, l, 6);
        lemma_actor_children_low(x, l, 7);
        let s1 = crate::children::actor_children(x, 1);
        let s2 = crate::children::actor_children(x, 2);
        let s3 = crate::children::actor_children(x, 3);
        let s4 = crate::children::actor_children(x, 4);
        let s5 = crate::children::actor_children(x, 5);
        let s6 = crate::children::actor_children(x, 6);
        let s7 = crate::children::actor_children(x, 7);
        lemma_map_add(s1, s2, f);
        lemma_map_add(s1 + s2, s3, f);
        lemma_map_add(s1 + s2 + s3, s4, f);
        lemma_map_add(s1 + s2 + s3 + s4, s5, f);
        lemma_map_add(s1 + s2 + s3 + s4 + s5, s6, f);
        lemma_map_add(s1 + s2 + s3 + s4 + s5 + s6, s7, f);
    }
}

/// Keeping a possible parent carries the state stats along.
proof fn lemma_keep_parent_low(w: u64, l: u64)
    requires
        l < 0x10000,
    ensures
        keep_parent(set_low(w, l)) == keep_parent(w).map_values(low_setter(l)),
{
    lemma_low_commutes(w, l);
    assert(keep_parent(set_low(w, l)) =~= keep_parent(w).map_values(low_setter(l)));
}

/// The capturing parents carry the state stats along.
proof fn lemma_capturing_low(y: u64, base: u64, k: u8, d: u64, l: u64)
    requires
        l < 0x10000,
        2 <= k <= 7,
        d < 16,
    ensures
        crate::parents::capturing_parents(set_low(y, l), set_low(base, l), k, d)
            == crate::parents::capturing_parents(y, base, k, d).map_values(low_setter(l)),
{
    let f = low_setter(l);
    lemma_set_low_parts(y, l);
    let y2 = set_low(y, l);
    assert(crate::pieces::is_active_in(y2, k) == crate::pieces::is_active_in(y, k));
    assert(crate::pieces::coords_of(y2, k) == crate::pieces::coords_of(y, k));
    assert(drop_is_duplicate(y2, k) == drop_is_duplicate(y, k)) by {
        if k == 3 || k == 5 || k == 7 {
            let p0 = (k - 1) as u8;
            assert(field(y2, allegiance_offset_of(p0), 1) == field(y, allegiance_offset_of(p0), 1));
            assert(field(y2, coords_offset_of(p0), 15) == field(y, coords_offset_of(p0), 15));
        }
    }
    let c0 = crate::parents::capturing_parents(y, base, k, d);
    let c1 = crate::parents::capturing_parents(y2, set_low(base, l), k, d);
    if !(crate::pieces::is_active_in(y, k) && crate::pieces::coords_of(y, k) == 15)
        || drop_is_duplicate(y, k) {
        assert(c1 =~= c0.map_values(f));
    } else {
        lemma_low_commutes(base, l);
        let cap1 = with_field(base, co_offset(k), 15, d);
        assert(with_field(set_low(base, l), co_offset(k), 15, d) == set_low(cap1, l));
        lemma_low_commutes(cap1, l);
        assert(is_piece_bit(allegiance_offset_of(k)));
        let cap = with_field(cap1, allegiance_offset_of(k), 1, 1);
        assert(with_field(set_low(cap1, l), allegiance_offset_of(k), 1, 1) == set_low(cap, l));
        lemma_keep_parent_low(cap, l);
        let first = if k == 2 || k == 3 {
            keep_parent(with_field(cap, promotion_offset_of(k), 1, 1))
        } else {
            Seq::empty()
        };
        if k == 2 || k == 3 {
            lemma_low_commutes(cap, l);
            assert(is_piece_bit(promotion_offset_of(k)));
            let cap3 = with_field(cap, promotion_offset_of(k), 1, 1);
            assert(with_field(set_low(cap, l), promotion_offset_of(k), 1, 1) == set_low(cap3, l));
            lemma_keep_parent_low(cap3, l);
        } else {
            assert(first.map_values(f) =~= Seq::<u64>::empty());
        }
        assert(c0 == first + keep_parent(cap));
        lemma_map_add(first, keep_parent(cap), f);
    }
}

/// The parents from a square carry the state stats along.
proof fn lemma_square_parents_low(y: u64, q: u8, demote: bool, s: u64, d: u64, l: u64)
    requires
        l < 0x10000,
        1 <= q <= 7,
        s < 16,
        d < 16,
    ensures
        crate::parents::parents_from_square(set_low(y, l), q, demote, s, d)
            == crate::parents::parents_from_square(y, q, demote, s, d).map_values(low_setter(l)),
{
    let f = low_setter(l);
    let y2 = set_low(y, l);
    lemma_set_low_parts(y, l);
    lemma_low_commutes(y, l);
    let base1 = with_field(y, co_offset(q), 15, s);
    assert(with_field(y2, co_offset(q), 15, s) == set_low(base1, l));
    lemma_low_commutes(base1, l);
    let base = crate::parents::demoted_if(crate::pieces::with_coords(y, q, s), q, demote);
    if demote && (q == 2 || q == 3) {
        assert(is_piece_bit(promotion_offset_of(q)));
    }
    assert(crate::parents::demoted_if(crate::pieces::with_coords(y2, q, s), q, demote) == set_low(
        base,
        l,
    ));
    lemma_low_commutes(base, l);
    let ps = crate::parents::parents_from_square(y, q, demote, s, d);
    if field(y, 16, 15) == 15 {
        let base2 = with_field(base, co_offset(0), 15, d);
        assert(with_field(set_low(base, l), co_offset(0), 15, d) == set_low(base2, l));
        lemma_keep_parent_low(base2, l);
    } else {
        lemma_keep_parent_low(base, l);
        lemma_capturing_low(y, base, 2, d, l);
        lemma_capturing_low(y, base, 3, d, l);
        lemma_capturing_low(y, base, 4, d, l);
        lemma_capturing_low(y, base, 5, d, l);
        lemma_capturing_low(y, base, 6, d, l);
        lemma_capturing_low(y, base, 7, d, l);
        let a0 = keep_parent(base);
        let a2 = crate::parents::capturing_parents(y, base, 2, d);
        let a3 = crate::parents::capturing_parents(y, base, 3, d);
        let a4 = crate::parents::capturing_parents(y, base, 4, d);
        let a5 = crate::parents::capturing_parents(y, base, 5, d);
        let a6 = crate::parents::capturing_parents(y, base, 6, d);
        let a7 = crate::parents::capturing_parents(y, base, 7, d);
        lemma_map_add(a0, a2, f);
        lemma_map_add(a0 + a2, a3, f);
        lemma_map_add(a0 + a2 + a3, a4, f);
        lemma_map_add(a0 + a2 + a3 + a4, a5, f);
        lemma_map_add(a0 + a2 + a3 + a4 + a5, a6, f);
        lemma_map_add(a0 + a2 + a3 + a4 + a5 + a6, a7, f);
    }
}

/// The parents through moves carry the state stats along.
proof fn lemma_moving_parents_low(y: u64, q: u8, demote: bool, squares: Seq<u64>, l: u64)
    requires
        l < 0x10000,
        1 <= q <= 7,
        forall|i: int| 0 <= i < squares.len() ==> #[trigger] squares[i] < 16,
    ensures
        crate::parents::moving_parents(set_low(y, l), q, demote, squares)
            == crate::parents::moving_parents(y, q, demote, squares).map_values(low_setter(l)),
    decreases squares.len(),
{
    let f = low_setter(l);
    let y2 = set_low(y, l);
    lemma_set_low_parts(y, l);
    lemma_low_commutes(y, l);
    let d = crate::pieces::coords_of(y, q);
    lemma_field_bounds(y, coords_offset_of(q));
    assert(crate::pieces::coords_of(y2, q) == d);
    if squares.len() == 0 {
        assert(crate::parents::moving_parents(y2, q, demote, squares) =~= Seq::<u64>::empty());
        assert(crate::parents::moving_parents(y, q, demote, squares).map_values(f)
            =~= Seq::<u64>::empty());
    } else {
        let rest = squares.drop_last();
        let last = squares.last();
        lemma_moving_parents_low(y, q, demote, rest, l);
        lemma_square_parents_low(y, q, demote, last, d, l);
        let here = if square_of(board_of(y), last) == 0 {
            crate::parents::parents_from_square(y, q, demote, last, d)
        } else {
            Seq::empty()
        };
        assert(crate::parents::moving_parents(y, q, demote, squares)
            == crate::parents::moving_parents(y, q, demote, rest) + here);
        assert(here.map_values(f) == (if square_of(board_of(y2), last) == 0 {
            crate::parents::parents_from_square(y2, q, demote, last, d)
        } else {
            Seq::empty()
        }));
        lemma_map_add(crate::parents::moving_parents(y, q, demote, rest), here, f);
    }
}

/// The parents through an actor carry the state stats along.
proof fn lemma_actor_parents_low(y: u64, q: u8, l: u64)
    requires
        l < 0x10000,
        1 <= q <= 7,
    ensures
        actor_parents(set_low(y, l), q) == actor_parents(y, q).map_values(low_setter(l)),
{
    let f = low_setter(l);
    let y2 = set_low(y, l);
    lemma_set_low_parts(y, l);
    lemma_low_commutes(y, l);
    let d = crate::pieces::coords_of(y, q);
    lemma_field_bounds(y, coords_offset_of(q));
    let promoted = crate::pieces::is_promoted_in(y, q);
    assert(crate::pieces::coords_of(y2, q) == d);
    assert(crate::pieces::is_promoted_in(y2, q) == promoted);
    assert(crate::pieces::is_active_in(y2, q) == crate::pieces::is_active_in(y, q));
    if !(crate::pieces::is_active_in(y, q) && d != 15) {
        assert(actor_parents(y2, q) =~= actor_parents(y, q).map_values(f));
    } else {
        let w = with_field(y, co_offset(q), 15, 15);
        assert(with_field(y2, co_offset(q), 15, 15) == set_low(w, l));
        lemma_keep_parent_low(w, l);
        let dropping = if !promoted && q != 1 {
            keep_parent(w)
        } else {
            Seq::empty()
        };
        let start = crate::movement::legal_squares_of(
            q,
            promoted,
            crate::movement::Unknown::Start,
            d,
        );
        let dirs = crate::movement::directions_of(q, promoted);
        assert forall|i: int| 0 <= i < start.len() implies #[trigger] start[i] < 16 by {
            assert(start.contains(start[i]));
            crate::movement::lemma_filter_contains_iff(
                crate::coords::board_squares(),
                |e: u64| crate::movement::connects_spec(dirs, e, d),
                start[i],
            );
            lemma_board_squares_are_board_squares(start[i]);
        }
        lemma_moving_parents_low(y, q, false, start, l);
        let one = seq![(d - 4) as u64];
        let mp1 = crate::parents::moving_parents(y, q, false, start);
        let mp2 = if promoted && 12 <= d <= 14 {
            crate::parents::moving_parents(y, q, true, one)
        } else {
            Seq::empty()
        };
        if promoted && 12 <= d <= 14 {
            lemma_moving_parents_low(y, q, true, one, l);
        } else {
            assert(mp2.map_values(f) =~= Seq::<u64>::empty());
        }
        lemma_map_add(mp1, mp2, f);
        let moving = if (q == 2 || q == 3) && !promoted && 12 <= d <= 14 {
            Seq::empty()
        } else {
            mp1 + mp2
        };
        if (q == 2 || q == 3) && !promoted && 12 <= d <= 14 {
            assert(moving.map_values(f) =~= Seq::<u64>::empty());
        }
        if !(!promoted && q != 1) {
            assert(dropping.map_values(f) =~= Seq::<u64>::empty());
        }
        assert(actor_parents(y, q) == dropping + moving);
        lemma_map_add(dropping, moving, f);
    }
}

/// The parents of a node carry its state stats along: they do not depend
/// on the state stats.
pub proof fn lemma_parents_low(c: u64, l: u64)
    requires
        l < 0x10000,
    ensures
        parents_of(set_low(c, l)) == parents_of(c).map_values(low_setter(l)),
{
    let f = low_setter(l);
    lemma_low_commutes(c, l);
    let y = inverted(c);
    lemma_actor_parents_low(y, 1, l);
    lemma_actor_parents_low(y, 2, l);
    lemma_actor_parents_low(y, 3, l);
    lemma_actor_parents_low(y, 4, l);
    lemma_actor_parents_low(y, 5, l);
    lemma_actor_parents_low(y, 6, l);
    lemma_actor_parents_low(y, 7, l);
    let s1 = actor_parents(y, 1);
    let s2 = actor_parents(y, 2);
    let s3 = actor_parents(y, 3);
    let s4 = actor_parents(y, 4);
    let s5 = actor_parents(y, 5);
    let s6 = actor_parents(y, 6);
    let s7 = actor_parents(y, 7);
    lemma_map_add(s1, s2, f);
    lemma_map_add(s1 + s2, s3, f);
    lemma_map_add(s1 + s2 + s3, s4, f);
    lemma_map_add(s1 + s2 + s3 + s4, s5, f);
    lemma_map_add(s1 + s2 + s3 + s4 + s5, s6, f);
    lemma_map_add(s1 + s2 + s3 + s4 + s5 + s6, s7, f);
}

/// The state of a node ignores its state stats; a node below the top byte
/// is its state and its state stats; and a node is its state, state stats
/// and top byte.
proof fn lemma_state_bits(x: u64, l: u64, a: u64, b: u64)
    by (bit_vector)
    requires
        l < 0x10000,
    ensures
        ((x & !0xffffu64) | l) & 0x00ff_ffff_ffff_0000u64 == x & 0x00ff_ffff_ffff_0000u64,
        x < 0x100_0000_0000_0000 ==> x & 0x00ff_ffff_ffff_0000u64 == (x & !0xffffu64) | 0,
        (a & 0x00ff_ffff_ffff_0000u64 == b & 0x00ff_ffff_ffff_0000u64 && a & 0xffff == b & 0xffff
            && a >> 56u64 == b >> 56u64) ==> a == b,
        x & 0xffff < 0x10000,
        (x < 0x100_0000_0000_0000) == (x >> 56u64 == 0),
{
}

/// The state of a node with other state stats is the node's state.
pub proof fn lemma_state_of_set_low(x: u64, l: u64)
    requires
        l < 0x10000,
    ensures
        crate::node::state_of(set_low(x, l)) == crate::node::state_of(x),
{
    lemma_state_bits(x, l, 0, 0);
}

/// Nodes below the top byte with one state are equal once they have the
/// same state stats.
pub proof fn lemma_same_state(a: u64, b: u64, l: u64)
    requires
        l < 0x10000,
        a < 0x100_0000_0000_0000,
        b < 0x100_0000_0000_0000,
        crate::node::state_of(a) == crate::node::state_of(b),
    ensures
        set_low(a, l) == set_low(b, l),
{
    lemma_state_bits(a, 0, 0, 0);
    lemma_state_bits(b, 0, 0, 0);
    lemma_set_low_parts(a, 0);
    lemma_set_low_parts(b, 0);
    lemma_set_low_parts(a, l);
    lemma_set_low_parts(b, l);
    assert(set_low(a, 0) == set_low(b, 0));
    assert forall|r: u8| r <= 7 implies #[trigger] tri(set_low(a, l), r) == tri(b, r) by {
        assert(tri(set_low(a, 0), r) == tri(set_low(b, 0), r));
    }
    lemma_equal_with_low(set_low(a, l), b, l);
}

/// Nodes that agree on state, state stats and top byte are equal.
pub proof fn lemma_equal_by_state(a: u64, b: u64)
    requires
        crate::node::state_of(a) == crate::node::state_of(b),
        low(a) == low(b),
        top(a) == top(b),
    ensures
        a == b,
{
    lemma_state_bits(0, 0, a, b);
}

/// Capturing keeps the state stats and the top byte.
proof fn lemma_captured_ends(x: u64, o: u64)
    requires
        o < 8,
    ensures
        low(captured(x, o)) == low(x),
        top(captured(x, o)) == top(x),
{
    let off = crate::children::capture_offset_of(o);
    let in_hand = with_field(x, off, 15, 15);
    lemma_update_keeps_ends(x, off, 15, 15);
    if o != 1 {
        lemma_update_keeps_ends(in_hand, (off + 4) as u64, 1, 0);
        let handed = with_field(in_hand, (off + 4) as u64, 1, 0);
        if o == 2 || o == 3 {
            lemma_update_keeps_ends(handed, (off - 1) as u64, 1, 0);
        }
    }
}

/// Every child of a node has the node's state stats and top byte.
pub proof fn lemma_child_ends(z: u64, i: int)
    requires
        !is_terminal_node(z),
        0 <= i < children_of(z).len(),
    ensures
        low(children_of(z)[i]) == low(z),
        top(children_of(z)[i]) == top(z),
{
    let r = lemma_child_index(z, i);
    let p = r.0;
    let j = r.1;
    let b = board_of(z);
    let ac = crate::children::actor_children(z, p);
    lemma_field_bounds(z, coords_offset_of(p));
    let m: u64 = if crate::pieces::coords_of(z, p) == 15 {
        let es = crate::coords::empty_squares_of(b);
        let d = es[j];
        assert(es.contains(d));
        crate::movement::lemma_filter_contains_iff(
            crate::coords::board_squares(),
            |c: u64| square_of(b, c) == 0,
            d,
        );
        lemma_board_squares_are_board_squares(d);
        lemma_update_keeps_ends(z, coords_offset_of(p), 15, d);
        assert(ac[j] == drop_child(z, p, d));
        with_field(z, coords_offset_of(p), 15, d)
    } else {
        let legal = crate::movement::legal_squares_of(
            p,
            crate::pieces::is_promoted_in(z, p),
            crate::movement::Unknown::Dest,
            crate::pieces::coords_of(z, p),
        );
        let pred = |e: u64| vacated(z, b, e) != 0;
        let f = legal.filter(pred);
        let d = f[j];
        assert(f.contains(d));
        crate::movement::lemma_filter_contains_iff(legal, pred, d);
        lemma_destination(p, crate::pieces::is_promoted_in(z, p), co(z, p), d);
        let v = vacated(z, b, d);
        let sq = field(b, (4 * d) as u64, 15);
        lemma_field_bounds(b, (4 * d) as u64);
        lemma_contents_bits(sq);
        if sq != 0 && sq & 8 != 0 {
            lemma_captured_ends(z, sq & 7);
        }
        let mv = with_field(v, coords_offset_of(p), 15, d);
        lemma_update_keeps_ends(v, coords_offset_of(p), 15, d);
        if (p == 2 || p == 3) && 12 <= d <= 14 {
            lemma_update_keeps_ends(mv, promotion_offset_of(p), 1, 1);
        }
        assert(ac[j] == crate::children::move_child(v, p, d));
        crate::pieces::moved_and_promoted(v, p, d)
    };
    assert(children_of(z)[i] == built(inverted(m)));
    lemma_inverted_parts(m);
    lemma_built_parts(inverted(m));
}

/// The node with its own state stats is the node.
pub proof fn lemma_set_own_low(x: u64)
    ensures
        low(x) < 0x10000,
        set_low(x, low(x)) == x,
        (x < 0x100_0000_0000_0000) == (top(x) == 0),
{
    lemma_state_bits(x, 0, 0, 0);
    lemma_set_low_parts(x, low(x));
    lemma_equal_with_low(x, x, low(x));
}

/// The states of a node's children.
pub open spec fn child_states(x: u64) -> Seq<u64> {
    children_of(x).map_values(|c: u64| crate::node::state_of(c))
}

/// The states of a node's parents.
pub open spec fn parent_states(x: u64) -> Seq<u64> {
    parents_of(x).map_values(|c: u64| crate::node::state_of(c))
}

/// The states of the children of a node whose lions stand on different
/// squares do not depend on its state stats.
pub proof fn lemma_child_states_low(x: u64, l: u64)
    requires
        l < 0x10000,
        co(x, 0) != co(x, 1),
    ensures
        child_states(set_low(x, l)) == child_states(x),
{
    lemma_children_low(x, l);
    let a = child_states(set_low(x, l));
    let b = child_states(x);
    assert forall|j: int| 0 <= j < b.len() implies #[trigger] a[j] == b[j] by {
        lemma_state_of_set_low(children_of(x)[j], l);
    }
    assert(a =~= b);
}

/// The children of a valid node have distinct states.
pub proof fn lemma_child_states_unique(p: u64)
    requires
        is_valid(p),
        !is_terminal_node(p),
    ensures
        child_states(p).no_duplicates(),
{
    let cs = children_of(p);
    assert forall|i: int, j: int|
        0 <= i < cs.len() && 0 <= j < cs.len() && i != j implies child_states(p)[i] != child_states(
        p,
    )[j] by {
        let (a, b) = if i < j {
            (i, j)
        } else {
            (j, i)
        };
        lemma_visited_children_are_unique(p, a, b);
        lemma_child_ends(p, i);
        lemma_child_ends(p, j);
        if crate::node::state_of(cs[i]) == crate::node::state_of(cs[j]) {
            lemma_equal_by_state(cs[i], cs[j]);
        }
    }
}

/// Every parent of a built, well-placed node has the node's state stats
/// and top byte.
pub proof fn lemma_parent_ends(t: u64, k: int)
    requires
        built(t) == t,
        pieces_placed(t),
        0 <= k < parents_of(t).len(),
    ensures
        low(parents_of(t)[k]) == low(t),
        top(parents_of(t)[k]) == top(t),
        !is_terminal_node(parents_of(t)[k]),
{
    let z = parents_of(t)[k];
    lemma_set_own_low(t);
    let t0 = set_low(t, 0);
    lemma_set_low_parts(t, 0);
    lemma_set_low_parts(t0, low(t));
    lemma_equal_with_low(t, t0, low(t));
    lemma_parents_low(t0, low(t));
    assert(z == set_low(parents_of(t0)[k], low(t)));
    lemma_set_low_parts(parents_of(t0)[k], low(t));
    lemma_every_parent_lists_child(t, k);
    let i = choose|i: int| 0 <= i < children_of(z).len() && children_of(z)[i] == t;
    if is_terminal_node(z) {
        assert(children_of(z).len() == 0);
    }
    lemma_child_ends(z, i);
}

/// The parents of a built, well-placed node have distinct states.
pub proof fn lemma_parent_states_unique(t: u64)
    requires
        built(t) == t,
        pieces_placed(t),
    ensures
        parent_states(t).no_duplicates(),
{
    let ps = parents_of(t);
    lemma_visited_parents_are_unique(t);
    assert forall|i: int, j: int|
        0 <= i < ps.len() && 0 <= j < ps.len() && i != j implies parent_states(t)[i] != parent_states(
        t,
    )[j] by {
        lemma_parent_ends(t, i);
        lemma_parent_ends(t, j);
        if crate::node::state_of(ps[i]) == crate::node::state_of(ps[j]) {
            lemma_equal_by_state(ps[i], ps[j]);
        }
    }
}

/// For a valid, built, nonterminal node `p` and a built, well-placed node
/// `t`, both below the top byte: the state of `t` is a child state of `p`
/// exactly when the state of `p` is a parent state of `t`.
pub proof fn lemma_state_consistency(p: u64, t: u64)
    requires
        is_valid(p),
        built(p) == p,
        !is_terminal_node(p),
        built(t) == t,
        pieces_placed(t),
        p < 0x100_0000_0000_0000,
        t < 0x100_0000_0000_0000,
    ensures
        child_states(p).contains(crate::node::state_of(t)) <==> parent_states(t).contains(
            crate::node::state_of(p),
        ),
{
    lemma_set_own_low(p);
    lemma_set_own_low(t);
    if child_states(p).contains(crate::node::state_of(t)) {
        let j = choose|j: int|
            0 <= j < child_states(p).len() && child_states(p)[j] == crate::node::state_of(t);
        let t2 = children_of(p)[j];
        lemma_every_child_lists_parent(p, j);
        lemma_child_ends(p, j);
        lemma_set_own_low(t2);
        lemma_same_state(t2, t, low(t));
        assert(set_low(t2, low(t)) == t);
        lemma_parents_low(t2, low(t));
        let k = choose|k: int| 0 <= k < parents_of(t2).len() && parents_of(t2)[k] == p;
        assert(parents_of(t)[k] == set_low(p, low(t)));
        lemma_state_of_set_low(p, low(t));
        assert(parent_states(t)[k] == crate::node::state_of(p));
    }
    if parent_states(t).contains(crate::node::state_of(p)) {
        let k = choose|k: int|
            0 <= k < parent_states(t).len() && parent_states(t)[k] == crate::node::state_of(p);
        let p2 = parents_of(t)[k];
        lemma_every_parent_lists_child(t, k);
        lemma_parent_ends(t, k);
        lemma_set_own_low(p2);
        lemma_same_state(p2, p, low(p));
        assert(set_low(p2, low(p)) == p);
        lemma_set_low_parts(p2, low(p));
        assert(tri(p2, 0) == tri(p, 0) && tri(p2, 1) == tri(p, 1));
        assert(co(p, 0) != co(p, 1)) by {
            if co(p, 0) == co(p, 1) {
                assert(co(p, 0) == 15);
            }
        }
        lemma_children_low(p2, low(p));
        let i = choose|i: int| 0 <= i < children_of(p2).len() && children_of(p2)[i] == t;
        assert(children_of(p)[i] == set_low(t, low(p)));
        lemma_state_of_set_low(t, low(p));
        assert(child_states(p)[i] == crate::node::state_of(t));
    }
}

} // verus!
