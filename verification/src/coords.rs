//! Board coordinates, short vectors of coordinates, and boards.
use vstd::prelude::*;

verus! {

/// Square coordinates `4 * row + column`; `0b1111` stands for the hand.
#[derive(Clone, Copy, Debug, PartialEq, Eq)]
pub struct Coords(pub u8);

/// Whether `c` is one of the twelve squares of the board.
pub open spec fn is_board_square(c: u64) -> bool {
    c < 15 && c % 4 != 3
}

impl Coords {
    pub fn hand() -> (r: Self)
        ensures
            r.0 == 15,
    {
        Coords(0b1111)
    }

    /// Bit position of this square in a board.
    pub fn board_offset(self) -> (r: u64)
        requires
            self.0 < 16,
        ensures
            r == 4 * self.0,
    {
        (self.0 as u64) * 4
    }

    pub fn is_in_last_row(self) -> (r: bool)
        requires
            self.0 < 16,
        ensures
            r == (12 <= self.0 <= 14),
    {
        let table: u16 = 0b0111_0000_0000_0000;
        let c: u16 = self.0 as u16;
        proof {
            crate::bits::lemma_code_facts(0, c);
        }
        (table >> c) & 1 != 0
    }
}

} // verus!

verus! {

use crate::bits::field;

/// This is a C-string-inspired vector of up to 13 board coordinates.
/// The first (i.e., least significant) 4 bits hold the length.
/// The next 4 bits hold the first coordinate.
/// The next 4 bits hold the second coordinate, and so on.
#[derive(Clone, Copy, Debug)]
pub struct CoordVec(pub u64);

/// The largest number of coordinates a `CoordVec` holds.
pub const MAX_COORD_VEC_ELEMENTS: u64 = 13;

/// The coordinates held by `v`.
pub open spec fn coord_vec_view(v: u64) -> Seq<u64> {
    Seq::new((v & 15) as nat, |i: int| field(v, (4 + 4 * i) as u64, 15))
}

/// `v` holds at most 13 coordinates and nothing above them.
pub open spec fn coord_vec_wf(v: u64) -> bool {
    &&& v & 15 <= 13
    &&& v >> ((4 + 4 * (v & 15)) as u64) == 0
}

impl View for CoordVec {
    type V = Seq<u64>;

    open spec fn view(&self) -> Seq<u64> {
        coord_vec_view(self.0)
    }
}

/// What pushing onto a coordinate vector does to its bits.
proof fn lemma_push_bits(v: u64, c: u64, len: u64, i: u64, m: u64, n: u64)
    by (bit_vector)
    requires
        len == v & 15,
        len < 13,
        v >> (4 + 4 * len) == 0,
        c < 16,
    ensures
        m == v | (c << (len * 4 + 4)) ==> m < u64::MAX,
        m == v | (c << (len * 4 + 4)) && n == m + 1 ==> n & 15 == len + 1 && (n >> (len * 4 + 4))
            & 15 == c && n >> (4 + 4 * (len + 1)) == 0,
        m == v | (c << (len * 4 + 4)) && n == m + 1 && i < len ==> (n >> (4 + 4 * i)) & 15 == (v
            >> (4 + 4 * i)) & 15,
{
}

/// What taking the first element off a coordinate vector does to its bits.
proof fn lemma_pop_bits(v: u64, len: u64, i: u64, n: u64)
    by (bit_vector)
    requires
        len == v & 15,
        len <= 13,
        len > 0,
        v >> (4 + 4 * len) == 0,
        n == ((v >> 4u64) & !15u64) | ((len - 1) as u64),
    ensures
        (v >> 4u64) & 15 < 16,
        n & 15 == len - 1,
        n >> ((4 + 4 * (len - 1)) as u64) == 0,
        i + 1 < len ==> (n >> (4 + 4 * i)) & 15 == (v >> (4 + 4 * (i + 1))) & 15,
{
}

impl CoordVec {
    pub open spec fn wf(self) -> bool {
        coord_vec_wf(self.0)
    }

    pub fn empty() -> (r: Self)
        ensures
            r.wf(),
            r@ == Seq::<u64>::empty(),
    {
        proof {
            crate::bits::lemma_field_bounds(0, 4);
        }
        let r = CoordVec(0);
        assert(r@ =~= Seq::<u64>::empty());
        r
    }

    pub fn len(self) -> (r: u64)
        ensures
            r == self@.len(),
    {
        self.0 & 0b1111
    }

    pub fn is_empty(self) -> (r: bool)
        ensures
            r == (self@.len() == 0),
    {
        self.0 & 0b1111 == 0
    }

    /// If the vector is already full, then this function
    /// behaves as the identity function.
    pub fn push(self, coords: Coords) -> (r: Self)
        requires
            self.wf(),
            coords.0 < 16,
        ensures
            r.wf(),
            self@.len() < 13 ==> r@ == self@.push(coords.0 as u64),
            self@.len() >= 13 ==> r == self,
    {
        let v: u64 = self.0;
        let len: u64 = v & 0b1111;
        if len >= MAX_COORD_VEC_ELEMENTS {
            return self;
        }
        let c: u64 = coords.0 as u64;
        let m: u64 = v | (c << (len * 4 + 4));
        proof {
            lemma_push_bits(v, c, len, 0, m, 0);
        }
        let n: u64 = m + 1;
        proof {
            lemma_push_bits(v, c, len, 0, m, n);
        }
        assert forall|i: u64| i < len implies #[trigger] ((n >> (4 + 4 * i)) & 15) == (v >> (4 + 4
            * i)) & 15 by {
            lemma_push_bits(v, c, len, i, m, n);
        }
        let r = CoordVec(n);
        assert(r@ =~= self@.push(c)) by {
            assert forall|i: int| 0 <= i < len implies r@[i] == self@[i] by {
                let iu = i as u64;
                assert(((n >> (4 + 4 * iu)) & 15) == (v >> (4 + 4 * iu)) & 15);
                assert((4 + 4 * i) as u64 == 4 + 4 * iu);
            }
            assert((len * 4 + 4) == (4 + 4 * len));
        }
        r
    }

    pub fn singleton(coords: Coords) -> (r: Self)
        requires
            coords.0 < 16,
        ensures
            r.wf(),
            r@ == seq![coords.0 as u64],
    {
        let r = Self::empty().push(coords);
        assert(r@ =~= seq![coords.0 as u64]);
        r
    }

    /// Removes and returns the first coordinates, if any.
    pub fn pop_front(&mut self) -> (r: Option<Coords>)
        requires
            old(self).wf(),
        ensures
            final(self).wf(),
            old(self)@.len() == 0 ==> r.is_none() && final(self)@ == old(self)@,
            old(self)@.len() > 0 ==> r == Some(Coords(old(self)@[0] as u8)) && final(self)@
                == old(self)@.drop_first(),
            r is Some ==> r.unwrap().0 < 16,
            old(self)@.len() > 0 ==> r.unwrap().0 as u64 == old(self)@[0],
    {
        let v: u64 = self.0;
        let len: u64 = v & 0b1111;
        if len == 0 {
            return None;
        }
        let shifted: u64 = v >> 4u64;
        let out: u64 = shifted & 0b1111;
        let n: u64 = (shifted & !0b1111u64) | (len - 1);
        proof {
            lemma_pop_bits(v, len, 0, n);
        }
        assert forall|i: u64| i + 1 < len implies #[trigger] ((n >> (4 + 4 * i)) & 15) == (v >> (4
            + 4 * (i + 1))) & 15 by {
            lemma_pop_bits(v, len, i, n);
        }
        self.0 = n;
        assert(self@ =~= old(self)@.drop_first()) by {
            assert forall|i: int| 0 <= i < len - 1 implies self@[i] == old(self)@[i + 1] by {
                let iu = i as u64;
                assert(((n >> (4 + 4 * iu)) & 15) == (v >> (4 + 4 * (iu + 1))) & 15);
                assert((4 + 4 * i) as u64 == 4 + 4 * iu);
                assert((4 + 4 * (i + 1)) as u64 == 4 + 4 * (iu + 1));
            }
        }
        Some(Coords(out as u8))
    }
}

} // verus!

verus! {

/// A board is 12 squares. Each square is represented by 4 bits, at bit
/// `4 * coords`: an allegiance bit (`1` for the passive player) above the
/// 3-bit piece code (`0` for an empty square). The squares of column 3 hold
/// "don't care" bits.
#[derive(Clone, Copy, Debug)]
pub struct Board(pub u64);

/// The `i`-th of the twelve board squares, row by row.
pub open spec fn board_square(i: int) -> u64 {
    (4 * (i / 3) + i % 3) as u64
}

/// The twelve board squares in ascending order.
pub open spec fn board_squares() -> Seq<u64> {
    Seq::new(12, |i: int| board_square(i))
}

/// The contents of square `c` of board `b`.
pub open spec fn square_of(b: u64, c: u64) -> u64 {
    field(b, (4 * c) as u64, 15)
}

/// The board squares of `b` that are empty, in ascending order.
pub open spec fn empty_squares_of(b: u64) -> Seq<u64> {
    board_squares().filter(|c: u64| square_of(b, c) == 0)
}

impl Board {
    pub fn is_square_empty(self, square: Coords) -> (r: bool)
        requires
            square.0 < 16,
        ensures
            r == (square_of(self.0, square.0 as u64) == 0),
    {
        let b: u64 = self.0;
        let off: u64 = square.board_offset();
        proof {
            crate::bits::lemma_mask_tests(b, off);
        }
        self.0 & (0b1111u64 << off) == 0
    }

    /// The empty board squares, in ascending order.
    pub fn empty_squares(self) -> (r: CoordVec)
        ensures
            r.wf(),
            r@ == empty_squares_of(self.0),
    {
        let mut out = CoordVec::empty();
        let mut i: u64 = 0;
        while i < 12
            invariant
                0 <= i <= 12,
                out.wf(),
                out@ == board_squares().take(i as int).filter(|c: u64| square_of(self.0, c) == 0),
                out@.len() <= i,
            decreases 12 - i,
        {
            let square = Coords((4 * (i / 3) + i % 3) as u8);
            assert(board_squares().take(i as int + 1).drop_last() =~= board_squares().take(
                i as int,
            ));
            reveal(Seq::filter);
            if self.is_square_empty(square) {
                out = out.push(square);
            }
            assert(board_squares().take(i as int + 1).last() == square.0);
            i = i + 1;
        }
        assert(board_squares().take(12) =~= board_squares());
        out
    }
}

} // verus!
