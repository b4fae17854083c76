//! What a human reader is shown of states: the pieces in each hand, the
//! board as characters (also as the other player sees it), and indented
//! text.
use vstd::prelude::*;
use crate::bits::field;
use crate::coords::{Board, Coords, board_square, is_board_square, square_of};
use crate::node::{NodeBuilder, SearchNode};
use crate::outcome::Outcome;
use crate::pieces::{Actor, Nonlion, allegiance_offset_of, coords_of};
use crate::state::State;
use crate::state_stats::StateAndStats;

verus! {

/// A value to be shown to a human reader.
#[derive(Clone, Copy)]
pub struct Pretty<T>(pub T);

pub trait IntoPretty: Sized {
    fn pretty(self) -> (r: Pretty<Self>)
        ensures
            r.0 == self,
    {
        Pretty(self)
    }
}

impl IntoPretty for State {

}

impl IntoPretty for StateAndStats {

}

impl IntoPretty for NodeBuilder {

}

impl IntoPretty for SearchNode {

}

impl IntoPretty for Outcome {

}

impl IntoPretty for Vec<State> {

}

impl IntoPretty for Hands {

}

impl IntoPretty for BoardWithPromotionData {

}

/// The pieces in one player's hand.
#[derive(Clone, Copy, Debug, PartialEq, Eq, Structural)]
pub struct Hand {
    pub lion: u8,
    pub chick: u8,
    pub elephant: u8,
    pub giraffe: u8,
}

/// The pieces in the hands of the active and of the passive player.
#[derive(Clone, Copy, Debug, PartialEq, Eq, Structural)]
pub struct Hands {
    pub active: Hand,
    pub passive: Hand,
}

/// A board, together with which chicks are hens.
#[derive(Clone, Copy, Debug)]
pub struct BoardWithPromotionData {
    pub board: Board,
    pub is_chick0_promoted: bool,
    pub is_chick1_promoted: bool,
}

/// 1 if the non-lion with code `p` is in a hand, held by the passive player
/// or not as `passive` says; 0 otherwise.
pub open spec fn held(x: u64, p: u8, passive: bool) -> u8 {
    if coords_of(x, p) == 15 && (field(x, allegiance_offset_of(p), 1) == 1) == passive {
        1
    } else {
        0
    }
}

/// The hand of the passive player (`passive`) or of the active one, in node
/// `x`: a captured lion is in the hand of the other player.
pub open spec fn hand_of(x: u64, passive: bool) -> Hand {
    Hand {
        lion: if field(x, if passive {
            20u64
        } else {
            16u64
        }, 15) == 15 {
            1
        } else {
            0
        },
        chick: (held(x, 2, passive) + held(x, 3, passive)) as u8,
        elephant: (held(x, 4, passive) + held(x, 5, passive)) as u8,
        giraffe: (held(x, 6, passive) + held(x, 7, passive)) as u8,
    }
}

impl Hand {
    pub fn empty() -> (r: Self)
        ensures
            r == (Hand { lion: 0, chick: 0, elephant: 0, giraffe: 0 }),
    {
        Hand { lion: 0, chick: 0, elephant: 0, giraffe: 0 }
    }
}

impl Hands {
    /// The hands as the other player sees them.
    pub fn invert(self) -> (r: Self)
        ensures
            r == (Hands { active: self.passive, passive: self.active }),
    {
        Hands { active: self.passive, passive: self.active }
    }
}

/// Counts a non-lion in the hand it is held in.
fn count_nonlion(node: NodeBuilder, piece: Nonlion, active: u8, passive: u8) -> (r: (u8, u8))
    requires
        2 <= piece.0.0 <= 7,
        active < 8,
        passive < 8,
    ensures
        r.0 == active + held(node.0, piece.0.0, false),
        r.1 == passive + held(node.0, piece.0.0, true),
{
    proof {
        crate::bits::lemma_field_bounds(node.0, allegiance_offset_of(piece.0.0));
    }
    if piece.is_in_hand(node) {
        if piece.is_active(node) {
            (active + 1, passive)
        } else {
            (active, passive + 1)
        }
    } else {
        (active, passive)
    }
}

impl NodeBuilder {
    /// The pieces in each hand (see `hand_of`).
    pub fn hands(self) -> (r: Hands)
        ensures
            r == (Hands { active: hand_of(self.0, false), passive: hand_of(self.0, true) }),
    {
        let mut active = Hand::empty();
        let mut passive = Hand::empty();
        let (a, p) = count_nonlion(self, Nonlion::chick0(), 0, 0);
        let (a, p) = count_nonlion(self, Nonlion::chick1(), a, p);
        active.chick = a;
        passive.chick = p;
        let (a, p) = count_nonlion(self, Nonlion::elephant0(), 0, 0);
        let (a, p) = count_nonlion(self, Nonlion::elephant1(), a, p);
        active.elephant = a;
        passive.elephant = p;
        let (a, p) = count_nonlion(self, Nonlion::giraffe0(), 0, 0);
        let (a, p) = count_nonlion(self, Nonlion::giraffe1(), a, p);
        active.giraffe = a;
        passive.giraffe = p;
        if self.active_lion_coords().0 == 15 {
            // If the active lion is in somebody's hand,
            // it must be in the passive player's hand.
            passive.lion = 1;
        }
        if self.passive_lion_coords().0 == 15 {
            // If the passive lion is in somebody's hand,
            // it must be in the active player's hand.
            active.lion = 1;
        }
        Hands { active, passive }
    }
}

/// The character that shows square contents `sq`: lower case for the active
/// player, upper case for the passive one, `*` for an empty square and `!`
/// for contents that no square can have.
pub open spec fn square_char(sq: u64, chick0_promoted: bool, chick1_promoted: bool) -> char {
    if sq == 0 {
        '*'
    } else if sq == 1 {
        'l'
    } else if sq == 2 {
        if chick0_promoted {
            'h'
        } else {
            'c'
        }
    } else if sq == 3 {
        if chick1_promoted {
            'h'
        } else {
            'c'
        }
    } else if sq == 4 || sq == 5 {
        'e'
    } else if sq == 6 || sq == 7 {
        'g'
    } else if sq == 9 {
        'L'
    } else if sq == 10 {
        if chick0_promoted {
            'H'
        } else {
            'C'
        }
    } else if sq == 11 {
        if chick1_promoted {
            'H'
        } else {
            'C'
        }
    } else if sq == 12 || sq == 13 {
        'E'
    } else if sq == 14 || sq == 15 {
        'G'
    } else {
        '!'
    }
}

/// The square contents seen by the other player: the same piece, with the
/// other allegiance.
pub open spec fn inverted_square(sq: u64) -> u64 {
    if sq == 0 {
        0
    } else {
        sq ^ 8
    }
}

/// The position, among the twelve board squares taken row by row, of board
/// square `c`.
pub open spec fn board_index(c: u64) -> int {
    3 * (c / 4) + c % 4
}

/// Setting a 4-bit field that is zero with `|`.
proof fn lemma_or_nibble(x: u64, v: u64, off: u64, off2: u64)
    by (bit_vector)
    requires
        v < 16,
        off <= 60,
        off2 <= 60,
        off % 4 == 0,
        off2 % 4 == 0,
    ensures
        ((x | (v << off)) >> off2) & 15 == (if off == off2 {
            ((x >> off2) & 15) | v
        } else {
            (x >> off2) & 15
        }),
        (0u64 >> off2) & 15 == 0,
        v & 15 == v,
        (v ^ 8) < 16,
        0u64 | v == v,
{
}

/// Board squares and their positions among the twelve correspond.
proof fn lemma_board_index(k: int, c: u64)
    ensures
        0 <= k < 12 ==> board_index(board_square(k)) == k && is_board_square(board_square(k)),
        is_board_square(c) ==> 0 <= board_index(c) < 12 && board_square(board_index(c)) == c
            && is_board_square((14 - c) as u64),
{
}

impl Board {
    /// The board seen by the other player: each piece goes to the square
    /// opposite (row `3 - r`, column `2 - c`) and changes allegiance.
    pub fn invert_active_player(self) -> (r: Self)
        ensures
            forall|c: u64|
                c < 16 ==> #[trigger] square_of(r.0, c) == (if is_board_square(c) {
                    inverted_square(square_of(self.0, (14 - c) as u64))
                } else {
                    0
                }),
    {
        let mut out: u64 = 0;
        let mut k: u64 = 0;
        assert forall|c: u64| c < 16 implies #[trigger] square_of(out, c) == 0 by {
            crate::bits::lemma_field_bounds(0, (4 * c) as u64);
        }
        while k < 12
            invariant
                0 <= k <= 12,
                forall|c: u64|
                    c < 16 ==> #[trigger] square_of(out, c) == (if is_board_square(c) && board_index(
                        (14 - c) as u64,
                    ) < k {
                        inverted_square(square_of(self.0, (14 - c) as u64))
                    } else {
                        0
                    }),
            decreases 12 - k,
        {
            let coords: u64 = 4 * (k / 3) + k % 3;
            assert(coords == board_square(k as int));
            let offset: u64 = Coords(coords as u8).board_offset();
            let square: u64 = (self.0 >> offset) & 0b1111;
            let inverted: u64 = if square == 0 {
                square
            } else {
                square ^ 0b1_000
            };
            let inv_offset: u64 = Coords((14 - coords) as u8).board_offset();
            proof {
                crate::bits::lemma_field_bounds(self.0, offset);
                lemma_or_nibble(out, square, 0, 0);
                assert(inverted < 16) by {
                    lemma_or_nibble(out, square, 0, 0);
                }
                assert(inverted == inverted_square(square_of(self.0, coords)));
                assert forall|c: u64| c < 16 implies #[trigger] square_of(out | (inverted << inv_offset), c)
                    == (if is_board_square(c) && board_index((14 - c) as u64) < k + 1 {
                    inverted_square(square_of(self.0, (14 - c) as u64))
                } else {
                    0
                }) by {
                    let cc = (4 * c) as u64;
                    lemma_or_nibble(out, inverted, inv_offset, cc);
                    lemma_board_index(k as int, coords);
                    lemma_board_index(0, c);
                    assert(inv_offset == 4 * (14 - coords));
                    if c == 14 - coords {
                        assert(board_index((14 - c) as u64) == k);
                        assert(square_of(out, c) == 0);
                        assert(inv_offset == cc);
                        assert(square_of(out | (inverted << inv_offset), c) == inverted);
                    } else {
                        assert(inv_offset != cc);
                        assert(square_of(out | (inverted << inv_offset), c) == square_of(out, c));
                        if is_board_square(c) {
                            lemma_board_index(0, (14 - c) as u64);
                            assert(board_square(board_index((14 - c) as u64)) == 14 - c);
                            assert(board_index((14 - c) as u64) != k);
                        }
                    }
                }
            }
            out = out | (inverted << inv_offset);
            k = k + 1;
        }
        Board(out)
    }
}

impl BoardWithPromotionData {
    /// The board seen by the other player; the hens stay hens.
    pub fn invert_active_player(self) -> (r: Self)
        ensures
            r.is_chick0_promoted == self.is_chick0_promoted,
            r.is_chick1_promoted == self.is_chick1_promoted,
            forall|c: u64|
                c < 16 ==> #[trigger] square_of(r.board.0, c) == (if is_board_square(c) {
                    inverted_square(square_of(self.board.0, (14 - c) as u64))
                } else {
                    0
                }),
    {
        BoardWithPromotionData {
            board: self.board.invert_active_player(),
            is_chick0_promoted: self.is_chick0_promoted,
            is_chick1_promoted: self.is_chick1_promoted,
        }
    }
}

/// The rows of the board as characters, from row 0 up (see `square_char`).
pub open spec fn board_chars(data: BoardWithPromotionData) -> Seq<Seq<char>> {
    Seq::new(
        4,
        |row: int|
            Seq::new(
                3,
                |col: int|
                    square_char(
                        square_of(data.board.0, (4 * row + col) as u64),
                        data.is_chick0_promoted,
                        data.is_chick1_promoted,
                    ),
            ),
    )
}

impl Pretty<BoardWithPromotionData> {
    /// The character of the square at bit `offset` of the board (see
    /// `square_char`).
    pub fn char_at_offset(self, offset: u64) -> (r: char)
        requires
            offset < 64,
        ensures
            r == square_char(
                field(self.0.board.0, offset, 15),
                self.0.is_chick0_promoted,
                self.0.is_chick1_promoted,
            ),
    {
        let square: u64 = (self.0.board.0 >> offset) & 0b1111;
        match square {
            0b0_000 => '*',
            0b0_001 => 'l',
            0b0_010 => if self.0.is_chick0_promoted {
                'h'
            } else {
                'c'
            },
            0b0_011 => if self.0.is_chick1_promoted {
                'h'
            } else {
                'c'
            },
            0b0_100 => 'e',
            0b0_101 => 'e',
            0b0_110 => 'g',
            0b0_111 => 'g',
            0b1_001 => 'L',
            0b1_010 => if self.0.is_chick0_promoted {
                'H'
            } else {
                'C'
            },
            0b1_011 => if self.0.is_chick1_promoted {
                'H'
            } else {
                'C'
            },
            0b1_100 => 'E',
            0b1_101 => 'E',
            0b1_110 => 'G',
            0b1_111 => 'G',
            // Bad square
            _ => '!',
        }
    }

    /// The rows of the board as characters (see `board_chars`).
    pub fn into_array(self) -> (r: Vec<Vec<char>>)
        ensures
            r@.len() == 4,
            forall|row: int| 0 <= row < 4 ==> (#[trigger] r@[row])@ == board_chars(self.0)[row],
    {
        let mut array: Vec<Vec<char>> = Vec::new();
        let mut row: u64 = 0;
        while row < 4
            invariant
                0 <= row <= 4,
                array@.len() == row,
                forall|r: int| 0 <= r < row ==> (#[trigger] array@[r])@ == board_chars(self.0)[r],
            decreases 4 - row,
        {
            let mut row_array: Vec<char> = Vec::new();
            let mut col: u64 = 0;
            while col < 3
                invariant
                    0 <= col <= 3,
                    0 <= row < 4,
                    row_array@ == board_chars(self.0)[row as int].take(col as int),
                decreases 3 - col,
            {
                let coords: u64 = (row << 2u64) | col;
                assert(coords == 4 * row + col) by (bit_vector)
                    requires
                        row < 4,
                        col < 3,
                        coords == (row << 2u64) | col,
                ;
                let c = self.char_at_offset(Coords(coords as u8).board_offset());
                row_array.push(c);
                assert(row_array@ =~= board_chars(self.0)[row as int].take(col + 1));
                col = col + 1;
            }
            assert(row_array@ =~= board_chars(self.0)[row as int]);
            array.push(row_array);
            row = row + 1;
        }
        array
    }

    /// The same board as the other player sees it.
    pub fn invert(self) -> (r: Self)
        ensures
            r.0.is_chick0_promoted == self.0.is_chick0_promoted,
            r.0.is_chick1_promoted == self.0.is_chick1_promoted,
            forall|c: u64|
                c < 16 ==> #[trigger] square_of(r.0.board.0, c) == (if is_board_square(c) {
                    inverted_square(square_of(self.0.board.0, (14 - c) as u64))
                } else {
                    0
                }),
    {
        Pretty(self.0.invert_active_player())
    }
}

/// `n` copies of `c`.
pub open spec fn copies(c: char, n: u8) -> Seq<char> {
    Seq::new(n as nat, |i: int| c)
}

/// The characters of the pieces in the hands: the active player's lion,
/// chicks, elephants and giraffes in lower case, then the passive player's
/// in upper case.
pub open spec fn hand_chars(h: Hands) -> Seq<char> {
    copies('l', h.active.lion) + copies('c', h.active.chick) + copies('e', h.active.elephant)
        + copies('g', h.active.giraffe) + copies('L', h.passive.lion) + copies(
        'C',
        h.passive.chick,
    ) + copies('E', h.passive.elephant) + copies('G', h.passive.giraffe)
}

/// Appends `n` copies of `c`.
fn push_copies(out: &mut Vec<char>, c: char, n: u8)
    ensures
        final(out)@ == old(out)@ + copies(c, n),
{
    let mut i: u8 = 0;
    while i < n
        invariant
            0 <= i <= n,
            out@ == old(out)@ + copies(c, i),
        decreases n - i,
    {
        out.push(c);
        assert(out@ =~= old(out)@ + copies(c, (i + 1) as u8));
        i = i + 1;
    }
}

impl Pretty<Hands> {
    /// The pieces in the hands as six characters (see `hand_chars`), `.`
    /// filling the places left.
    pub fn into_array(self) -> (r: Vec<char>)
        requires
            hand_chars(self.0).len() <= 6,
        ensures
            r@ == hand_chars(self.0) + copies('.', (6 - hand_chars(self.0).len()) as u8),
    {
        let mut array: Vec<char> = Vec::new();
        push_copies(&mut array, 'l', self.0.active.lion);
        push_copies(&mut array, 'c', self.0.active.chick);
        push_copies(&mut array, 'e', self.0.active.elephant);
        push_copies(&mut array, 'g', self.0.active.giraffe);
        push_copies(&mut array, 'L', self.0.passive.lion);
        push_copies(&mut array, 'C', self.0.passive.chick);
        push_copies(&mut array, 'E', self.0.passive.elephant);
        push_copies(&mut array, 'G', self.0.passive.giraffe);
        assert(array@ == hand_chars(self.0));
        let filled: u8 = array.len() as u8;
        push_copies(&mut array, '.', 6 - filled);
        array
    }

    /// The hands as the other player sees them.
    pub fn invert(self) -> (r: Self)
        ensures
            r.0 == (Hands { active: self.0.passive, passive: self.0.active }),
    {
        Pretty(self.0.invert())
    }
}

/// `n` spaces.
pub open spec fn spaces(n: usize) -> Seq<char> {
    Seq::new(n as nat, |i: int| ' ')
}

/// Text `s` with `n` spaces at the start of each of its lines (a line
/// starts at the start of the text and after each line break, unless the
/// text ends there).
pub open spec fn indented_text(s: Seq<char>, n: usize) -> Seq<char>
    decreases s.len(),
{
    if s.len() == 0 {
        Seq::empty()
    } else {
        let starts_line = s.len() == 1 || s[s.len() - 2] == '\n';
        indented_text(s.drop_last(), n) + (if starts_line {
            spaces(n)
        } else {
            Seq::empty()
        }) + seq![s.last()]
    }
}

/// Text `s` with `spaces` spaces at the start of each line (see
/// `indented_text`).
pub fn indented(s: &Vec<char>, spaces: usize) -> (r: Vec<char>)
    ensures
        r@ == indented_text(s@, spaces),
{
    let mut out: Vec<char> = Vec::new();
    let mut i: usize = 0;
    while i < s.len()
        invariant
            0 <= i <= s@.len(),
            out@ == indented_text(s@.take(i as int), spaces),
        decreases s@.len() - i,
    {
        let ghost t = s@.take(i as int + 1);
        assert(t.drop_last() =~= s@.take(i as int));
        if i == 0 || s[i - 1] == '\n' {
            let mut j: usize = 0;
            let ghost base = out@;
            while j < spaces
                invariant
                    0 <= j <= spaces,
                    out@ == base + Seq::new(j as nat, |k: int| ' '),
                decreases spaces - j,
            {
                out.push(' ');
                assert(out@ =~= base + Seq::new((j + 1) as nat, |k: int| ' '));
                j = j + 1;
            }
        }
        out.push(s[i]);
        assert(out@ =~= indented_text(t, spaces));
        i = i + 1;
    }
    assert(s@.take(s@.len() as int) =~= s@);
    out
}

} // verus!
