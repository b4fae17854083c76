//! Outcomes, players, and the 9-bit two's complement encoding of outcomes.
use vstd::prelude::*;

verus! {

/// An outcome from the active player's point of view.
///
///  - `0` represents a draw.
///
///  - A positive number `n` represents a win for the active player
///    in `201 - n` plies.
///
///  - A negative number `-n` represents a win for the passive player
///    in `201 + n` plies.
#[derive(Clone, Copy, Debug, PartialEq, Eq, PartialOrd, Ord)]
pub struct Outcome(pub i16);

#[derive(Clone, Copy, Debug, PartialEq, Eq)]
pub enum Player {
    Sente,
    Gote,
}

/// The value of the 9-bit two's complement number `v`.
pub open spec fn i9_value(v: u64) -> int {
    if v >= 256 {
        v - 512
    } else {
        v as int
    }
}

/// The 9-bit two's complement encoding of `v`.
pub open spec fn i9_encoding(v: int) -> u64 {
    if v < 0 {
        (v + 512) as u64
    } else {
        v as u64
    }
}

/// Decoding an encoding gives the number back, and encoding a decoded word
/// gives the word back.
pub proof fn lemma_i9_round_trip(v: int, w: u64)
    requires
        -256 <= v <= 255,
        w < 512,
    ensures
        i9_value(i9_encoding(v)) == v,
        i9_encoding(v) < 512,
        i9_encoding(i9_value(w)) == w,
        -256 <= i9_value(w) <= 255,
{
}

/// Decoding from a zero-padded 9-bit two's complement number.
pub trait FromZeroPaddedI9: Sized {
    fn from_zero_padded_i9(value: u64) -> Self
        requires
            value < 512,
    ;
}

/// Encoding as a zero-padded 9-bit two's complement number.
pub trait IntoZeroPaddedI9Unchecked: Sized {
    /// Whether `self` fits into a 9-bit two's complement signed integer.
    spec fn fits_in_i9(&self) -> bool;

    /// `self` must fit into a 9-bit two's complement signed integer.
    fn into_zero_padded_i9_unchecked(self) -> u64
        requires
            self.fits_in_i9(),
    ;
}

impl FromZeroPaddedI9 for i16 {
    fn from_zero_padded_i9(value: u64) -> (r: i16)
        ensures
            r == i9_value(value),
    {
        proof {
            crate::bits::lemma_i9_bits(value);
        }
        if (value & (1u64 << 8u64)) != 0 {
            let c: i16 = -256;
            let v8: i16 = (value & 0b1111_1111) as i16;
            return c + v8;
        }
        value as i16
    }
}

impl IntoZeroPaddedI9Unchecked for i16 {
    open spec fn fits_in_i9(&self) -> bool {
        -256 <= *self <= 255
    }

    fn into_zero_padded_i9_unchecked(self) -> (r: u64)
        ensures
            r == i9_encoding(self as int),
            r < 512,
    {
        if self < 0 {
            let base: i16 = 1i16 << 9i16;
            proof {
                crate::bits::lemma_i9_bits(0);
            }
            return (base + self) as u64;
        }
        self as u64
    }
}

/// Decodes a zero-padded 9-bit two's complement number.
pub fn i9_to_i16(value: u64) -> (r: i16)
    requires
        value < 512,
    ensures
        r == i9_value(value),
{
    i16::from_zero_padded_i9(value)
}

/// Encodes a number as a zero-padded 9-bit two's complement number.
pub fn i16_to_i9(value: i16) -> (r: u64)
    requires
        -256 <= value <= 255,
    ensures
        r == i9_encoding(value as int),
        r < 512,
{
    value.into_zero_padded_i9_unchecked()
}

impl Outcome {
    /// The same outcome from the other player's point of view.
    pub fn invert(self) -> (r: Self)
        requires
            self.0 > i16::MIN,
        ensures
            r.0 == -self.0,
    {
        Outcome(-self.0)
    }

    /// The outcome one ply later: a win or a loss one ply further away; a
    /// draw stays a draw.
    pub fn delay_by_one(self) -> (r: Self)
        requires
            self.0 > i16::MIN,
        ensures
            r.0 == (if self.0 > 0 {
                self.0 - 1
            } else if self.0 < 0 {
                self.0 + 1
            } else {
                0
            }),
    {
        let signum: i16 = if self.0 > 0 {
            1
        } else if self.0 < 0 {
            -1
        } else {
            0
        };
        Outcome(self.0 - signum)
    }

    /// A win for the active player in `plies` plies.
    pub fn win_in(plies: u8) -> (r: Self)
        requires
            plies <= 200,
        ensures
            r.0 == 201 - plies,
    {
        Outcome(201 - plies as i16)
    }

    /// A win for the passive player in `plies` plies.
    pub fn loss_in(plies: u8) -> (r: Self)
        requires
            plies <= 200,
        ensures
            r.0 == -201 + plies,
    {
        Outcome(-201 + plies as i16)
    }

    pub fn draw() -> (r: Self)
        ensures
            r.0 == 0,
    {
        Outcome(0)
    }
}

impl Player {
    /// The other player.
    pub fn opponent(self) -> (r: Self)
        ensures
            r == opponent_of(self),
            r != self,
    {
        match self {
            Player::Sente => Player::Gote,
            Player::Gote => Player::Sente,
        }
    }
}

/// The other player.
pub open spec fn opponent_of(p: Player) -> Player {
    match p {
        Player::Sente => Player::Gote,
        Player::Gote => Player::Sente,
    }
}

impl core::ops::Not for Player {
    type Output = Self;

    fn not(self) -> (r: Self) {
        self.opponent()
    }
}

impl vstd::std_specs::ops::NotSpecImpl for Player {
    open spec fn obeys_not_spec() -> bool {
        true
    }

    open spec fn not_req(self) -> bool {
        true
    }

    open spec fn not_spec(self) -> Player {
        opponent_of(self)
    }
}

/// Counters of what the retrograde analysis has done.
#[derive(Debug, Clone, Copy)]
pub struct Progress {
    pub already_solved_parent_visits: usize,
    pub unsolved_parent_visits: usize,
    pub unreachable_parent_visits: usize,
    pub winning_parent_conclusions: usize,
    pub uncertain_parent_conclusions: usize,
    pub losing_parent_conclusions: usize,
    pub queue_pushes: usize,
}

impl Progress {
    pub open spec fn is_zero(self) -> bool {
        &&& self.already_solved_parent_visits == 0
        &&& self.unsolved_parent_visits == 0
        &&& self.unreachable_parent_visits == 0
        &&& self.winning_parent_conclusions == 0
        &&& self.uncertain_parent_conclusions == 0
        &&& self.losing_parent_conclusions == 0
        &&& self.queue_pushes == 0
    }
}

impl Default for Progress {
    fn default() -> (r: Self)
        ensures
            r.is_zero(),
    {
        Progress {
            already_solved_parent_visits: 0,
            unsolved_parent_visits: 0,
            unreachable_parent_visits: 0,
            winning_parent_conclusions: 0,
            uncertain_parent_conclusions: 0,
            losing_parent_conclusions: 0,
            queue_pushes: 0,
        }
    }
}

} // verus!
