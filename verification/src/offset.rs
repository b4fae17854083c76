//! Bit positions of the fields of a search node.
//!
//! A search node packs the state (40 bits) above the state stats (16 bits):
//! from the least significant bit, the best known outcome (9 bits), the
//! required child report count (7 bits), the passive lion (4 bits), the active
//! lion (4 bits), giraffe1, giraffe0, elephant1, elephant0 (5 bits each),
//! chick1 and chick0 (6 bits each).
use vstd::prelude::*;

verus! {

pub const BEST_KNOWN_OUTCOME: u64 = 0;
pub const REQUIRED_CHILD_REPORT_COUNT: u64 = 9;
pub const PASSIVE_LION: u64 = 16;
pub const ACTIVE_LION: u64 = 20;
pub const GIRAFFE1: u64 = 24;
pub const GIRAFFE0: u64 = 29;
pub const ELEPHANT1: u64 = 34;
pub const ELEPHANT0: u64 = 39;
pub const CHICK1: u64 = 44;
pub const CHICK0: u64 = 50;

pub const CHICK0_PROMOTION: u64 = 50;
pub const CHICK0_COLUMN: u64 = 51;
pub const CHICK0_ROW: u64 = 53;
pub const CHICK0_ALLEGIANCE: u64 = 55;

pub const CHICK1_PROMOTION: u64 = 44;
pub const CHICK1_COLUMN: u64 = 45;
pub const CHICK1_ROW: u64 = 47;
pub const CHICK1_ALLEGIANCE: u64 = 49;

pub const ELEPHANT0_COLUMN: u64 = 39;
pub const ELEPHANT0_ROW: u64 = 41;
pub const ELEPHANT0_ALLEGIANCE: u64 = 43;

pub const ELEPHANT1_COLUMN: u64 = 34;
pub const ELEPHANT1_ROW: u64 = 36;
pub const ELEPHANT1_ALLEGIANCE: u64 = 38;

pub const GIRAFFE0_COLUMN: u64 = 29;
pub const GIRAFFE0_ROW: u64 = 31;
pub const GIRAFFE0_ALLEGIANCE: u64 = 33;

pub const GIRAFFE1_COLUMN: u64 = 24;
pub const GIRAFFE1_ROW: u64 = 26;
pub const GIRAFFE1_ALLEGIANCE: u64 = 28;

pub const ACTIVE_LION_COLUMN: u64 = 20;
pub const ACTIVE_LION_ROW: u64 = 22;

pub const PASSIVE_LION_COLUMN: u64 = 16;

} // verus!
