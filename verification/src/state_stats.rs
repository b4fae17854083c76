//! States on their own, their state stats, and the two packed together.
//!
//! A state is the key of a search node (its bits 16 to 56, shifted down);
//! its children and parents are those of the search node with that state and
//! all stats zero.
use vstd::prelude::*;
use crate::children::children_of;
use crate::forward_pass::{child_keys, key_of};
use crate::node::{SearchNode, Terminality, terminality_of};
use crate::outcome::{Outcome, i9_encoding, i9_value};
use crate::parents::parents_of;
use crate::state::{Null, State, STATE_COUNT, is_state};
use crate::state_set::node_of_key;

verus! {

/// The state stats of a state: the required child report count in bits 9
/// to 16 and the best known outcome, in 9-bit two's complement, in bits 0 to
/// 9.
#[derive(Clone, Copy, Debug, PartialEq, Eq, Structural)]
pub struct StateStats(pub u16);

/// A state (bits 16 to 56) together with its state stats (bits 0 to 16).
#[derive(Clone, Copy, Debug, PartialEq, Eq, Structural)]
pub struct StateAndStats(pub u64);

/// The required child report count of stats `s`.
pub open spec fn stats_report_count(s: u16) -> u16 {
    (s >> 9u16) & 127
}

/// The best known outcome of stats `s`.
pub open spec fn stats_outcome(s: u16) -> int {
    i9_value((s & 511) as u64)
}

/// The stats with required child report count `count` and best known
/// outcome `outcome`.
pub open spec fn stats_of(count: u16, outcome: int) -> u16 {
    ((count << 9u16) | (i9_encoding(outcome) as u16)) as u16
}

/// What the stats operations do to the two fields.
proof fn lemma_stats_bits(s: u16, enc: u16, count: u16)
    by (bit_vector)
    requires
        enc < 512,
        count < 128,
    ensures
        (((s & !511u16) | enc) >> 9u16) & 127 == (s >> 9u16) & 127,
        ((s & !511u16) | enc) & 511 == enc,
        ((s & !(127u16 << 9u16)) >> 9u16) & 127 == 0,
        (s & !(127u16 << 9u16)) & 511 == s & 511,
        (s >> 9u16) & 127 > 0 ==> (((s - 512) as u16) >> 9u16) & 127 == ((s >> 9u16) & 127) - 1,
        (s >> 9u16) & 127 > 0 ==> ((s - 512) as u16) & 511 == s & 511,
        (((count << 9u16) | enc) >> 9u16) & 127 == count,
        ((count << 9u16) | enc) & 511 == enc,
        s & 511 < 512,
        (s >> 9u16) & 127 < 128,
        (0xffffu16 >> 9u16) & 127 == 127,
        (s >> 9u16) & 127 > 0 ==> s >= 512,
{
}

/// Both fields of stats built from two fields.
pub proof fn lemma_stats_of(count: u16, outcome: int)
    requires
        count < 128,
        -256 <= outcome <= 255,
    ensures
        stats_report_count(stats_of(count, outcome)) == count,
        stats_outcome(stats_of(count, outcome)) == outcome,
{
    crate::outcome::lemma_i9_round_trip(outcome, 0);
    lemma_stats_bits(0, i9_encoding(outcome) as u16, count);
}

/// The fields of any stats are in range.
pub proof fn lemma_stats_bounds(s: u16)
    ensures
        stats_report_count(s) < 128,
        -256 <= stats_outcome(s) <= 255,
{
    lemma_stats_bits(s, 0, 0);
}

/// The stats that a state starts with: a nonterminal state has to hear from
/// each of its children and is taken to be lost in the meantime; a terminal
/// state is won or lost already.
pub open spec fn guessed_stats(k: u64) -> u16 {
    let x = node_of_key(State(k)).0;
    match terminality_of(x) {
        Terminality::Nonterminal => stats_of(children_of(x).len() as u16, -201),
        Terminality::Win => stats_of(0, 201),
        Terminality::Loss => stats_of(0, -201),
    }
}

/// The keys of the parents of the state with key `k`.
pub open spec fn parent_keys(k: u64) -> Seq<u64> {
    parents_of(node_of_key(State(k)).0).map_values(|p: u64| key_of(p))
}

/// The terminality of the state with key `k`.
pub open spec fn state_terminality(k: u64) -> Terminality {
    terminality_of(node_of_key(State(k)).0)
}

impl Null for StateStats {
    /// Stats that no state can have: 127 required child reports, more than
    /// the number of moves in any position.
    open spec fn spec_null() -> Self {
        StateStats(0xffff)
    }

    fn null() -> (r: Self) {
        StateStats(0xffff)
    }

    fn is_null(&self) -> (r: bool) {
        self.0 == 0xffff
    }
}

impl Null for StateAndStats {
    open spec fn spec_null() -> Self {
        StateAndStats(0)
    }

    fn null() -> (r: Self) {
        StateAndStats(0)
    }

    fn is_null(&self) -> (r: bool) {
        self.0 == 0
    }
}

impl StateStats {
    pub fn new(outcome: Outcome, required_child_report_count: u8) -> (r: Self)
        requires
            -256 <= outcome.0 <= 255,
            required_child_report_count < 128,
        ensures
            r.0 == stats_of(required_child_report_count as u16, outcome.0 as int),
    {
        let encoded: u64 = crate::outcome::i16_to_i9(outcome.0);
        StateStats(((required_child_report_count as u16) << 9u16) | (encoded as u16))
    }

    pub fn required_child_report_count(self) -> (r: u8)
        ensures
            r == stats_report_count(self.0),
    {
        proof {
            lemma_stats_bits(self.0, 0, 0);
        }
        ((self.0 >> 9u16) & 127) as u8
    }

    pub fn best_known_outcome(self) -> (r: Outcome)
        ensures
            r.0 == stats_outcome(self.0),
    {
        proof {
            lemma_stats_bits(self.0, 0, 0);
        }
        Outcome(crate::outcome::i9_to_i16((self.0 & 511) as u64))
    }

    /// The best outcome, once every child that has to report has reported.
    pub fn best_outcome(self) -> (r: Option<Outcome>)
        ensures
            r == (if stats_report_count(self.0) > 0 {
                None
            } else {
                Some(Outcome(stats_outcome(self.0) as i16))
            }),
    {
        if self.required_child_report_count() > 0 {
            return None;
        }
        Some(self.best_known_outcome())
    }

    /// Takes the outcome of a child into account (see
    /// `crate::node::child_challenger`): the best known outcome becomes the
    /// better of itself and the child's outcome seen from this state.
    pub fn record_child_outcome(self, child_outcome: Outcome) -> (r: Self)
        requires
            -256 <= child_outcome.0 <= 255,
        ensures
            stats_report_count(r.0) == stats_report_count(self.0),
            ({
                let challenger = crate::node::child_challenger(child_outcome.0 as int);
                stats_outcome(r.0) == if challenger > stats_outcome(self.0) {
                    challenger
                } else {
                    stats_outcome(self.0)
                }
            }),
    {
        let incumbent = self.best_known_outcome();
        let challenger = child_outcome.invert().delay_by_one();
        if challenger.0 > incumbent.0 {
            let encoded: u64 = crate::outcome::i16_to_i9(challenger.0);
            proof {
                crate::outcome::lemma_i9_round_trip(challenger.0 as int, 0);
                lemma_stats_bits(self.0, encoded as u16, 0);
            }
            StateStats((self.0 & !511u16) | (encoded as u16))
        } else {
            self
        }
    }

    /// No more children have to report.
    pub fn set_required_child_report_count_to_zero(self) -> (r: Self)
        ensures
            stats_report_count(r.0) == 0,
            stats_outcome(r.0) == stats_outcome(self.0),
    {
        proof {
            lemma_stats_bits(self.0, 0, 0);
        }
        StateStats(self.0 & !(127u16 << 9u16))
    }

    /// One fewer child has to report.
    pub fn decrement_required_child_report_count(self) -> (r: Self)
        requires
            stats_report_count(self.0) > 0,
        ensures
            stats_report_count(r.0) == stats_report_count(self.0) - 1,
            stats_outcome(r.0) == stats_outcome(self.0),
    {
        proof {
            lemma_stats_bits(self.0, 0, 0);
        }
        StateStats(self.0 - 512)
    }
}

/// How a state and its stats are packed together.
proof fn lemma_packing(k: u64, s: u16)
    by (bit_vector)
    requires
        k < 0x100_0000_0000,
    ensures
        ((k << 16u64) | (s as u64)) >> 16u64 == k,
        (((k << 16u64) | (s as u64)) & 0xffff) as u16 == s,
        k << 16u64 < 0x100_0000_0000_0000,
        (k << 16u64) | (s as u64) < 0x100_0000_0000_0000,
{
}

impl StateAndStats {
    pub fn state(self) -> (r: State)
        ensures
            r.0 == self.0 >> 16u64,
    {
        State(self.0 >> 16u64)
    }

    pub fn stats(self) -> (r: StateStats)
        ensures
            r.0 == (self.0 & 0xffff) as u16,
    {
        StateStats((self.0 & 0xffff) as u16)
    }
}

impl State {
    /// The initial position (see `crate::node::INITIAL_NODE`).
    pub fn initial() -> (r: Self)
        ensures
            r.0 == crate::node::INITIAL_NODE >> 16,
            is_state(r),
            crate::stat_retrograde::valid_key(r.0),
    {
        let x: u64 = SearchNode::initial().0;
        assert(x >> 16u64 < 0x100_0000_0000 && (x >> 16u64) * 0x10000 == x) by (bit_vector)
            requires
                x == 0x2b_2078_5c1d_0000u64,
        ;
        assert(crate::stat_retrograde::key_node(x >> 16u64) == x);
        State(x >> 16u64)
    }

    /// The search node with this state and all stats zero.
    fn node(self) -> (r: SearchNode)
        requires
            is_state(self),
        ensures
            r == node_of_key(self),
    {
        let x: u64 = self.0 << 16u64;
        proof {
            crate::state_set::lemma_key_bits(self.0, x);
        }
        SearchNode(x)
    }

    /// The node builder with this state and all stats zero.
    pub fn into_builder(self) -> (r: crate::node::NodeBuilder)
        requires
            is_state(self),
        ensures
            r.0 == node_of_key(self).0,
    {
        crate::node::NodeBuilder(self.node().0)
    }

    /// This state packed together with `stats`.
    pub fn with_stats(self, stats: StateStats) -> (r: StateAndStats)
        requires
            is_state(self),
        ensures
            r.0 == (self.0 << 16u64) | (stats.0 as u64),
            r.0 >> 16u64 == self.0,
            (r.0 & 0xffff) as u16 == stats.0,
            r.0 < crate::state_set::SEARCH_NODE_LIMIT,
    {
        proof {
            lemma_packing(self.0, stats.0);
        }
        StateAndStats((self.0 << 16u64) | (stats.0 as u64))
    }

    pub fn terminality(self) -> (r: Terminality)
        requires
            is_state(self),
        ensures
            r == state_terminality(self.0),
    {
        self.node().terminality()
    }

    /// Appends the children of this state (see `child_keys`).
    pub fn visit_children(self, out: &mut Vec<State>)
        requires
            is_state(self),
        ensures
            final(out)@ == old(out)@ + as_states(child_keys(self.0)),
    {
        let children = self.node().children();
        let ghost base = out@;
        let ghost cks = child_keys(self.0);
        assert(cks.len() == children@.len()) by {
            reveal(child_keys);
        }
        let mut i: usize = 0;
        while i < children.len()
            invariant
                0 <= i <= children@.len(),
                children@ == crate::children::as_search_nodes(children_of(node_of_key(self).0)),
                cks == child_keys(self.0),
                cks.len() == children@.len(),
                out@ == base + as_states(cks.take(i as int)),
            decreases children@.len() - i,
        {
            let c: u64 = children[i].0;
            proof {
                assert(cks[i as int] == key_of(c)) by {
                    reveal(child_keys);
                }
                assert(cks.take(i as int + 1) =~= cks.take(i as int).push(cks[i as int]));
            }
            out.push(State((c & crate::node::STATE_MASK) >> 16u64));
            assert(out@ =~= base + as_states(cks.take(i as int + 1)));
            i = i + 1;
        }
        assert(cks.take(cks.len() as int) =~= cks);
    }

    /// The children of this state (see `child_keys`).
    pub fn children(self) -> (r: Vec<State>)
        requires
            is_state(self),
        ensures
            r@ == as_states(child_keys(self.0)),
    {
        let mut out: Vec<State> = Vec::new();
        self.visit_children(&mut out);
        assert(out@ =~= as_states(child_keys(self.0)));
        out
    }

    /// Appends the parents of this state (see `parent_keys`).
    pub fn visit_parents(self, out: &mut Vec<State>)
        requires
            is_state(self),
        ensures
            final(out)@ == old(out)@ + as_states(parent_keys(self.0)),
    {
        let parents = self.node().parents();
        let ghost base = out@;
        let ghost pks = parent_keys(self.0);
        let mut i: usize = 0;
        while i < parents.len()
            invariant
                0 <= i <= parents@.len(),
                parents@ == crate::children::as_search_nodes(parents_of(node_of_key(self).0)),
                pks == parent_keys(self.0),
                pks.len() == parents@.len(),
                out@ == base + as_states(pks.take(i as int)),
            decreases parents@.len() - i,
        {
            let p: u64 = parents[i].0;
            proof {
                assert(pks[i as int] == key_of(p));
                assert(pks.take(i as int + 1) =~= pks.take(i as int).push(pks[i as int]));
            }
            out.push(State((p & crate::node::STATE_MASK) >> 16u64));
            assert(out@ =~= base + as_states(pks.take(i as int + 1)));
            i = i + 1;
        }
        assert(pks.take(pks.len() as int) =~= pks);
    }

    /// The stats that this state starts with (see `guessed_stats`).
    pub fn guess_stats(self) -> (r: StateStats)
        requires
            is_state(self),
        ensures
            r.0 == guessed_stats(self.0),
    {
        let node = self.node();
        match node.terminality() {
            Terminality::Nonterminal => {
                let count = node.total_child_count();
                StateStats::new(Outcome(-201), count)
            },
            Terminality::Win => StateStats::new(Outcome(201), 0),
            Terminality::Loss => StateStats::new(Outcome(-201), 0),
        }
    }
}

/// The keys as states.
pub open spec fn as_states(s: Seq<u64>) -> Seq<State> {
    s.map_values(|k: u64| State(k))
}

/// The key of the state of any node is a state.
pub proof fn lemma_key_is_state(x: u64)
    ensures
        key_of(x) < STATE_COUNT,
{
    assert((x & 0x00ff_ffff_ffff_0000u64) >> 16u64 < 0x100_0000_0000) by (bit_vector);
}

/// The children and parents of a state are states.
pub proof fn lemma_neighbours_are_states(k: u64)
    ensures
        forall|i: int| 0 <= i < child_keys(k).len() ==> #[trigger] child_keys(k)[i] < STATE_COUNT,
        forall|i: int| 0 <= i < parent_keys(k).len() ==> #[trigger] parent_keys(k)[i] < STATE_COUNT,
{
    reveal(child_keys);
    assert forall|i: int| 0 <= i < child_keys(k).len() implies #[trigger] child_keys(k)[i]
        < STATE_COUNT by {
        lemma_key_is_state(children_of(node_of_key(State(k)).0)[i]);
    }
    assert forall|i: int| 0 <= i < parent_keys(k).len() implies #[trigger] parent_keys(k)[i]
        < STATE_COUNT by {
        lemma_key_is_state(parents_of(node_of_key(State(k)).0)[i]);
    }
}

} // verus!
