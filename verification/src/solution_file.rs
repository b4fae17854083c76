//! The solution as bytes: the file of best children, and the simple
//! database of packets of best children.
use vstd::prelude::*;
use crate::bytes::{le_bytes, le_word, lemma_le_round_trip, push_u64, read_u64};
use crate::state::{Null, State, STATE_COUNT};
use crate::state_map::StateMap;
use crate::state_stats::StateAndStats;

verus! {

/// The bytes of the entries: for each entry, the word of its state, then
/// the word of its value.
pub open spec fn entry_bytes(e: Seq<(State, StateAndStats)>) -> Seq<u8>
    decreases e.len(),
{
    if e.len() == 0 {
        Seq::empty()
    } else {
        entry_bytes(e.drop_last()) + le_bytes(e.last().0.0) + le_bytes(e.last().1.0)
    }
}

proof fn lemma_entry_bytes_len(e: Seq<(State, StateAndStats)>)
    ensures
        entry_bytes(e).len() == 16 * e.len(),
    decreases e.len(),
{
    if e.len() > 0 {
        lemma_entry_bytes_len(e.drop_last());
    }
}

/// The records of `b`: sixteen bytes each, a state's word and then a
/// value's word.
pub open spec fn records(b: Seq<u8>) -> Seq<(u64, u64)> {
    Seq::new(
        (b.len() / 16) as nat,
        |i: int| (le_word(b.subrange(16 * i, 16 * i + 8)), le_word(b.subrange(16 * i + 8, 16 * i + 16))),
    )
}

/// The map that adding the records one after the other gives (a null value
/// takes its state out).
pub open spec fn decoded(recs: Seq<(u64, u64)>) -> Map<u64, StateAndStats>
    decreases recs.len(),
{
    if recs.len() == 0 {
        Map::empty()
    } else {
        let m = decoded(recs.drop_last());
        let (k, v) = recs.last();
        if v == 0 {
            m.remove(k)
        } else {
            m.insert(k, StateAndStats(v))
        }
    }
}

/// The entries as records.
pub open spec fn entry_records(e: Seq<(State, StateAndStats)>) -> Seq<(u64, u64)> {
    e.map_values(|x: (State, StateAndStats)| (x.0.0, x.1.0))
}

/// Whether every record is about a state.
pub open spec fn records_are_about_states(recs: Seq<(u64, u64)>) -> bool {
    forall|i: int| 0 <= i < recs.len() ==> (#[trigger] recs[i]).0 < STATE_COUNT
}

/// The bytes of the solution: its entries in ascending order of state.
pub fn solution_to_bytes(solution: &StateMap<StateAndStats>) -> (r: Vec<u8>)
    requires
        solution.wf(),
    ensures
        r@ == entry_bytes(solution.sorted_entries()),
{
    let entries = solution.to_sorted_vec();
    let ghost e = entries@;
    let mut out: Vec<u8> = Vec::new();
    let mut i: usize = 0;
    while i < entries.len()
        invariant
            0 <= i <= entries@.len(),
            entries@ == e,
            out@ == entry_bytes(e.take(i as int)),
        decreases entries@.len() - i,
    {
        let (state, value) = entries[i];
        push_u64(&mut out, state.0);
        push_u64(&mut out, value.0);
        assert(e.take(i as int + 1).drop_last() =~= e.take(i as int));
        i = i + 1;
    }
    assert(e.take(e.len() as int) =~= e);
    out
}

/// Bytes `b` with zeros after them up to a whole number of records.
pub open spec fn padded(b: Seq<u8>) -> Seq<u8> {
    b + Seq::new(((16 - b.len() % 16) % 16) as nat, |i: int| 0u8)
}

/// The solution that `bytes` hold (see `decoded`), a last partial record
/// read with zeros for its missing bytes, unless a record is not about a
/// state.
pub fn solution_from_bytes(bytes: &[u8]) -> (r: Option<StateMap<StateAndStats>>)
    ensures
        match r {
            Some(m) => {
                &&& records_are_about_states(records(padded(bytes@)))
                &&& m.wf()
                &&& m@ == decoded(records(padded(bytes@)))
            },
            None => !records_are_about_states(records(padded(bytes@))),
        },
{
    let mut full: Vec<u8> = Vec::new();
    let mut j: usize = 0;
    while j < bytes.len()
        invariant
            0 <= j <= bytes@.len(),
            full@ == bytes@.take(j as int),
        decreases bytes@.len() - j,
    {
        full.push(bytes[j]);
        j = j + 1;
        assert(full@ =~= bytes@.take(j as int));
    }
    let extra: usize = (16 - bytes.len() % 16) % 16;
    let mut z: usize = 0;
    while z < extra
        invariant
            0 <= z <= extra,
            extra == (16 - bytes@.len() % 16) % 16,
            full@ == bytes@ + Seq::new(z as nat, |i: int| 0u8),
        decreases extra - z,
    {
        full.push(0);
        z = z + 1;
        assert(full@ =~= bytes@ + Seq::new(z as nat, |i: int| 0u8));
    }
    assert(full@ == padded(bytes@));
    assert(full@.len() % 16 == 0);
    let b = full.as_slice();
    let ghost recs = records(b@);
    let mut out: StateMap<StateAndStats> = StateMap::empty();
    let count: usize = b.len() / 16;
    let mut i: usize = 0;
    let mut at: usize = 0;
    let n: usize = b.len();
    while i < count
        invariant
            0 <= i <= count,
            n == b@.len(),
            at == 16 * i,
            at + 16 * (count - i) == b@.len(),
            count == b@.len() / 16,
            b@.len() % 16 == 0,
            recs == records(b@),
            b@ == padded(bytes@),
            out.wf(),
            records_are_about_states(recs.take(i as int)),
            out@ == decoded(recs.take(i as int)),
        decreases count - i,
    {
        let parent: u64 = read_u64(b, at);
        let child: u64 = read_u64(b, at + 8);
        assert(recs[i as int] == (parent, child));
        assert(recs.take(i as int + 1).drop_last() =~= recs.take(i as int));
        if parent >= STATE_COUNT {
            assert(recs.take(i as int + 1)[i as int].0 >= STATE_COUNT);
            assert(!records_are_about_states(recs));
            return None;
        }
        out.add(State(parent), StateAndStats(child));
        i = i + 1;
        at = at + 16;
    }
    assert(recs.take(count as int) =~= recs);
    Some(out)
}

/// The records of the bytes of the entries are the entries.
proof fn lemma_records_of_entry_bytes(e: Seq<(State, StateAndStats)>)
    ensures
        records(entry_bytes(e)) == entry_records(e),
    decreases e.len(),
{
    lemma_entry_bytes_len(e);
    if e.len() > 0 {
        let d = e.drop_last();
        lemma_records_of_entry_bytes(d);
        lemma_entry_bytes_len(d);
        let b = entry_bytes(e);
        let bd = entry_bytes(d);
        let n = d.len() as int;
        assert(b.subrange(16 * n, 16 * n + 8) =~= le_bytes(e.last().0.0));
        assert(b.subrange(16 * n + 8, 16 * n + 16) =~= le_bytes(e.last().1.0));
        lemma_le_round_trip(e.last().0.0);
        lemma_le_round_trip(e.last().1.0);
        assert forall|i: int| 0 <= i < e.len() implies #[trigger] records(b)[i] == entry_records(e)[i] by {
            if i < n {
                assert(b.subrange(16 * i, 16 * i + 8) =~= bd.subrange(16 * i, 16 * i + 8));
                assert(b.subrange(16 * i + 8, 16 * i + 16) =~= bd.subrange(16 * i + 8, 16 * i + 16));
                assert(records(bd)[i] == entry_records(d)[i]);
            }
        }
        assert(records(b) =~= entry_records(e));
    } else {
        assert(records(entry_bytes(e)) =~= entry_records(e));
    }
}

/// Adding entries with strictly ascending keys and non-null values one
/// after the other gives the map of those entries.
proof fn lemma_decoded_ascending(e: Seq<(State, StateAndStats)>)
    requires
        forall|i: int, j: int| 0 <= i < j < e.len() ==> e[i].0.0 < e[j].0.0,
        forall|i: int| 0 <= i < e.len() ==> (#[trigger] e[i]).1 != StateAndStats::spec_null(),
    ensures
        forall|k: u64|
            #[trigger] decoded(entry_records(e)).contains_key(
                k,
            ) == exists|i: int| 0 <= i < e.len() && e[i].0.0 == k,
        forall|i: int|
            0 <= i < e.len() ==> decoded(
                entry_records(e),
            )[(#[trigger] e[i]).0.0] == e[i].1,
    decreases e.len(),
{
    if e.len() > 0 {
        let d = e.drop_last();
        lemma_decoded_ascending(d);
        assert(entry_records(e).drop_last() =~= entry_records(d));
        let m = decoded(entry_records(e));
        let md = decoded(entry_records(d));
        assert(e[e.len() - 1].1 != StateAndStats::spec_null());
        assert(m == md.insert(e.last().0.0, e.last().1));
        assert forall|k: u64| #[trigger] m.contains_key(k) == exists|i: int|
            0 <= i < e.len() && e[i].0.0 == k by {
            if k != e.last().0.0 && exists|i: int| 0 <= i < e.len() && e[i].0.0 == k {
                let i = choose|i: int| 0 <= i < e.len() && e[i].0.0 == k;
                assert(i < e.len() - 1);
                assert(d[i].0.0 == k);
            }
            if md.contains_key(k) {
                let i = choose|i: int| 0 <= i < d.len() && d[i].0.0 == k;
                assert(e[i].0.0 == k);
            }
        }
        assert forall|i: int| 0 <= i < e.len() implies m[(#[trigger] e[i]).0.0] == e[i].1 by {
            if i < e.len() - 1 {
                assert(d[i] == e[i]);
                assert(e[i].0.0 < e[e.len() - 1].0.0);
            }
        }
    }
}

/// Reading the bytes of a solution gives the solution back.
pub proof fn lemma_solution_round_trip(solution: StateMap<StateAndStats>)
    requires
        solution.wf(),
    ensures
        entry_bytes(solution.sorted_entries()).len() % 16 == 0,
        padded(entry_bytes(solution.sorted_entries())) == entry_bytes(solution.sorted_entries()),
        records_are_about_states(records(entry_bytes(solution.sorted_entries()))),
        decoded(records(entry_bytes(solution.sorted_entries()))) == solution@,
{
    let e = solution.sorted_entries();
    solution.lemma_sorted_entries();
    solution.lemma_bounded();
    lemma_entry_bytes_len(e);
    assert(padded(entry_bytes(e)) =~= entry_bytes(e));
    lemma_records_of_entry_bytes(e);
    assert forall|i: int| 0 <= i < e.len() implies (#[trigger] e[i]).1 != StateAndStats::spec_null() by {
        assert(solution@.contains_key(e[i].0.0));
    }
    lemma_decoded_ascending(e);
    let recs = records(entry_bytes(e));
    assert(recs == entry_records(e));
    assert forall|i: int| 0 <= i < recs.len() implies (#[trigger] recs[i]).0 < STATE_COUNT by {
        assert(solution@.contains_key(e[i].0.0));
    }
    let m = decoded(recs);
    assert forall|k: u64| #[trigger] m.contains_key(k) == solution@.contains_key(k) by {
        if solution@.contains_key(k) {
            let i = choose|i: int| 0 <= i < e.len() && e[i].0.0 == k;
        }
        if m.contains_key(k) {
            let i = choose|i: int| 0 <= i < e.len() && e[i].0.0 == k;
            assert(solution@.contains_key(e[i].0.0));
        }
    }
    assert forall|k: u64| #[trigger] m.contains_key(k) implies m[k] == solution@[k] by {
        let i = choose|i: int| 0 <= i < e.len() && e[i].0.0 == k;
        assert(m[e[i].0.0] == e[i].1);
    }
    assert(m =~= solution@);
}

/// The number of best children in a full packet of the simple database.
pub const NODES_PER_PACKET: usize = 1024;

/// A packet of the simple database: the words of the best children of up to
/// `NODES_PER_PACKET` consecutive states, and the last of those states.
pub struct SimpleDbPacket {
    pub last_parent: State,
    pub bytes: Vec<u8>,
}

/// The words of the values of the entries, one after the other.
pub open spec fn value_bytes(e: Seq<(State, StateAndStats)>) -> Seq<u8>
    decreases e.len(),
{
    if e.len() == 0 {
        Seq::empty()
    } else {
        value_bytes(e.drop_last()) + le_bytes(e.last().1.0)
    }
}

/// Where packet `p` ends among `n` entries.
pub open spec fn packet_end(p: int, n: int) -> int {
    if NODES_PER_PACKET * (p + 1) < n {
        NODES_PER_PACKET * (p + 1)
    } else {
        n
    }
}

/// The entries of the solution cut into packets of `NODES_PER_PACKET`
/// consecutive entries (the last packet may be shorter), each with the
/// words of its best children and its last state.
pub fn simple_db_packets(solution: &StateMap<StateAndStats>) -> (r: Vec<SimpleDbPacket>)
    requires
        solution.wf(),
    ensures
        ({
            let e = solution.sorted_entries();
            &&& r@.len() == (e.len() + NODES_PER_PACKET - 1) / NODES_PER_PACKET as int
            &&& forall|p: int|
                0 <= p < r@.len() ==> {
                    let lo = NODES_PER_PACKET * p;
                    let hi = packet_end(p, e.len() as int);
                    &&& (#[trigger] r@[p]).bytes@ == value_bytes(e.subrange(lo, hi))
                    &&& r@[p].last_parent == e[hi - 1].0
                }
        }),
{
    let entries = solution.to_sorted_vec();
    let ghost e = entries@;
    let n: usize = entries.len();
    let mut packets: Vec<SimpleDbPacket> = Vec::new();
    let mut buffer: Vec<u8> = Vec::new();
    let mut start: usize = 0;
    let mut i: usize = 0;
    while i < n
        invariant
            n == e.len(),
            entries@ == e,
            start <= i <= n,
            i - start < NODES_PER_PACKET,
            start == NODES_PER_PACKET * packets@.len(),
            buffer@ == value_bytes(e.subrange(start as int, i as int)),
            forall|p: int|
                0 <= p < packets@.len() ==> {
                    let lo = NODES_PER_PACKET * p;
                    let hi = packet_end(p, e.len() as int);
                    &&& (#[trigger] packets@[p]).bytes@ == value_bytes(e.subrange(lo, hi))
                    &&& packets@[p].last_parent == e[hi - 1].0
                },
        decreases n - i,
    {
        let (_, child) = entries[i];
        push_u64(&mut buffer, child.0);
        proof {
            assert(e.subrange(start as int, i + 1).drop_last() =~= e.subrange(start as int, i as int));
        }
        i = i + 1;
        if i - start == NODES_PER_PACKET {
            let ghost np = packets@.len();
            packets.push(SimpleDbPacket { last_parent: entries[i - 1].0, bytes: buffer });
            buffer = Vec::new();
            proof {
                assert(packet_end(np as int, e.len() as int) == i);
            }
            start = i;
            assert(buffer@ =~= value_bytes(e.subrange(start as int, i as int)));
        }
    }
    if i > start {
        let ghost np = packets@.len();
        packets.push(SimpleDbPacket { last_parent: entries[i - 1].0, bytes: buffer });
        proof {
            assert(packet_end(np as int, e.len() as int) == n);
        }
    }
    packets
}

/// The first five little-endian bytes of the last state of each packet,
/// one packet after the other.
pub open spec fn maximum_bytes(packets: Seq<SimpleDbPacket>) -> Seq<u8>
    decreases packets.len(),
{
    if packets.len() == 0 {
        Seq::empty()
    } else {
        maximum_bytes(packets.drop_last()) + le_bytes(packets.last().last_parent.0).take(5)
    }
}

/// The bytes of the index of the simple database (see `maximum_bytes`).
pub fn packet_maximums(packets: &Vec<SimpleDbPacket>) -> (r: Vec<u8>)
    ensures
        r@ == maximum_bytes(packets@),
{
    let mut out: Vec<u8> = Vec::new();
    let mut i: usize = 0;
    while i < packets.len()
        invariant
            0 <= i <= packets@.len(),
            out@ == maximum_bytes(packets@.take(i as int)),
        decreases packets@.len() - i,
    {
        let mut word: Vec<u8> = Vec::new();
        push_u64(&mut word, packets[i].last_parent.0);
        let mut j: usize = 0;
        let ghost base = out@;
        while j < 5
            invariant
                0 <= j <= 5,
                word@ == le_bytes(packets@[i as int].last_parent.0),
                out@ == base + word@.take(j as int),
            decreases 5 - j,
        {
            out.push(word[j]);
            assert(word@.take(j + 1) =~= word@.take(j as int).push(word@[j as int]));
            j = j + 1;
        }
        proof {
            assert(packets@.take(i + 1).drop_last() =~= packets@.take(i as int));
        }
        i = i + 1;
    }
    assert(packets@.take(packets@.len() as int) =~= packets@);
    out
}

/// Where packet `index` of the simple database is stored: directory
/// `index / 1000`, file `index % 1000` (so packet 123456 is `123/456.dat`),
/// a thousand packets to a directory.
pub fn packet_location(index: usize) -> (r: (usize, usize))
    ensures
        r.0 == index / 1000,
        r.1 == index % 1000,
        r.0 * 1000 + r.1 == index,
{
    (index / 1000, index % 1000)
}

} // verus!
