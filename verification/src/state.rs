//! States without stats, and the nullable values that the state collections
//! hold.
use vstd::prelude::*;

verus! {

/// A state (40 bits) in the least significant bits, without stats.
#[derive(Clone, Copy, Debug, PartialEq, Eq, PartialOrd, Ord, Hash)]
pub struct State(pub u64);

/// The number of distinct states.
pub const STATE_COUNT: u64 = 0x100_0000_0000;

/// Whether `s` is a state: only its least significant 40 bits are used.
pub open spec fn is_state(s: State) -> bool {
    s.0 < STATE_COUNT
}

/// Values with a distinguished "null" value, which stands for absence.
pub trait Null: Sized + Copy {
    spec fn spec_null() -> Self;

    fn null() -> (r: Self)
        ensures
            r == Self::spec_null(),
    ;

    fn is_null(&self) -> (r: bool)
        ensures
            r == (*self == Self::spec_null()),
    ;
}

impl<T: Copy> Null for Option<T> {
    open spec fn spec_null() -> Self {
        None
    }

    fn null() -> (r: Self) {
        None
    }

    fn is_null(&self) -> (r: bool) {
        self.is_none()
    }
}

impl Null for State {
    open spec fn spec_null() -> Self {
        State(0)
    }

    fn null() -> (r: Self) {
        State(0)
    }

    fn is_null(&self) -> (r: bool) {
        self.0 == 0
    }
}

impl Null for crate::node::SearchNode {
    open spec fn spec_null() -> Self {
        crate::node::SearchNode(0)
    }

    fn null() -> (r: Self) {
        crate::node::SearchNode(0)
    }

    fn is_null(&self) -> (r: bool) {
        self.0 == 0
    }
}

/// Entries `(prefix + r, lookup(r))` for `lo <= r < hi` whose value is not
/// `nul`, in ascending order of `r`.
pub open spec fn entries<T>(lookup: spec_fn(int) -> T, nul: T, prefix: int, lo: int, hi: int) -> Seq<
    (State, T),
>
    decreases hi - lo,
{
    if hi <= lo {
        Seq::empty()
    } else {
        entries(lookup, nul, prefix, lo, hi - 1) + (if lookup(hi - 1) != nul {
            seq![(State((prefix + hi - 1) as u64), lookup(hi - 1))]
        } else {
            Seq::empty()
        })
    }
}

pub proof fn lemma_entries_split<T>(
    lookup: spec_fn(int) -> T,
    nul: T,
    prefix: int,
    lo: int,
    mid: int,
    hi: int,
)
    requires
        lo <= mid <= hi,
    ensures
        entries(lookup, nul, prefix, lo, hi) == entries(lookup, nul, prefix, lo, mid) + entries(
            lookup,
            nul,
            prefix,
            mid,
            hi,
        ),
    decreases hi - mid,
{
    if hi == mid {
        assert(entries(lookup, nul, prefix, lo, mid) + entries(lookup, nul, prefix, mid, hi)
            =~= entries(lookup, nul, prefix, lo, mid));
    } else {
        lemma_entries_split(lookup, nul, prefix, lo, mid, hi - 1);
        assert(entries(lookup, nul, prefix, lo, hi) =~= entries(lookup, nul, prefix, lo, mid)
            + entries(lookup, nul, prefix, mid, hi));
    }
}

pub proof fn lemma_entries_shift<T>(
    a: spec_fn(int) -> T,
    b: spec_fn(int) -> T,
    nul: T,
    prefix: int,
    base: int,
    lo: int,
    hi: int,
)
    requires
        forall|r: int| lo <= r < hi ==> a(base + r) == #[trigger] b(r),
    ensures
        entries(a, nul, prefix, base + lo, base + hi) == entries(b, nul, prefix + base, lo, hi),
    decreases hi - lo,
{
    if lo < hi {
        lemma_entries_shift(a, b, nul, prefix, base, lo, hi - 1);
        assert(a(base + hi - 1) == b(hi - 1));
        assert(prefix + (base + hi) - 1 == prefix + base + hi - 1);
    }
}

pub proof fn lemma_entries_all_null<T>(lookup: spec_fn(int) -> T, nul: T, prefix: int, lo: int, hi: int)
    requires
        forall|r: int| lo <= r < hi ==> #[trigger] lookup(r) == nul,
    ensures
        entries(lookup, nul, prefix, lo, hi) == Seq::<(State, T)>::empty(),
    decreases hi - lo,
{
    if lo < hi {
        lemma_entries_all_null(lookup, nul, prefix, lo, hi - 1);
        assert(entries(lookup, nul, prefix, lo, hi) =~= Seq::<(State, T)>::empty());
    }
}

/// The keys of the entries are ascending, lie in `[prefix + lo, prefix + hi)`,
/// and are exactly the keys whose value is not `nul`.
pub proof fn lemma_entries_meaning<T>(lookup: spec_fn(int) -> T, nul: T, prefix: int, lo: int, hi: int)
    requires
        0 <= prefix + lo,
        prefix + hi <= u64::MAX + 1,
    ensures
        ({
            let e = entries(lookup, nul, prefix, lo, hi);
            &&& forall|i: int, j: int| 0 <= i < j < e.len() ==> e[i].0.0 < e[j].0.0
            &&& forall|i: int|
                0 <= i < e.len() ==> prefix + lo <= e[i].0.0 < prefix + hi && e[i].1 == lookup(
                    e[i].0.0 - prefix,
                ) && e[i].1 != nul
            &&& forall|r: int|
                lo <= r < hi && #[trigger] lookup(r) != nul ==> exists|i: int|
                    0 <= i < e.len() && e[i].0.0 == prefix + r
        }),
    decreases hi - lo,
{
    if lo < hi {
        lemma_entries_meaning(lookup, nul, prefix, lo, hi - 1);
        let e0 = entries(lookup, nul, prefix, lo, hi - 1);
        let e = entries(lookup, nul, prefix, lo, hi);
        if lookup(hi - 1) != nul {
            assert(e[e0.len() as int].0.0 == prefix + hi - 1);
        }
        assert forall|r: int| lo <= r < hi && #[trigger] lookup(r) != nul implies exists|i: int|
            0 <= i < e.len() && e[i].0.0 == prefix + r by {
            if r < hi - 1 {
                let i = choose|i: int| 0 <= i < e0.len() && e0[i].0.0 == prefix + r;
                assert(e[i] == e0[i]);
            } else {
                assert(e[e0.len() as int].0.0 == prefix + r);
            }
        }
    }
}


/// The keys `prefix + r` for `lo <= r < hi` at which `member` holds, in
/// ascending order.
pub open spec fn members(member: spec_fn(int) -> bool, prefix: int, lo: int, hi: int) -> Seq<State>
    decreases hi - lo,
{
    if hi <= lo {
        Seq::empty()
    } else {
        members(member, prefix, lo, hi - 1) + (if member(hi - 1) {
            seq![State((prefix + hi - 1) as u64)]
        } else {
            Seq::empty()
        })
    }
}

pub proof fn lemma_members_split(member: spec_fn(int) -> bool, prefix: int, lo: int, mid: int, hi: int)
    requires
        lo <= mid <= hi,
    ensures
        members(member, prefix, lo, hi) == members(member, prefix, lo, mid) + members(
            member,
            prefix,
            mid,
            hi,
        ),
    decreases hi - mid,
{
    if hi == mid {
        assert(members(member, prefix, lo, mid) + members(member, prefix, mid, hi) =~= members(
            member,
            prefix,
            lo,
            mid,
        ));
    } else {
        lemma_members_split(member, prefix, lo, mid, hi - 1);
        assert(members(member, prefix, lo, hi) =~= members(member, prefix, lo, mid) + members(
            member,
            prefix,
            mid,
            hi,
        ));
    }
}

pub proof fn lemma_members_shift(
    a: spec_fn(int) -> bool,
    b: spec_fn(int) -> bool,
    prefix: int,
    base: int,
    lo: int,
    hi: int,
)
    requires
        forall|r: int| lo <= r < hi ==> a(base + r) == #[trigger] b(r),
    ensures
        members(a, prefix, base + lo, base + hi) == members(b, prefix + base, lo, hi),
    decreases hi - lo,
{
    if lo < hi {
        lemma_members_shift(a, b, prefix, base, lo, hi - 1);
        assert(a(base + hi - 1) == b(hi - 1));
        assert(prefix + (base + hi) - 1 == prefix + base + hi - 1);
    }
}

pub proof fn lemma_members_none(member: spec_fn(int) -> bool, prefix: int, lo: int, hi: int)
    requires
        forall|r: int| lo <= r < hi ==> !#[trigger] member(r),
    ensures
        members(member, prefix, lo, hi) == Seq::<State>::empty(),
    decreases hi - lo,
{
    if lo < hi {
        lemma_members_none(member, prefix, lo, hi - 1);
        assert(members(member, prefix, lo, hi) =~= Seq::<State>::empty());
    }
}

/// The members are in strictly ascending order, lie in
/// `[prefix + lo, prefix + hi)`, and are exactly the keys at which `member`
/// holds.
pub proof fn lemma_members_meaning(member: spec_fn(int) -> bool, prefix: int, lo: int, hi: int)
    requires
        0 <= prefix + lo,
        prefix + hi <= u64::MAX + 1,
    ensures
        ({
            let e = members(member, prefix, lo, hi);
            &&& forall|i: int, j: int| 0 <= i < j < e.len() ==> e[i].0 < e[j].0
            &&& forall|i: int|
                0 <= i < e.len() ==> prefix + lo <= e[i].0 < prefix + hi && member(e[i].0 - prefix)
            &&& forall|r: int|
                lo <= r < hi && #[trigger] member(r) ==> exists|i: int|
                    0 <= i < e.len() && e[i].0 == prefix + r
        }),
    decreases hi - lo,
{
    if lo < hi {
        lemma_members_meaning(member, prefix, lo, hi - 1);
        let e0 = members(member, prefix, lo, hi - 1);
        let e = members(member, prefix, lo, hi);
        if member(hi - 1) {
            assert(e[e0.len() as int].0 == prefix + hi - 1);
        }
        assert forall|r: int| lo <= r < hi && #[trigger] member(r) implies exists|i: int|
            0 <= i < e.len() && e[i].0 == prefix + r by {
            if r < hi - 1 {
                let i = choose|i: int| 0 <= i < e0.len() && e0[i].0 == prefix + r;
                assert(e[i] == e0[i]);
            } else {
                assert(e[e0.len() as int].0 == prefix + r);
            }
        }
    }
}

/// Where the digits of a trie key lie.
pub proof fn lemma_trie_index(key: u64)
    by (bit_vector)
    ensures
        key & 15 == key % 16,
        (key >> 4u64) & 15 == (key % 256) / 16 && (key % 256) % 16 == key % 16,
        (key >> 8u64) & 15 == (key % 4096) / 256 && (key % 4096) % 256 == key % 256,
        (key >> 12u64) & 15 == (key % 65536) / 4096 && (key % 65536) % 4096 == key % 4096,
        (key >> 16u64) & 15 == (key % 1048576) / 65536 && (key % 1048576) % 65536 == key
            % 65536,
        (key >> 20u64) & 15 == (key % 16777216) / 1048576 && (key % 16777216) % 1048576 == key
            % 1048576,
        key < 0x100_0000_0000 ==> key >> 24u64 == key / 0x100_0000 && key >> 24u64 < 0x1_0000,
{
}

/// Putting a digit below a prefix whose lower digits are zero is addition.
pub proof fn lemma_trie_prefix(prefix: u64, i: u64)
    by (bit_vector)
    ensures
        prefix % 16 == 0 && i < 16 ==> prefix | i == prefix + i,
        prefix % 256 == 0 && i < 256 ==> prefix | i == prefix + i,
        prefix % 256 == 0 && i < 16 ==> prefix | (i << 4u64) == prefix + i * 16,
        prefix % 4096 == 0 && i < 16 ==> prefix | (i << 8u64) == prefix + i * 256,
        prefix % 65536 == 0 && i < 16 ==> prefix | (i << 12u64) == prefix + i * 4096,
        prefix % 1048576 == 0 && i < 16 ==> prefix | (i << 16u64) == prefix + i * 65536,
        prefix % 16777216 == 0 && i < 16 ==> prefix | (i << 20u64) == prefix + i * 1048576,
        i < 0x1_0000 ==> i << 24u64 == i * 0x100_0000,
        i < 256 ==> i >> 4u64 == i / 16 && i & 15 == i % 16 && i >> 4u64 < 16,
{
}

} // verus!
