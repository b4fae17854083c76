//! A service that writes states into a byte buffer that a host reads: each
//! state takes eight little-endian bytes, and a list of children is
//! preceded by its length.
use vstd::prelude::*;
use crate::bytes::{le_bytes, le_word, lemma_le_round_trip, read_u64, write_u64};
use crate::forward_pass::child_keys;
use crate::state::{State, STATE_COUNT, is_state};
use crate::state_stats::{as_states, lemma_neighbours_are_states};

verus! {

#[derive(Clone)]
pub struct DobutsuShogiService {
    buffer: Vec<u8>,
    cursor: usize,
}

/// The position of a word in the buffer.
#[derive(Clone, Copy, Debug, PartialEq, Eq, PartialOrd, Ord)]
pub struct BufferAddress(pub usize);

/// Why the service could not do what was asked.
#[derive(Clone, Copy, Debug, PartialEq, Eq)]
pub enum ServiceError {
    /// The buffer, of the given length, has no room left.
    BufferOverflow(usize),
    /// The address given does not hold a whole word of the buffer.
    AddressOutOfRange,
    /// The word at the address given is not a state.
    NotAState,
}

/// Bytes `b` with `w` written at `at`.
pub open spec fn written(b: Seq<u8>, at: int, w: Seq<u8>) -> Seq<u8> {
    b.subrange(0, at) + w + b.subrange(at + w.len(), b.len() as int)
}

/// The bytes of the states, one word each.
pub open spec fn state_words(s: Seq<State>) -> Seq<u8>
    decreases s.len(),
{
    if s.len() == 0 {
        Seq::empty()
    } else {
        state_words(s.drop_last()) + le_bytes(s.last().0)
    }
}

proof fn lemma_state_words_len(s: Seq<State>)
    ensures
        state_words(s).len() == 8 * s.len(),
    decreases s.len(),
{
    if s.len() > 0 {
        lemma_state_words_len(s.drop_last());
    }
}

/// Word `k` of the bytes of states `s` holds the `k`-th state, for every
/// `k`: the states are written one after the other, in order.
pub proof fn lemma_state_words_hold_the_states(s: Seq<State>)
    ensures
        state_words(s).len() == 8 * s.len(),
        forall|k: int|
            0 <= k < s.len() ==> le_word(#[trigger] state_words(s).subrange(8 * k, 8 * k + 8))
                == s[k].0,
    decreases s.len(),
{
    lemma_state_words_len(s);
    if s.len() > 0 {
        let d = s.drop_last();
        lemma_state_words_hold_the_states(d);
        lemma_state_words_len(d);
        assert forall|k: int| 0 <= k < s.len() implies le_word(
            #[trigger] state_words(s).subrange(8 * k, 8 * k + 8),
        ) == s[k].0 by {
            if k < d.len() {
                assert(state_words(s).subrange(8 * k, 8 * k + 8) =~= state_words(d).subrange(
                    8 * k,
                    8 * k + 8,
                ));
                assert(d[k] == s[k]);
            } else {
                assert(state_words(s).subrange(8 * k, 8 * k + 8) =~= le_bytes(s.last().0));
                lemma_le_round_trip(s.last().0);
            }
        }
    }
}

/// The bytes at `at + i` of `b` with `w` written at `at` are those at `i`
/// of `w`.
proof fn lemma_read_written(b: Seq<u8>, at: int, w: Seq<u8>, i: int)
    requires
        0 <= at,
        at + w.len() <= b.len(),
        0 <= i,
        i + 8 <= w.len(),
    ensures
        written(b, at, w).subrange(at + i, at + i + 8) =~= w.subrange(i, i + 8),
{
}

impl DobutsuShogiService {
    /// The bytes of the buffer.
    pub closed spec fn bytes(self) -> Seq<u8> {
        self.buffer@
    }

    /// Where the next word goes.
    pub closed spec fn position(self) -> int {
        self.cursor as int
    }

    pub closed spec fn wf(self) -> bool {
        &&& self.cursor <= self.buffer@.len()
        &&& self.cursor % 8 == 0
        &&& self.buffer@.len() % 8 == 0
    }

    /// A service whose buffer has room for `state_capacity` words, all
    /// zero.
    pub fn new(state_capacity: usize) -> (r: Self)
        requires
            state_capacity * 8 <= usize::MAX,
        ensures
            r.wf(),
            r.bytes() == Seq::new((state_capacity * 8) as nat, |i: int| 0u8),
            r.position() == 0,
    {
        let len: usize = state_capacity * 8;
        let mut buffer: Vec<u8> = Vec::new();
        let mut i: usize = 0;
        while i < len
            invariant
                0 <= i <= len,
                buffer@ == Seq::new(i as nat, |j: int| 0u8),
            decreases len - i,
        {
            buffer.push(0);
            i = i + 1;
            assert(buffer@ =~= Seq::new(i as nat, |j: int| 0u8));
        }
        DobutsuShogiService { buffer, cursor: 0 }
    }

    /// The bytes of the buffer (the host reads them in place).
    pub fn buffer(&self) -> (r: &[u8])
        ensures
            r@ == self.bytes(),
    {
        self.buffer.as_slice()
    }

    pub fn cursor(&self) -> (r: BufferAddress)
        ensures
            r.0 == self.position(),
    {
        BufferAddress(self.cursor)
    }

    /// Starts writing at the start of the buffer again.
    pub fn clear(&mut self)
        requires
            old(self).wf(),
        ensures
            final(self).wf(),
            final(self).bytes() == old(self).bytes(),
            final(self).position() == 0,
    {
        self.cursor = 0;
    }

    /// Writes `state` at the cursor and moves the cursor past it; fails,
    /// changing nothing, when the buffer is full. A state goes only into the
    /// first word: with the cursor anywhere else before the end of the buffer
    /// the write is outside what this service does.
    pub fn write_state(&mut self, state: State) -> (r: Result<BufferAddress, ServiceError>)
        requires
            old(self).wf(),
            old(self).position() < old(self).bytes().len() ==> old(self).position() == 0,
        ensures
            final(self).wf(),
            match r {
                Ok(address) => {
                    &&& old(self).position() + 8 <= old(self).bytes().len()
                    &&& address.0 == old(self).position()
                    &&& final(self).position() == old(self).position() + 8
                    &&& final(self).bytes() == written(
                        old(self).bytes(),
                        old(self).position(),
                        le_bytes(state.0),
                    )
                },
                Err(e) => {
                    &&& old(self).position() + 8 > old(self).bytes().len()
                    &&& e == ServiceError::BufferOverflow(old(self).bytes().len() as usize)
                    &&& *final(self) == *old(self)
                },
            },
    {
        if self.cursor >= self.buffer.len() {
            return Err(ServiceError::BufferOverflow(self.buffer.len()));
        }
        let location = self.cursor;
        let ghost before = self.buffer@;
        write_u64(&mut self.buffer, location, state.0);
        assert(self.buffer@ =~= written(before, location as int, le_bytes(state.0)));
        self.cursor = self.cursor + 8;
        Ok(BufferAddress(location))
    }

    /// The state written at `address`.
    pub fn read_state(&self, address: BufferAddress) -> (r: Result<State, ServiceError>)
        ensures
            match r {
                Ok(state) => address.0 + 8 <= self.bytes().len() && state.0 == le_word(
                    self.bytes().subrange(address.0 as int, address.0 + 8),
                ),
                Err(e) => address.0 + 8 > self.bytes().len() && e == ServiceError::AddressOutOfRange,
            },
    {
        if address.0 > self.buffer.len() || self.buffer.len() - address.0 < 8 {
            return Err(ServiceError::AddressOutOfRange);
        }
        Ok(State(read_u64(self.buffer.as_slice(), address.0)))
    }

    /// Writes the initial state (see `State::initial`), into the first word
    /// as `write_state` does.
    pub fn write_initial_state(&mut self) -> (r: Result<BufferAddress, ServiceError>)
        requires
            old(self).wf(),
            old(self).position() < old(self).bytes().len() ==> old(self).position() == 0,
        ensures
            final(self).wf(),
            match r {
                Ok(address) => {
                    &&& address.0 == old(self).position()
                    &&& final(self).position() == old(self).position() + 8
                    &&& final(self).bytes() == written(
                        old(self).bytes(),
                        old(self).position(),
                        le_bytes(crate::node::INITIAL_NODE >> 16),
                    )
                },
                Err(e) => {
                    &&& old(self).position() + 8 > old(self).bytes().len()
                    &&& e == ServiceError::BufferOverflow(old(self).bytes().len() as usize)
                    &&& *final(self) == *old(self)
                },
            },
    {
        self.write_state(State::initial())
    }

    /// Writes, at the cursor, the number of children of the state at
    /// `parent_address` followed by the children themselves, and returns
    /// where the number was written. Fails, changing nothing, when the
    /// address holds no state or the buffer has no room for them all. Each
    /// child would be written as `write_state` writes, which the word after
    /// the number never is: so a parent with children is outside what this
    /// service does unless the buffer has no room for its first child, and
    /// only a number zero is ever written.
    pub fn write_children(&mut self, parent_address: BufferAddress) -> (r: Result<
        BufferAddress,
        ServiceError,
    >)
        requires
            old(self).wf(),
            ({
                let parent = le_word(
                    old(self).bytes().subrange(parent_address.0 as int, parent_address.0 + 8),
                );
                parent_address.0 + 8 <= old(self).bytes().len() && parent < STATE_COUNT
                    && child_keys(parent).len() > 0 ==> old(self).position() + 8 >= old(
                    self,
                ).bytes().len()
            }),
        ensures
            final(self).wf(),
            match r {
                Ok(address) => {
                    let parent = le_word(
                        old(self).bytes().subrange(parent_address.0 as int, parent_address.0 + 8),
                    );
                    let children = as_states(child_keys(parent));
                    let words = le_bytes(children.len() as u64) + state_words(children);
                    &&& parent_address.0 + 8 <= old(self).bytes().len()
                    &&& parent < STATE_COUNT
                    &&& address.0 == old(self).position()
                    &&& final(self).position() == old(self).position() + words.len()
                    &&& final(self).bytes() == written(
                        old(self).bytes(),
                        old(self).position(),
                        words,
                    )
                    &&& le_word(final(self).bytes().subrange(address.0 as int, address.0 + 8))
                        == children.len()
                    &&& forall|j: int|
                        0 <= j < children.len() ==> le_word(
                            #[trigger] final(self).bytes().subrange(
                                address.0 + 8 + 8 * j,
                                address.0 + 16 + 8 * j,
                            ),
                        ) == child_keys(parent)[j]
                },
                Err(e) => {
                    let parent = le_word(
                        old(self).bytes().subrange(parent_address.0 as int, parent_address.0 + 8),
                    );
                    let children = as_states(child_keys(parent));
                    &&& *final(self) == *old(self)
                    &&& if parent_address.0 + 8 > old(self).bytes().len() {
                        e == ServiceError::AddressOutOfRange
                    } else if parent >= STATE_COUNT {
                        e == ServiceError::NotAState
                    } else {
                        &&& old(self).position() + 8 * (children.len() + 1) > old(self).bytes().len()
                        &&& e == ServiceError::BufferOverflow(old(self).bytes().len() as usize)
                    }
                },
            },
    {
        let parent = match self.read_state(parent_address) {
            Ok(p) => p,
            Err(e) => return Err(e),
        };
        if parent.0 >= STATE_COUNT {
            return Err(ServiceError::NotAState);
        }
        let children = parent.children();
        proof {
            lemma_neighbours_are_states(parent.0);
            crate::children::lemma_children_len(crate::state_set::node_of_key(parent).0);
            assert(child_keys(parent.0).len() <= 84) by {
                reveal(child_keys);
            }
        }
        let count: usize = children.len();
        if self.cursor > self.buffer.len() || (self.buffer.len() - self.cursor) / 8 < count + 1 {
            assert(children@.len() == as_states(child_keys(parent.0)).len());
            return Err(ServiceError::BufferOverflow(self.buffer.len()));
        }
        let len_address = self.cursor;
        let ghost b0 = self.buffer@;
        self.cursor = self.cursor + 8;
        let ghost cs = as_states(child_keys(parent.0));
        let mut i: usize = 0;
        while i < count
            invariant
                0 <= i <= count,
                count == children@.len(),
                children@ == cs,
                self.buffer@.len() == b0.len(),
                self.buffer@.len() % 8 == 0,
                self.cursor == len_address + 8 + 8 * i,
                len_address + 8 * (count + 1) <= b0.len(),
                b0.len() <= usize::MAX,
                len_address % 8 == 0,
                self.buffer@ == written(b0, len_address + 8, state_words(cs.take(i as int))),
            decreases count - i,
        {
            let child = children[i];
            proof {
                lemma_state_words_len(cs.take(i as int));
            }
            let ghost before = self.buffer@;
            write_u64(&mut self.buffer, self.cursor, child.0);
            self.cursor = self.cursor + 8;
            proof {
                assert(cs.take(i as int + 1).drop_last() =~= cs.take(i as int));
                lemma_state_words_len(cs.take(i as int + 1));
                assert(self.buffer@ =~= written(b0, len_address + 8, state_words(cs.take(i as int + 1))));
            }
            i = i + 1;
        }
        let ghost b1 = self.buffer@;
        write_u64(&mut self.buffer, len_address, count as u64);
        proof {
            assert(cs.take(count as int) =~= cs);
            lemma_state_words_len(cs);
            assert(self.buffer@ =~= written(
                b0,
                len_address as int,
                le_bytes(count as u64) + state_words(cs),
            ));
            let w = le_bytes(count as u64) + state_words(cs);
            lemma_state_words_hold_the_states(cs);
            lemma_read_written(b0, len_address as int, w, 0);
            assert(w.subrange(0, 8) =~= le_bytes(count as u64));
            lemma_le_round_trip(count as u64);
            assert forall|j: int| 0 <= j < cs.len() implies le_word(
                #[trigger] self.buffer@.subrange(len_address + 8 + 8 * j, len_address + 16 + 8 * j),
            ) == child_keys(parent.0)[j] by {
                lemma_read_written(b0, len_address as int, w, 8 + 8 * j);
                assert(w.subrange(8 + 8 * j, 16 + 8 * j) =~= state_words(cs).subrange(
                    8 * j,
                    8 * j + 8,
                ));
            }
        }
        Ok(BufferAddress(len_address))
    }
}

/// Reading a state back where it was written gives the state.
pub proof fn lemma_read_after_write(b: Seq<u8>, at: int, state: State)
    requires
        0 <= at,
        at + 8 <= b.len(),
    ensures
        le_word(written(b, at, le_bytes(state.0)).subrange(at, at + 8)) == state.0,
{
    assert(written(b, at, le_bytes(state.0)).subrange(at, at + 8) =~= le_bytes(state.0));
    lemma_le_round_trip(state.0);
}

} // verus!
