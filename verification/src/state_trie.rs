//! A set of states, stored as a trie keyed by the bits of the state: 16 bits
//! at the root, then four levels of 4 bits each, and finally a 16-bit bitset
//! for the last 4 bits.
use vstd::prelude::*;
use crate::state::{
    lemma_trie_index, lemma_trie_prefix,
    State, STATE_COUNT, lemma_members_meaning, lemma_members_none, lemma_members_shift,
    lemma_members_split, members,
};

verus! {

/// Sixteen membership bits.
#[derive(Clone, Copy, Debug, Default)]
pub struct Bitset16(pub u16);

/// Whether bit `i` of `b` is set.
pub open spec fn bitset_contains(b: u16, i: int) -> bool {
    (b >> (i as u16)) & 1 == 1
}

/// Relative keys below `2^24`.
pub struct SetBucket0(pub Vec<Option<Box<SetBucket1>>>);

/// Relative keys below `2^20`.
pub struct SetBucket1(pub Vec<Option<Box<SetBucket2>>>);

/// Relative keys below `2^16`.
pub struct SetBucket2(pub Vec<Option<Box<SetBucket3>>>);

/// Relative keys below `2^12`.
pub struct SetBucket3(pub Vec<Option<Box<SetBucket4>>>);

/// The leaves: sixteen bitsets for relative keys below `2^8`.
pub struct SetBucket4(pub Vec<Bitset16>);

/// What setting and testing bits of a bitset do.
proof fn lemma_bitset_bits(b: u16, bit: u16, j: u16)
    by (bit_vector)
    requires
        bit < 16,
        j < 16,
    ensures
        (0u16 >> j) & 1 == 0,
        (b & (1u16 << bit) != 0) == ((b >> bit) & 1 == 1),
        (((b | (1u16 << bit)) >> j) & 1 == 1) == (j == bit || (b >> j) & 1 == 1),
        (b >> bit) & 1 != 0 ==> (b >> bit) & 1 == 1,
{
}

impl SetBucket4 {
    pub open spec fn wf(self) -> bool {
        self.0.len() == 16
    }

    /// Whether relative key `r` (`0 <= r < 256`) is in the bucket.
    pub open spec fn member(self, r: int) -> bool {
        bitset_contains(self.0@[r / 16].0, r % 16)
    }

    /// A bucket that holds nothing.
    pub fn empty() -> (b: Self)
        ensures
            b.wf(),
            forall|r: int| 0 <= r < 256 ==> !#[trigger] b.member(r),
    {
        let mut v: Vec<Bitset16> = Vec::new();
        let mut i: u64 = 0;
        while i < 16
            invariant
                0 <= i <= 16,
                v.len() == i,
                forall|j: int| 0 <= j < i ==> v@[j].0 == 0,
            decreases 16 - i,
        {
            v.push(Bitset16(0));
            i = i + 1;
        }
        let b = SetBucket4(v);
        assert forall|r: int| 0 <= r < 256 implies !#[trigger] b.member(r) by {
            let j = (r % 16) as u16;
            lemma_bitset_bits(0, 0, j);
        }
        b
    }

    /// Adds `key` (relative to this bucket), and reports whether it was
    /// already there.
    pub fn add(&mut self, key: u64) -> (existed: bool)
        requires
            old(self).wf(),
        ensures
            final(self).wf(),
            forall|r: int|
                0 <= r < 256 ==> #[trigger] final(self).member(r) == (r == key % 256 || old(
                    self,
                ).member(r)),
            existed == old(self).member((key % 256) as int),
    {
        let i5: u64 = (key >> 4u64) & 15;
        let i6: u64 = key & 15;
        proof {
            lemma_trie_index(key);
        }
        let b: u16 = self.0[i5 as usize].0;
        let bit: u16 = i6 as u16;
        let mask: u16 = 1u16 << bit;
        let existed = b & mask != 0;
        proof {
            lemma_bitset_bits(b, bit, 0);
        }
        let nb: u16 = b | mask;
        self.0.set(i5 as usize, Bitset16(nb));
        proof {
            assert forall|r: int| 0 <= r < 256 implies #[trigger] self.member(r) == (r == key % 256
                || old(self).member(r)) by {
                if r / 16 == i5 {
                    let j = (r % 16) as u16;
                    lemma_bitset_bits(b, bit, j);
                } else {
                    assert(self.0@[r / 16] == old(self).0@[r / 16]);
                }
            }
        }
        existed
    }

    /// Appends the keys of this bucket, which start at `prefix`, in
    /// ascending order.
    pub fn visit(&self, prefix: u64, out: &mut Vec<State>)
        requires
            self.wf(),
            prefix % 256 == 0,
            prefix + 256 <= STATE_COUNT,
        ensures
            final(out)@ == old(out)@ + members(|r: int| self.member(r), prefix as int, 0, 256),
    {
        let ghost lk = |r: int| self.member(r);
        let mut r: u64 = 0;
        while r < 256
            invariant
                0 <= r <= 256,
                self.wf(),
                prefix % 256 == 0,
                prefix + 256 <= STATE_COUNT,
                lk == (|r: int| self.member(r)),
                out@ == old(out)@ + members(lk, prefix as int, 0, r as int),
            decreases 256 - r,
        {
            let i5: u64 = r >> 4u64;
            let i6: u64 = r & 15;
            proof {
                lemma_trie_prefix(prefix, r);
            }
            let b: u16 = self.0[i5 as usize].0;
            let bit: u16 = i6 as u16;
            if (b >> bit) & 1 != 0 {
                proof {
                    lemma_bitset_bits(b, bit, 0);
                }
                let key: u64 = prefix | r;
                out.push(State(key));
            }
            assert(out@ =~= old(out)@ + members(lk, prefix as int, 0, r + 1));
            r = r + 1;
        }
    }
}

impl SetBucket3 {
    pub open spec fn wf(self) -> bool {
        &&& self.0.len() == 16
        &&& forall|i: int|
            0 <= i < 16 && (#[trigger] self.0@[i]) is Some ==> self.0@[i].unwrap().wf()
    }

    /// Whether relative key `r` (`0 <= r < 4096`) is in the bucket.
    pub open spec fn member(self, r: int) -> bool {
        match self.0@[r / 256] {
            Some(c) => c.member(r % 256),
            None => false,
        }
    }

    /// A bucket that holds nothing.
    pub fn empty() -> (b: Self)
        ensures
            b.wf(),
            forall|r: int| 0 <= r < 4096 ==> !#[trigger] b.member(r),
    {
        let mut v: Vec<Option<Box<SetBucket4>>> = Vec::new();
        let mut i: u64 = 0;
        while i < 16
            invariant
                0 <= i <= 16,
                v.len() == i,
                forall|j: int| 0 <= j < i ==> v@[j] is None,
            decreases 16 - i,
        {
            v.push(None);
            i = i + 1;
        }
        SetBucket3(v)
    }

    /// Adds `key` (relative to this bucket), and reports whether it was
    /// already there.
    pub fn add(&mut self, key: u64) -> (existed: bool)
        requires
            old(self).wf(),
        ensures
            final(self).wf(),
            forall|r: int|
                0 <= r < 4096 ==> #[trigger] final(self).member(r) == (r == key % 4096 || old(
                    self,
                ).member(r)),
            existed == old(self).member((key % 4096) as int),
    {
        let i: u64 = (key >> 8u64) & 15;
        proof {
            lemma_trie_index(key);
        }
        let taken = self.0[i as usize].take();
        let mut child = match taken {
            Some(c) => c,
            None => Box::new(SetBucket4::empty()),
        };
        let existed = child.add(key);
        self.0.set(i as usize, Some(child));
        proof {
            assert forall|j: int| 0 <= j < 16 && (#[trigger] self.0@[j]) is Some implies self.0@[
                j
            ].unwrap().wf() by {
                if j != i {
                    assert(self.0@[j] == old(self).0@[j]);
                }
            }
            assert forall|r: int| 0 <= r < 4096 implies #[trigger] self.member(r) == (r == key
                % 4096 || old(self).member(r)) by {
                if r / 256 != i {
                    assert(self.0@[r / 256] == old(self).0@[r / 256]);
                    assert(r != key % 4096);
                }
            }
        }
        existed
    }

    /// Appends the keys of this bucket, which start at `prefix`, in
    /// ascending order.
    #[verifier::spinoff_prover]
    #[verifier::rlimit(40)]
    pub fn visit(&self, prefix: u64, out: &mut Vec<State>)
        requires
            self.wf(),
            prefix % 4096 == 0,
            prefix + 4096 <= STATE_COUNT,
        ensures
            final(out)@ == old(out)@ + members(|r: int| self.member(r), prefix as int, 0, 4096),
    {
        let ghost lk = |r: int| self.member(r);
        let mut i: u64 = 0;
        while i < 16
            invariant
                0 <= i <= 16,
                self.wf(),
                prefix % 4096 == 0,
                prefix + 4096 <= STATE_COUNT,
                lk == (|r: int| self.member(r)),
                out@ == old(out)@ + members(lk, prefix as int, 0, i * 256),
            decreases 16 - i,
        {
            let child_prefix: u64 = prefix | (i << 8u64);
            proof {
                lemma_trie_prefix(prefix, i);
            }
            proof {
                lemma_members_split(lk, prefix as int, 0, i * 256, (i + 1) * 256);
            }
            match &self.0[i as usize] {
                Some(c) => {
                    c.visit(child_prefix, out);
                    proof {
                        let cl = |r: int| c.member(r);
                        assert forall|r: int| 0 <= r < 256 implies lk(i * 256 + r) == #[trigger] cl(
                            r,
                        ) by {
                            assert((i * 256 + r) / 256 == i);
                            assert((i * 256 + r) % 256 == r);
                        }
                        lemma_members_shift(lk, cl, prefix as int, i * 256, 0, 256);
                        assert(out@ =~= old(out)@ + members(lk, prefix as int, 0, (i + 1) * 256));
                    }
                },
                None => {
                    proof {
                        assert forall|r: int| i * 256 <= r < (i + 1) * 256 implies !#[trigger] lk(r)
                            by {
                            assert(r / 256 == i);
                        }
                        lemma_members_none(lk, prefix as int, i * 256, (i + 1) * 256);
                        assert(out@ =~= old(out)@ + members(lk, prefix as int, 0, (i + 1) * 256));
                    }
                },
            }
            i = i + 1;
        }
    }
}

impl SetBucket2 {
    pub open spec fn wf(self) -> bool {
        &&& self.0.len() == 16
        &&& forall|i: int|
            0 <= i < 16 && (#[trigger] self.0@[i]) is Some ==> self.0@[i].unwrap().wf()
    }

    /// Whether relative key `r` (`0 <= r < 65536`) is in the bucket.
    pub open spec fn member(self, r: int) -> bool {
        match self.0@[r / 4096] {
            Some(c) => c.member(r % 4096),
            None => false,
        }
    }

    /// A bucket that holds nothing.
    pub fn empty() -> (b: Self)
        ensures
            b.wf(),
            forall|r: int| 0 <= r < 65536 ==> !#[trigger] b.member(r),
    {
        let mut v: Vec<Option<Box<SetBucket3>>> = Vec::new();
        let mut i: u64 = 0;
        while i < 16
            invariant
                0 <= i <= 16,
                v.len() == i,
                forall|j: int| 0 <= j < i ==> v@[j] is None,
            decreases 16 - i,
        {
            v.push(None);
            i = i + 1;
        }
        SetBucket2(v)
    }

    /// Adds `key` (relative to this bucket), and reports whether it was
    /// already there.
    pub fn add(&mut self, key: u64) -> (existed: bool)
        requires
            old(self).wf(),
        ensures
            final(self).wf(),
            forall|r: int|
                0 <= r < 65536 ==> #[trigger] final(self).member(r) == (r == key % 65536 || old(
                    self,
                ).member(r)),
            existed == old(self).member((key % 65536) as int),
    {
        let i: u64 = (key >> 12u64) & 15;
        proof {
            lemma_trie_index(key);
        }
        let taken = self.0[i as usize].take();
        let mut child = match taken {
            Some(c) => c,
            None => Box::new(SetBucket3::empty()),
        };
        let existed = child.add(key);
        self.0.set(i as usize, Some(child));
        proof {
            assert forall|j: int| 0 <= j < 16 && (#[trigger] self.0@[j]) is Some implies self.0@[
                j
            ].unwrap().wf() by {
                if j != i {
                    assert(self.0@[j] == old(self).0@[j]);
                }
            }
            assert forall|r: int| 0 <= r < 65536 implies #[trigger] self.member(r) == (r == key
                % 65536 || old(self).member(r)) by {
                if r / 4096 != i {
                    assert(self.0@[r / 4096] == old(self).0@[r / 4096]);
                    assert(r != key % 65536);
                }
            }
        }
        existed
    }

    /// Appends the keys of this bucket, which start at `prefix`, in
    /// ascending order.
    #[verifier::spinoff_prover]
    #[verifier::rlimit(40)]
    pub fn visit(&self, prefix: u64, out: &mut Vec<State>)
        requires
            self.wf(),
            prefix % 65536 == 0,
            prefix + 65536 <= STATE_COUNT,
        ensures
            final(out)@ == old(out)@ + members(|r: int| self.member(r), prefix as int, 0, 65536),
    {
        let ghost lk = |r: int| self.member(r);
        let mut i: u64 = 0;
        while i < 16
            invariant
                0 <= i <= 16,
                self.wf(),
                prefix % 65536 == 0,
                prefix + 65536 <= STATE_COUNT,
                lk == (|r: int| self.member(r)),
                out@ == old(out)@ + members(lk, prefix as int, 0, i * 4096),
            decreases 16 - i,
        {
            let child_prefix: u64 = prefix | (i << 12u64);
            proof {
                lemma_trie_prefix(prefix, i);
            }
            proof {
                lemma_members_split(lk, prefix as int, 0, i * 4096, (i + 1) * 4096);
            }
            match &self.0[i as usize] {
                Some(c) => {
                    c.visit(child_prefix, out);
                    proof {
                        let cl = |r: int| c.member(r);
                        assert forall|r: int| 0 <= r < 4096 implies lk(i * 4096 + r) == #[trigger] cl(
                            r,
                        ) by {
                            assert((i * 4096 + r) / 4096 == i);
                            assert((i * 4096 + r) % 4096 == r);
                        }
                        lemma_members_shift(lk, cl, prefix as int, i * 4096, 0, 4096);
                        assert(out@ =~= old(out)@ + members(lk, prefix as int, 0, (i + 1) * 4096));
                    }
                },
                None => {
                    proof {
                        assert forall|r: int| i * 4096 <= r < (i + 1) * 4096 implies !#[trigger] lk(r)
                            by {
                            assert(r / 4096 == i);
                        }
                        lemma_members_none(lk, prefix as int, i * 4096, (i + 1) * 4096);
                        assert(out@ =~= old(out)@ + members(lk, prefix as int, 0, (i + 1) * 4096));
                    }
                },
            }
            i = i + 1;
        }
    }
}

impl SetBucket1 {
    pub open spec fn wf(self) -> bool {
        &&& self.0.len() == 16
        &&& forall|i: int|
            0 <= i < 16 && (#[trigger] self.0@[i]) is Some ==> self.0@[i].unwrap().wf()
    }

    /// Whether relative key `r` (`0 <= r < 1048576`) is in the bucket.
    pub open spec fn member(self, r: int) -> bool {
        match self.0@[r / 65536] {
            Some(c) => c.member(r % 65536),
            None => false,
        }
    }

    /// A bucket that holds nothing.
    pub fn empty() -> (b: Self)
        ensures
            b.wf(),
            forall|r: int| 0 <= r < 1048576 ==> !#[trigger] b.member(r),
    {
        let mut v: Vec<Option<Box<SetBucket2>>> = Vec::new();
        let mut i: u64 = 0;
        while i < 16
            invariant
                0 <= i <= 16,
                v.len() == i,
                forall|j: int| 0 <= j < i ==> v@[j] is None,
            decreases 16 - i,
        {
            v.push(None);
            i = i + 1;
        }
        SetBucket1(v)
    }

    /// Adds `key` (relative to this bucket), and reports whether it was
    /// already there.
    pub fn add(&mut self, key: u64) -> (existed: bool)
        requires
            old(self).wf(),
        ensures
            final(self).wf(),
            forall|r: int|
                0 <= r < 1048576 ==> #[trigger] final(self).member(r) == (r == key % 1048576 || old(
                    self,
                ).member(r)),
            existed == old(self).member((key % 1048576) as int),
    {
        let i: u64 = (key >> 16u64) & 15;
        proof {
            lemma_trie_index(key);
        }
        let taken = self.0[i as usize].take();
        let mut child = match taken {
            Some(c) => c,
            None => Box::new(SetBucket2::empty()),
        };
        let existed = child.add(key);
        self.0.set(i as usize, Some(child));
        proof {
            assert forall|j: int| 0 <= j < 16 && (#[trigger] self.0@[j]) is Some implies self.0@[
                j
            ].unwrap().wf() by {
                if j != i {
                    assert(self.0@[j] == old(self).0@[j]);
                }
            }
            assert forall|r: int| 0 <= r < 1048576 implies #[trigger] self.member(r) == (r == key
                % 1048576 || old(self).member(r)) by {
                if r / 65536 != i {
                    assert(self.0@[r / 65536] == old(self).0@[r / 65536]);
                    assert(r != key % 1048576);
                }
            }
        }
        existed
    }

    /// Appends the keys of this bucket, which start at `prefix`, in
    /// ascending order.
    #[verifier::spinoff_prover]
    #[verifier::rlimit(40)]
    pub fn visit(&self, prefix: u64, out: &mut Vec<State>)
        requires
            self.wf(),
            prefix % 1048576 == 0,
            prefix + 1048576 <= STATE_COUNT,
        ensures
            final(out)@ == old(out)@ + members(|r: int| self.member(r), prefix as int, 0, 1048576),
    {
        let ghost lk = |r: int| self.member(r);
        let mut i: u64 = 0;
        while i < 16
            invariant
                0 <= i <= 16,
                self.wf(),
                prefix % 1048576 == 0,
                prefix + 1048576 <= STATE_COUNT,
                lk == (|r: int| self.member(r)),
                out@ == old(out)@ + members(lk, prefix as int, 0, i * 65536),
            decreases 16 - i,
        {
            let child_prefix: u64 = prefix | (i << 16u64);
            proof {
                lemma_trie_prefix(prefix, i);
            }
            proof {
                lemma_members_split(lk, prefix as int, 0, i * 65536, (i + 1) * 65536);
            }
            match &self.0[i as usize] {
                Some(c) => {
                    c.visit(child_prefix, out);
                    proof {
                        let cl = |r: int| c.member(r);
                        assert forall|r: int| 0 <= r < 65536 implies lk(i * 65536 + r) == #[trigger] cl(
                            r,
                        ) by {
                            assert((i * 65536 + r) / 65536 == i);
                            assert((i * 65536 + r) % 65536 == r);
                        }
                        lemma_members_shift(lk, cl, prefix as int, i * 65536, 0, 65536);
                        assert(out@ =~= old(out)@ + members(lk, prefix as int, 0, (i + 1) * 65536));
                    }
                },
                None => {
                    proof {
                        assert forall|r: int| i * 65536 <= r < (i + 1) * 65536 implies !#[trigger] lk(r)
                            by {
                            assert(r / 65536 == i);
                        }
                        lemma_members_none(lk, prefix as int, i * 65536, (i + 1) * 65536);
                        assert(out@ =~= old(out)@ + members(lk, prefix as int, 0, (i + 1) * 65536));
                    }
                },
            }
            i = i + 1;
        }
    }
}

impl SetBucket0 {
    pub open spec fn wf(self) -> bool {
        &&& self.0.len() == 16
        &&& forall|i: int|
            0 <= i < 16 && (#[trigger] self.0@[i]) is Some ==> self.0@[i].unwrap().wf()
    }

    /// Whether relative key `r` (`0 <= r < 16777216`) is in the bucket.
    pub open spec fn member(self, r: int) -> bool {
        match self.0@[r / 1048576] {
            Some(c) => c.member(r % 1048576),
            None => false,
        }
    }

    /// A bucket that holds nothing.
    pub fn empty() -> (b: Self)
        ensures
            b.wf(),
            forall|r: int| 0 <= r < 16777216 ==> !#[trigger] b.member(r),
    {
        let mut v: Vec<Option<Box<SetBucket1>>> = Vec::new();
        let mut i: u64 = 0;
        while i < 16
            invariant
                0 <= i <= 16,
                v.len() == i,
                forall|j: int| 0 <= j < i ==> v@[j] is None,
            decreases 16 - i,
        {
            v.push(None);
            i = i + 1;
        }
        SetBucket0(v)
    }

    /// Adds `key` (relative to this bucket), and reports whether it was
    /// already there.
    pub fn add(&mut self, key: u64) -> (existed: bool)
        requires
            old(self).wf(),
        ensures
            final(self).wf(),
            forall|r: int|
                0 <= r < 16777216 ==> #[trigger] final(self).member(r) == (r == key % 16777216 || old(
                    self,
                ).member(r)),
            existed == old(self).member((key % 16777216) as int),
    {
        let i: u64 = (key >> 20u64) & 15;
        proof {
            lemma_trie_index(key);
        }
        let taken = self.0[i as usize].take();
        let mut child = match taken {
            Some(c) => c,
            None => Box::new(SetBucket1::empty()),
        };
        let existed = child.add(key);
        self.0.set(i as usize, Some(child));
        proof {
            assert forall|j: int| 0 <= j < 16 && (#[trigger] self.0@[j]) is Some implies self.0@[
                j
            ].unwrap().wf() by {
                if j != i {
                    assert(self.0@[j] == old(self).0@[j]);
                }
            }
            assert forall|r: int| 0 <= r < 16777216 implies #[trigger] self.member(r) == (r == key
                % 16777216 || old(self).member(r)) by {
                if r / 1048576 != i {
                    assert(self.0@[r / 1048576] == old(self).0@[r / 1048576]);
                    assert(r != key % 16777216);
                }
            }
        }
        existed
    }

    /// Appends the keys of this bucket, which start at `prefix`, in
    /// ascending order.
    #[verifier::spinoff_prover]
    #[verifier::rlimit(40)]
    pub fn visit(&self, prefix: u64, out: &mut Vec<State>)
        requires
            self.wf(),
            prefix % 16777216 == 0,
            prefix + 16777216 <= STATE_COUNT,
        ensures
            final(out)@ == old(out)@ + members(|r: int| self.member(r), prefix as int, 0, 16777216),
    {
        let ghost lk = |r: int| self.member(r);
        let mut i: u64 = 0;
        while i < 16
            invariant
                0 <= i <= 16,
                self.wf(),
                prefix % 16777216 == 0,
                prefix + 16777216 <= STATE_COUNT,
                lk == (|r: int| self.member(r)),
                out@ == old(out)@ + members(lk, prefix as int, 0, i * 1048576),
            decreases 16 - i,
        {
            let child_prefix: u64 = prefix | (i << 20u64);
            proof {
                lemma_trie_prefix(prefix, i);
            }
            proof {
                lemma_members_split(lk, prefix as int, 0, i * 1048576, (i + 1) * 1048576);
            }
            match &self.0[i as usize] {
                Some(c) => {
                    c.visit(child_prefix, out);
                    proof {
                        let cl = |r: int| c.member(r);
                        assert forall|r: int| 0 <= r < 1048576 implies lk(i * 1048576 + r) == #[trigger] cl(
                            r,
                        ) by {
                            assert((i * 1048576 + r) / 1048576 == i);
                            assert((i * 1048576 + r) % 1048576 == r);
                        }
                        lemma_members_shift(lk, cl, prefix as int, i * 1048576, 0, 1048576);
                        assert(out@ =~= old(out)@ + members(lk, prefix as int, 0, (i + 1) * 1048576));
                    }
                },
                None => {
                    proof {
                        assert forall|r: int| i * 1048576 <= r < (i + 1) * 1048576 implies !#[trigger] lk(r)
                            by {
                            assert(r / 1048576 == i);
                        }
                        lemma_members_none(lk, prefix as int, i * 1048576, (i + 1) * 1048576);
                        assert(out@ =~= old(out)@ + members(lk, prefix as int, 0, (i + 1) * 1048576));
                    }
                },
            }
            i = i + 1;
        }
    }
}

} // verus!

verus! {

/// A set of states, kept as a trie.
pub struct StateTrie {
    raw: Vec<Option<Box<SetBucket0>>>,
}

/// The number of buckets at the root.
pub const ROOT_BUCKETS: u64 = 0x1_0000;

/// The relative keys below a root bucket.
pub const ROOT_BUCKET_SIZE: u64 = 0x100_0000;

impl StateTrie {
    pub closed spec fn wf(self) -> bool {
        &&& self.raw.len() == ROOT_BUCKETS
        &&& forall|i: int|
            0 <= i < ROOT_BUCKETS && (#[trigger] self.raw@[i]) is Some ==> self.raw@[i].unwrap().wf()
    }

    /// Whether key `k` is in the set.
    pub closed spec fn member(self, k: int) -> bool {
        match self.raw@[k / ROOT_BUCKET_SIZE as int] {
            Some(c) => c.member(k % ROOT_BUCKET_SIZE as int),
            None => false,
        }
    }

    /// The keys of the set.
    pub open spec fn view(self) -> Set<u64> {
        Set::new(|k: u64| k < STATE_COUNT && self.member(k as int))
    }

    /// The keys of the set in ascending order.
    pub open spec fn sorted_keys(self) -> Seq<State> {
        members(|r: int| self.member(r), 0, 0, STATE_COUNT as int)
    }

    /// The sorted keys are in strictly ascending order, and are exactly the
    /// keys of the set.
    pub proof fn lemma_sorted_keys(self)
        ensures
            forall|i: int, j: int|
                0 <= i < j < self.sorted_keys().len() ==> self.sorted_keys()[i].0
                    < self.sorted_keys()[j].0,
            forall|i: int|
                0 <= i < self.sorted_keys().len() ==> self@.contains(
                    #[trigger] self.sorted_keys()[i].0,
                ),
            forall|k: u64|
                #[trigger] self@.contains(k) ==> exists|i: int|
                    0 <= i < self.sorted_keys().len() && self.sorted_keys()[i].0 == k,
    {
        let lk = |r: int| self.member(r);
        lemma_members_meaning(lk, 0, 0, STATE_COUNT as int);
        let e = self.sorted_keys();
        assert forall|k: u64| #[trigger] self@.contains(k) implies exists|i: int|
            0 <= i < e.len() && e[i].0 == k by {
            assert(lk(k as int));
        }
    }

    pub fn empty() -> (r: Self)
        ensures
            r.wf(),
            r@ == Set::<u64>::empty(),
    {
        let mut raw: Vec<Option<Box<SetBucket0>>> = Vec::new();
        let mut i: u64 = 0;
        while i < ROOT_BUCKETS
            invariant
                0 <= i <= ROOT_BUCKETS,
                raw.len() == i,
                forall|j: int| 0 <= j < i ==> raw@[j] is None,
            decreases ROOT_BUCKETS - i,
        {
            raw.push(None);
            i = i + 1;
        }
        let r = StateTrie { raw };
        assert(r@ =~= Set::<u64>::empty());
        r
    }

    /// Adds `key`, and reports whether it was already there.
    pub fn add(&mut self, key: u64) -> (existed: bool)
        requires
            old(self).wf(),
            key < STATE_COUNT,
        ensures
            final(self).wf(),
            final(self)@ == old(self)@.insert(key),
            existed == old(self)@.contains(key),
    {
        let i: u64 = key >> 24u64;
        proof {
            lemma_trie_index(key);
        }
        let taken = self.raw[i as usize].take();
        let mut child = match taken {
            Some(c) => c,
            None => Box::new(SetBucket0::empty()),
        };
        let existed = child.add(key);
        self.raw.set(i as usize, Some(child));
        proof {
            assert forall|j: int|
                0 <= j < ROOT_BUCKETS && (#[trigger] self.raw@[j]) is Some implies self.raw@[
                j
            ].unwrap().wf() by {
                if j != i {
                    assert(self.raw@[j] == old(self).raw@[j]);
                }
            }
            assert forall|k: int| 0 <= k < STATE_COUNT implies #[trigger] self.member(k) == (k
                == key || old(self).member(k)) by {
                if k / ROOT_BUCKET_SIZE as int != i {
                    assert(self.raw@[k / ROOT_BUCKET_SIZE as int] == old(self).raw@[k
                        / ROOT_BUCKET_SIZE as int]);
                } else {
                    assert(k % ROOT_BUCKET_SIZE as int == key % 0x100_0000 <==> k == key);
                }
            }
            assert(self@ =~= old(self)@.insert(key));
        }
        existed
    }

    /// Appends the keys in ascending order (see `lemma_sorted_keys`).
    #[verifier::spinoff_prover]
    #[verifier::rlimit(40)]
    pub fn visit_in_order(&self, out: &mut Vec<State>)
        requires
            self.wf(),
        ensures
            final(out)@ == old(out)@ + self.sorted_keys(),
    {
        let ghost lk = |r: int| self.member(r);
        let mut i: u64 = 0;
        while i < ROOT_BUCKETS
            invariant
                0 <= i <= ROOT_BUCKETS,
                self.wf(),
                lk == (|r: int| self.member(r)),
                out@ == old(out)@ + members(lk, 0, 0, i * ROOT_BUCKET_SIZE),
            decreases ROOT_BUCKETS - i,
        {
            let prefix: u64 = i << 24u64;
            proof {
                lemma_trie_prefix(0, i);
            }
            proof {
                lemma_members_split(lk, 0, 0, i * ROOT_BUCKET_SIZE, (i + 1) * ROOT_BUCKET_SIZE);
            }
            match &self.raw[i as usize] {
                Some(c) => {
                    c.visit(prefix, out);
                    proof {
                        let cl = |r: int| c.member(r);
                        assert forall|r: int| 0 <= r < ROOT_BUCKET_SIZE implies lk(
                            i * ROOT_BUCKET_SIZE + r,
                        ) == #[trigger] cl(r) by {
                            assert((i * ROOT_BUCKET_SIZE + r) / ROOT_BUCKET_SIZE as int == i);
                            assert((i * ROOT_BUCKET_SIZE + r) % ROOT_BUCKET_SIZE as int == r);
                        }
                        lemma_members_shift(
                            lk,
                            cl,
                            0,
                            i * ROOT_BUCKET_SIZE,
                            0,
                            ROOT_BUCKET_SIZE as int,
                        );
                        assert(out@ =~= old(out)@ + members(lk, 0, 0, (i + 1) * ROOT_BUCKET_SIZE));
                    }
                },
                None => {
                    proof {
                        assert forall|r: int|
                            i * ROOT_BUCKET_SIZE <= r < (i + 1) * ROOT_BUCKET_SIZE implies !#[trigger] lk(
                            r,
                        ) by {
                            assert(r / ROOT_BUCKET_SIZE as int == i);
                        }
                        lemma_members_none(lk, 0, i * ROOT_BUCKET_SIZE, (i + 1) * ROOT_BUCKET_SIZE);
                        assert(out@ =~= old(out)@ + members(lk, 0, 0, (i + 1) * ROOT_BUCKET_SIZE));
                    }
                },
            }
            i = i + 1;
        }
    }

    /// Adds every key of `other`.
    pub fn add_all(&mut self, other: &Self)
        requires
            old(self).wf(),
            other.wf(),
        ensures
            final(self).wf(),
            final(self)@ == old(self)@.union(other@),
    {
        let mut keys: Vec<State> = Vec::new();
        other.visit_in_order(&mut keys);
        proof {
            other.lemma_sorted_keys();
            assert(keys@ =~= other.sorted_keys());
        }
        let ghost e = other.sorted_keys();
        let mut idx: usize = 0;
        while idx < keys.len()
            invariant
                0 <= idx <= keys.len(),
                keys@ == e,
                e == other.sorted_keys(),
                self.wf(),
                forall|i: int| 0 <= i < e.len() ==> other@.contains(#[trigger] e[i].0),
                self@ == old(self)@.union(Set::new(|k: u64| exists|j: int| 0 <= j < idx && e[j].0 == k)),
            decreases keys.len() - idx,
        {
            let key = keys[idx].0;
            assert(other@.contains(key));
            self.add(key);
            proof {
                let before = Set::new(|k: u64| exists|j: int| 0 <= j < idx && e[j].0 == k);
                let after = Set::new(|k: u64| exists|j: int| 0 <= j < idx + 1 && e[j].0 == k);
                assert forall|k: u64| after.contains(k) == (before.contains(k) || k == key) by {
                    if k == key {
                        assert(e[idx as int].0 == k);
                    } else if after.contains(k) {
                        let j = choose|j: int| 0 <= j < idx + 1 && e[j].0 == k;
                        assert(j < idx);
                    }
                }
                assert(self@ =~= old(self)@.union(after));
            }
            idx = idx + 1;
        }
        proof {
            let all = Set::new(|k: u64| exists|j: int| 0 <= j < idx && e[j].0 == k);
            assert forall|k: u64| all.contains(k) == other@.contains(k) by {
                if other@.contains(k) {
                    let i = choose|i: int| 0 <= i < e.len() && e[i].0 == k;
                }
            }
            assert(all =~= other@);
        }
    }
}

} // verus!
