//! A map from states to values, stored as a trie keyed by the bits of the
//! state: 16 bits at the root, then six levels of 4 bits each.
use vstd::prelude::*;
use crate::state::{
    lemma_trie_index, lemma_trie_prefix,
    Null, State, STATE_COUNT, entries, lemma_entries_all_null, lemma_entries_shift,
    lemma_entries_split,
};

verus! {

/// A bucket of two levels below the root (relative keys below `2^24`).
pub struct Bucket0<T>(pub Vec<Option<Box<Bucket1<T>>>>);

/// Relative keys below `2^20`.
pub struct Bucket1<T>(pub Vec<Option<Box<Bucket2<T>>>>);

/// Relative keys below `2^16`.
pub struct Bucket2<T>(pub Vec<Option<Box<Bucket3<T>>>>);

/// Relative keys below `2^12`.
pub struct Bucket3<T>(pub Vec<Option<Box<Bucket4<T>>>>);

/// Relative keys below `2^8`.
pub struct Bucket4<T>(pub Vec<Option<Box<Bucket5<T>>>>);

/// The leaves: sixteen values.
pub struct Bucket5<T>(pub Vec<T>);

/// Whether an added key was already there.
#[derive(Clone, Copy, Debug)]
pub struct DidAddendAlreadyExist {
    pub did_addend_already_exist: bool,
}

impl<T: Null> Bucket5<T> {
    pub open spec fn wf(self) -> bool {
        self.0.len() == 16
    }

    /// The value at relative key `r` (`0 <= r < 16`).
    pub open spec fn lookup(self, r: int) -> T {
        self.0@[r]
    }

    /// A bucket that holds nothing.
    pub fn null() -> (b: Self)
        ensures
            b.wf(),
            forall|r: int| 0 <= r < 16 ==> #[trigger] b.lookup(r) == T::spec_null(),
    {
        let mut v: Vec<T> = Vec::new();
        let mut i: u64 = 0;
        while i < 16
            invariant
                0 <= i <= 16,
                v.len() == i,
                forall|j: int| 0 <= j < i ==> v@[j] == T::spec_null(),
            decreases 16 - i,
        {
            v.push(T::null());
            i = i + 1;
        }
        Bucket5(v)
    }

    pub fn get(&self, key: u64) -> (v: T)
        requires
            self.wf(),
        ensures
            v == self.lookup((key % 16) as int),
    {
        let i: u64 = key & 15;
        proof {
            lemma_trie_index(key);
        }
        self.0[i as usize]
    }

    /// A mutable reference to the value at `key` (relative to this bucket),
    /// if that value is not null.
    pub fn get_mut(&mut self, key: u64) -> (r: Option<&mut T>)
        requires
            old(self).wf(),
        ensures
            final(self).wf(),
            match r {
                Some(m) => {
                    &&& *m == old(self).lookup((key % 16) as int)
                    &&& *m != T::spec_null()
                    &&& forall|q: int|
                        0 <= q < 16 ==> #[trigger] final(self).lookup(q) == (if q == key % 16 {
                            *final(m)
                        } else {
                            old(self).lookup(q)
                        })
                },
                None => {
                    &&& old(self).lookup((key % 16) as int) == T::spec_null()
                    &&& forall|q: int|
                        0 <= q < 16 ==> #[trigger] final(self).lookup(q) == old(self).lookup(q)
                },
            },
    {
        let i: u64 = key & 15;
        proof {
            lemma_trie_index(key);
        }
        let out = &mut self.0[i as usize];
        if out.is_null() {
            return None;
        }
        Some(out)
    }

    /// Sets the value at `key` (relative to this bucket) to `value`, and
    /// reports whether a non-null value was there.
    pub fn add(&mut self, key: u64, value: T) -> (existed: bool)
        requires
            old(self).wf(),
        ensures
            final(self).wf(),
            forall|r: int|
                0 <= r < 16 ==> #[trigger] final(self).lookup(r) == (if r == key % 16 {
                    value
                } else {
                    old(self).lookup(r)
                }),
            existed == (old(self).lookup((key % 16) as int) != T::spec_null()),
    {
        let i: u64 = key & 15;
        proof {
            lemma_trie_index(key);
        }
        let existed = !self.0[i as usize].is_null();
        self.0.set(i as usize, value);
        existed
    }

    /// Appends the entries of this bucket, whose keys start at `prefix`, in
    /// ascending order of key.
    #[verifier::spinoff_prover]
    #[verifier::rlimit(40)]
    pub fn visit(&self, prefix: u64, out: &mut Vec<(State, T)>)
        requires
            self.wf(),
            prefix % 16 == 0,
            prefix + 16 <= STATE_COUNT,
        ensures
            final(out)@ == old(out)@ + entries(
                |r: int| self.lookup(r),
                T::spec_null(),
                prefix as int,
                0,
                16,
            ),
    {
        let ghost lk = |r: int| self.lookup(r);
        let mut i: u64 = 0;
        while i < 16
            invariant
                0 <= i <= 16,
                self.wf(),
                prefix % 16 == 0,
                prefix + 16 <= STATE_COUNT,
                lk == (|r: int| self.lookup(r)),
                out@ == old(out)@ + entries(lk, T::spec_null(), prefix as int, 0, i as int),
            decreases 16 - i,
        {
            let item = self.0[i as usize];
            if !item.is_null() {
                let key: u64 = prefix | i;
                proof {
                    lemma_trie_prefix(prefix, i);
                }
                out.push((State(key), item));
            }
            assert(out@ =~= old(out)@ + entries(lk, T::spec_null(), prefix as int, 0, i + 1));
            i = i + 1;
        }
    }
}

impl<T: Null> Bucket4<T> {
    pub open spec fn wf(self) -> bool {
        &&& self.0.len() == 16
        &&& forall|i: int|
            0 <= i < 16 && (#[trigger] self.0@[i]) is Some ==> self.0@[i].unwrap().wf()
    }

    /// The value at relative key `r` (`0 <= r < 256`).
    pub open spec fn lookup(self, r: int) -> T {
        match self.0@[r / 16] {
            Some(c) => c.lookup(r % 16),
            None => T::spec_null(),
        }
    }

    /// A bucket that holds nothing.
    pub fn null() -> (b: Self)
        ensures
            b.wf(),
            forall|r: int| 0 <= r < 256 ==> #[trigger] b.lookup(r) == T::spec_null(),
    {
        let mut v: Vec<Option<Box<Bucket5<T>>>> = Vec::new();
        let mut i: u64 = 0;
        while i < 16
            invariant
                0 <= i <= 16,
                v.len() == i,
                forall|j: int| 0 <= j < i ==> v@[j] is None,
            decreases 16 - i,
        {
            v.push(None);
            i = i + 1;
        }
        Bucket4(v)
    }

    pub fn get(&self, key: u64) -> (v: T)
        requires
            self.wf(),
        ensures
            v == self.lookup((key % 256) as int),
    {
        let i: u64 = (key >> 4u64) & 15;
        proof {
            lemma_trie_index(key);
        }
        match &self.0[i as usize] {
            Some(c) => c.get(key),
            None => T::null(),
        }
    }

    /// A mutable reference to the value at `key` (relative to this bucket),
    /// if that value is not null.
    pub fn get_mut(&mut self, key: u64) -> (r: Option<&mut T>)
        requires
            old(self).wf(),
        ensures
            final(self).wf(),
            match r {
                Some(m) => {
                    &&& *m == old(self).lookup((key % 256) as int)
                    &&& *m != T::spec_null()
                    &&& forall|q: int|
                        0 <= q < 256 ==> #[trigger] final(self).lookup(q) == (if q == key % 256 {
                            *final(m)
                        } else {
                            old(self).lookup(q)
                        })
                },
                None => {
                    &&& old(self).lookup((key % 256) as int) == T::spec_null()
                    &&& forall|q: int|
                        0 <= q < 256 ==> #[trigger] final(self).lookup(q) == old(self).lookup(q)
                },
            },
    {
        let i: u64 = (key >> 4u64) & 15;
        proof {
            lemma_trie_index(key);
        }
        match self.0[i as usize].as_mut() {
            Some(c) => c.get_mut(key),
            None => None,
        }
    }

    /// Sets the value at `key` (relative to this bucket) to `value`, and
    /// reports whether a non-null value was there.
    pub fn add(&mut self, key: u64, value: T) -> (existed: bool)
        requires
            old(self).wf(),
        ensures
            final(self).wf(),
            forall|r: int|
                0 <= r < 256 ==> #[trigger] final(self).lookup(r) == (if r == key % 256 {
                    value
                } else {
                    old(self).lookup(r)
                }),
            existed == (old(self).lookup((key % 256) as int) != T::spec_null()),
    {
        let i: u64 = (key >> 4u64) & 15;
        proof {
            lemma_trie_index(key);
        }
        let taken = self.0[i as usize].take();
        let mut child = match taken {
            Some(c) => c,
            None => Box::new(Bucket5::null()),
        };
        let existed = child.add(key, value);
        self.0.set(i as usize, Some(child));
        proof {
            assert forall|j: int| 0 <= j < 16 && (#[trigger] self.0@[j]) is Some implies self.0@[
                j
            ].unwrap().wf() by {
                if j != i {
                    assert(self.0@[j] == old(self).0@[j]);
                }
            }
            assert forall|r: int| 0 <= r < 256 implies #[trigger] self.lookup(r) == (if r == key
                % 256 {
                value
            } else {
                old(self).lookup(r)
            }) by {
                if r / 16 != i {
                    assert(self.0@[r / 16] == old(self).0@[r / 16]);
                    assert(r != key % 256);
                }
            }
        }
        existed
    }

    /// Appends the entries of this bucket, whose keys start at `prefix`, in
    /// ascending order of key.
    #[verifier::spinoff_prover]
    #[verifier::rlimit(40)]
    pub fn visit(&self, prefix: u64, out: &mut Vec<(State, T)>)
        requires
            self.wf(),
            prefix % 256 == 0,
            prefix + 256 <= STATE_COUNT,
        ensures
            final(out)@ == old(out)@ + entries(
                |r: int| self.lookup(r),
                T::spec_null(),
                prefix as int,
                0,
                256,
            ),
    {
        let ghost lk = |r: int| self.lookup(r);
        let mut i: u64 = 0;
        while i < 16
            invariant
                0 <= i <= 16,
                self.wf(),
                prefix % 256 == 0,
                prefix + 256 <= STATE_COUNT,
                lk == (|r: int| self.lookup(r)),
                out@ == old(out)@ + entries(lk, T::spec_null(), prefix as int, 0, i * 16),
            decreases 16 - i,
        {
            let child_prefix: u64 = prefix | (i << 4u64);
            proof {
                lemma_trie_prefix(prefix, i);
            }
            let ghost before = out@;
            proof {
                lemma_entries_split(
                    lk,
                    T::spec_null(),
                    prefix as int,
                    0,
                    i * 16,
                    (i + 1) * 16,
                );
            }
            match &self.0[i as usize] {
                Some(c) => {
                    c.visit(child_prefix, out);
                    proof {
                        let cl = |r: int| c.lookup(r);
                        assert forall|r: int| 0 <= r < 16 implies lk(i * 16 + r) == #[trigger] cl(
                            r,
                        ) by {
                            assert((i * 16 + r) / 16 == i);
                            assert((i * 16 + r) % 16 == r);
                        }
                        lemma_entries_shift(
                            lk,
                            cl,
                            T::spec_null(),
                            prefix as int,
                            i * 16,
                            0,
                            16,
                        );
                        assert(out@ =~= old(out)@ + entries(
                            lk,
                            T::spec_null(),
                            prefix as int,
                            0,
                            (i + 1) * 16,
                        ));
                    }
                },
                None => {
                    proof {
                        assert forall|r: int| i * 16 <= r < (i + 1) * 16 implies #[trigger] lk(r)
                            == T::spec_null() by {
                            assert(r / 16 == i);
                        }
                        lemma_entries_all_null(
                            lk,
                            T::spec_null(),
                            prefix as int,
                            i * 16,
                            (i + 1) * 16,
                        );
                        assert(out@ =~= old(out)@ + entries(
                            lk,
                            T::spec_null(),
                            prefix as int,
                            0,
                            (i + 1) * 16,
                        ));
                    }
                },
            }
            i = i + 1;
        }
    }
}

impl<T: Null> Bucket3<T> {
    pub open spec fn wf(self) -> bool {
        &&& self.0.len() == 16
        &&& forall|i: int|
            0 <= i < 16 && (#[trigger] self.0@[i]) is Some ==> self.0@[i].unwrap().wf()
    }

    /// The value at relative key `r` (`0 <= r < 4096`).
    pub open spec fn lookup(self, r: int) -> T {
        match self.0@[r / 256] {
            Some(c) => c.lookup(r % 256),
            None => T::spec_null(),
        }
    }

    /// A bucket that holds nothing.
    pub fn null() -> (b: Self)
        ensures
            b.wf(),
            forall|r: int| 0 <= r < 4096 ==> #[trigger] b.lookup(r) == T::spec_null(),
    {
        let mut v: Vec<Option<Box<Bucket4<T>>>> = Vec::new();
        let mut i: u64 = 0;
        while i < 16
            invariant
                0 <= i <= 16,
                v.len() == i,
                forall|j: int| 0 <= j < i ==> v@[j] is None,
            decreases 16 - i,
        {
            v.push(None);
            i = i + 1;
        }
        Bucket3(v)
    }

    pub fn get(&self, key: u64) -> (v: T)
        requires
            self.wf(),
        ensures
            v == self.lookup((key % 4096) as int),
    {
        let i: u64 = (key >> 8u64) & 15;
        proof {
            lemma_trie_index(key);
        }
        match &self.0[i as usize] {
            Some(c) => c.get(key),
            None => T::null(),
        }
    }

    /// A mutable reference to the value at `key` (relative to this bucket),
    /// if that value is not null.
    pub fn get_mut(&mut self, key: u64) -> (r: Option<&mut T>)
        requires
            old(self).wf(),
        ensures
            final(self).wf(),
            match r {
                Some(m) => {
                    &&& *m == old(self).lookup((key % 4096) as int)
                    &&& *m != T::spec_null()
                    &&& forall|q: int|
                        0 <= q < 4096 ==> #[trigger] final(self).lookup(q) == (if q == key % 4096 {
                            *final(m)
                        } else {
                            old(self).lookup(q)
                        })
                },
                None => {
                    &&& old(self).lookup((key % 4096) as int) == T::spec_null()
                    &&& forall|q: int|
                        0 <= q < 4096 ==> #[trigger] final(self).lookup(q) == old(self).lookup(q)
                },
            },
    {
        let i: u64 = (key >> 8u64) & 15;
        proof {
            lemma_trie_index(key);
        }
        match self.0[i as usize].as_mut() {
            Some(c) => c.get_mut(key),
            None => None,
        }
    }

    /// Sets the value at `key` (relative to this bucket) to `value`, and
    /// reports whether a non-null value was there.
    pub fn add(&mut self, key: u64, value: T) -> (existed: bool)
        requires
            old(self).wf(),
        ensures
            final(self).wf(),
            forall|r: int|
                0 <= r < 4096 ==> #[trigger] final(self).lookup(r) == (if r == key % 4096 {
                    value
                } else {
                    old(self).lookup(r)
                }),
            existed == (old(self).lookup((key % 4096) as int) != T::spec_null()),
    {
        let i: u64 = (key >> 8u64) & 15;
        proof {
            lemma_trie_index(key);
        }
        let taken = self.0[i as usize].take();
        let mut child = match taken {
            Some(c) => c,
            None => Box::new(Bucket4::null()),
        };
        let existed = child.add(key, value);
        self.0.set(i as usize, Some(child));
        proof {
            assert forall|j: int| 0 <= j < 16 && (#[trigger] self.0@[j]) is Some implies self.0@[
                j
            ].unwrap().wf() by {
                if j != i {
                    assert(self.0@[j] == old(self).0@[j]);
                }
            }
            assert forall|r: int| 0 <= r < 4096 implies #[trigger] self.lookup(r) == (if r == key
                % 4096 {
                value
            } else {
                old(self).lookup(r)
            }) by {
                if r / 256 != i {
                    assert(self.0@[r / 256] == old(self).0@[r / 256]);
                    assert(r != key % 4096);
                }
            }
        }
        existed
    }

    /// Appends the entries of this bucket, whose keys start at `prefix`, in
    /// ascending order of key.
    #[verifier::spinoff_prover]
    #[verifier::rlimit(40)]
    pub fn visit(&self, prefix: u64, out: &mut Vec<(State, T)>)
        requires
            self.wf(),
            prefix % 4096 == 0,
            prefix + 4096 <= STATE_COUNT,
        ensures
            final(out)@ == old(out)@ + entries(
                |r: int| self.lookup(r),
                T::spec_null(),
                prefix as int,
                0,
                4096,
            ),
    {
        let ghost lk = |r: int| self.lookup(r);
        let mut i: u64 = 0;
        while i < 16
            invariant
                0 <= i <= 16,
                self.wf(),
                prefix % 4096 == 0,
                prefix + 4096 <= STATE_COUNT,
                lk == (|r: int| self.lookup(r)),
                out@ == old(out)@ + entries(lk, T::spec_null(), prefix as int, 0, i * 256),
            decreases 16 - i,
        {
            let child_prefix: u64 = prefix | (i << 8u64);
            proof {
                lemma_trie_prefix(prefix, i);
            }
            let ghost before = out@;
            proof {
                lemma_entries_split(
                    lk,
                    T::spec_null(),
                    prefix as int,
                    0,
                    i * 256,
                    (i + 1) * 256,
                );
            }
            match &self.0[i as usize] {
                Some(c) => {
                    c.visit(child_prefix, out);
                    proof {
                        let cl = |r: int| c.lookup(r);
                        assert forall|r: int| 0 <= r < 256 implies lk(i * 256 + r) == #[trigger] cl(
                            r,
                        ) by {
                            assert((i * 256 + r) / 256 == i);
                            assert((i * 256 + r) % 256 == r);
                        }
                        lemma_entries_shift(
                            lk,
                            cl,
                            T::spec_null(),
                            prefix as int,
                            i * 256,
                            0,
                            256,
                        );
                        assert(out@ =~= old(out)@ + entries(
                            lk,
                            T::spec_null(),
                            prefix as int,
                            0,
                            (i + 1) * 256,
                        ));
                    }
                },
                None => {
                    proof {
                        assert forall|r: int| i * 256 <= r < (i + 1) * 256 implies #[trigger] lk(r)
                            == T::spec_null() by {
                            assert(r / 256 == i);
                        }
                        lemma_entries_all_null(
                            lk,
                            T::spec_null(),
                            prefix as int,
                            i * 256,
                            (i + 1) * 256,
                        );
                        assert(out@ =~= old(out)@ + entries(
                            lk,
                            T::spec_null(),
                            prefix as int,
                            0,
                            (i + 1) * 256,
                        ));
                    }
                },
            }
            i = i + 1;
        }
    }
}

impl<T: Null> Bucket2<T> {
    pub open spec fn wf(self) -> bool {
        &&& self.0.len() == 16
        &&& forall|i: int|
            0 <= i < 16 && (#[trigger] self.0@[i]) is Some ==> self.0@[i].unwrap().wf()
    }

    /// The value at relative key `r` (`0 <= r < 65536`).
    pub open spec fn lookup(self, r: int) -> T {
        match self.0@[r / 4096] {
            Some(c) => c.lookup(r % 4096),
            None => T::spec_null(),
        }
    }

    /// A bucket that holds nothing.
    pub fn null() -> (b: Self)
        ensures
            b.wf(),
            forall|r: int| 0 <= r < 65536 ==> #[trigger] b.lookup(r) == T::spec_null(),
    {
        let mut v: Vec<Option<Box<Bucket3<T>>>> = Vec::new();
        let mut i: u64 = 0;
        while i < 16
            invariant
                0 <= i <= 16,
                v.len() == i,
                forall|j: int| 0 <= j < i ==> v@[j] is None,
            decreases 16 - i,
        {
            v.push(None);
            i = i + 1;
        }
        Bucket2(v)
    }

    pub fn get(&self, key: u64) -> (v: T)
        requires
            self.wf(),
        ensures
            v == self.lookup((key % 65536) as int),
    {
        let i: u64 = (key >> 12u64) & 15;
        proof {
            lemma_trie_index(key);
        }
        match &self.0[i as usize] {
            Some(c) => c.get(key),
            None => T::null(),
        }
    }

    /// A mutable reference to the value at `key` (relative to this bucket),
    /// if that value is not null.
    pub fn get_mut(&mut self, key: u64) -> (r: Option<&mut T>)
        requires
            old(self).wf(),
        ensures
            final(self).wf(),
            match r {
                Some(m) => {
                    &&& *m == old(self).lookup((key % 0x1_0000) as int)
                    &&& *m != T::spec_null()
                    &&& forall|q: int|
                        0 <= q < 0x1_0000 ==> #[trigger] final(self).lookup(q) == (if q == key % 0x1_0000 {
                            *final(m)
                        } else {
                            old(self).lookup(q)
                        })
                },
                None => {
                    &&& old(self).lookup((key % 0x1_0000) as int) == T::spec_null()
                    &&& forall|q: int|
                        0 <= q < 0x1_0000 ==> #[trigger] final(self).lookup(q) == old(self).lookup(q)
                },
            },
    {
        let i: u64 = (key >> 12u64) & 15;
        proof {
            lemma_trie_index(key);
        }
        match self.0[i as usize].as_mut() {
            Some(c) => c.get_mut(key),
            None => None,
        }
    }

    /// Sets the value at `key` (relative to this bucket) to `value`, and
    /// reports whether a non-null value was there.
    pub fn add(&mut self, key: u64, value: T) -> (existed: bool)
        requires
            old(self).wf(),
        ensures
            final(self).wf(),
            forall|r: int|
                0 <= r < 65536 ==> #[trigger] final(self).lookup(r) == (if r == key % 65536 {
                    value
                } else {
                    old(self).lookup(r)
                }),
            existed == (old(self).lookup((key % 65536) as int) != T::spec_null()),
    {
        let i: u64 = (key >> 12u64) & 15;
        proof {
            lemma_trie_index(key);
        }
        let taken = self.0[i as usize].take();
        let mut child = match taken {
            Some(c) => c,
            None => Box::new(Bucket3::null()),
        };
        let existed = child.add(key, value);
        self.0.set(i as usize, Some(child));
        proof {
            assert forall|j: int| 0 <= j < 16 && (#[trigger] self.0@[j]) is Some implies self.0@[
                j
            ].unwrap().wf() by {
                if j != i {
                    assert(self.0@[j] == old(self).0@[j]);
                }
            }
            assert forall|r: int| 0 <= r < 65536 implies #[trigger] self.lookup(r) == (if r == key
                % 65536 {
                value
            } else {
                old(self).lookup(r)
            }) by {
                if r / 4096 != i {
                    assert(self.0@[r / 4096] == old(self).0@[r / 4096]);
                    assert(r != key % 65536);
                }
            }
        }
        existed
    }

    /// Appends the entries of this bucket, whose keys start at `prefix`, in
    /// ascending order of key.
    #[verifier::spinoff_prover]
    #[verifier::rlimit(40)]
    pub fn visit(&self, prefix: u64, out: &mut Vec<(State, T)>)
        requires
            self.wf(),
            prefix % 65536 == 0,
            prefix + 65536 <= STATE_COUNT,
        ensures
            final(out)@ == old(out)@ + entries(
                |r: int| self.lookup(r),
                T::spec_null(),
                prefix as int,
                0,
                65536,
            ),
    {
        let ghost lk = |r: int| self.lookup(r);
        let mut i: u64 = 0;
        while i < 16
            invariant
                0 <= i <= 16,
                self.wf(),
                prefix % 65536 == 0,
                prefix + 65536 <= STATE_COUNT,
                lk == (|r: int| self.lookup(r)),
                out@ == old(out)@ + entries(lk, T::spec_null(), prefix as int, 0, i * 4096),
            decreases 16 - i,
        {
            let child_prefix: u64 = prefix | (i << 12u64);
            proof {
                lemma_trie_prefix(prefix, i);
            }
            let ghost before = out@;
            proof {
                lemma_entries_split(
                    lk,
                    T::spec_null(),
                    prefix as int,
                    0,
                    i * 4096,
                    (i + 1) * 4096,
                );
            }
            match &self.0[i as usize] {
                Some(c) => {
                    c.visit(child_prefix, out);
                    proof {
                        let cl = |r: int| c.lookup(r);
                        assert forall|r: int| 0 <= r < 4096 implies lk(i * 4096 + r) == #[trigger] cl(
                            r,
                        ) by {
                            assert((i * 4096 + r) / 4096 == i);
                            assert((i * 4096 + r) % 4096 == r);
                        }
                        lemma_entries_shift(
                            lk,
                            cl,
                            T::spec_null(),
                            prefix as int,
                            i * 4096,
                            0,
                            4096,
                        );
                        assert(out@ =~= old(out)@ + entries(
                            lk,
                            T::spec_null(),
                            prefix as int,
                            0,
                            (i + 1) * 4096,
                        ));
                    }
                },
                None => {
                    proof {
                        assert forall|r: int| i * 4096 <= r < (i + 1) * 4096 implies #[trigger] lk(r)
                            == T::spec_null() by {
                            assert(r / 4096 == i);
                        }
                        lemma_entries_all_null(
                            lk,
                            T::spec_null(),
                            prefix as int,
                            i * 4096,
                            (i + 1) * 4096,
                        );
                        assert(out@ =~= old(out)@ + entries(
                            lk,
                            T::spec_null(),
                            prefix as int,
                            0,
                            (i + 1) * 4096,
                        ));
                    }
                },
            }
            i = i + 1;
        }
    }
}

impl<T: Null> Bucket1<T> {
    pub open spec fn wf(self) -> bool {
        &&& self.0.len() == 16
        &&& forall|i: int|
            0 <= i < 16 && (#[trigger] self.0@[i]) is Some ==> self.0@[i].unwrap().wf()
    }

    /// The value at relative key `r` (`0 <= r < 1048576`).
    pub open spec fn lookup(self, r: int) -> T {
        match self.0@[r / 65536] {
            Some(c) => c.lookup(r % 65536),
            None => T::spec_null(),
        }
    }

    /// A bucket that holds nothing.
    pub fn null() -> (b: Self)
        ensures
            b.wf(),
            forall|r: int| 0 <= r < 1048576 ==> #[trigger] b.lookup(r) == T::spec_null(),
    {
        let mut v: Vec<Option<Box<Bucket2<T>>>> = Vec::new();
        let mut i: u64 = 0;
        while i < 16
            invariant
                0 <= i <= 16,
                v.len() == i,
                forall|j: int| 0 <= j < i ==> v@[j] is None,
            decreases 16 - i,
        {
            v.push(None);
            i = i + 1;
        }
        Bucket1(v)
    }

    pub fn get(&self, key: u64) -> (v: T)
        requires
            self.wf(),
        ensures
            v == self.lookup((key % 1048576) as int),
    {
        let i: u64 = (key >> 16u64) & 15;
        proof {
            lemma_trie_index(key);
        }
        match &self.0[i as usize] {
            Some(c) => c.get(key),
            None => T::null(),
        }
    }

    /// A mutable reference to the value at `key` (relative to this bucket),
    /// if that value is not null.
    pub fn get_mut(&mut self, key: u64) -> (r: Option<&mut T>)
        requires
            old(self).wf(),
        ensures
            final(self).wf(),
            match r {
                Some(m) => {
                    &&& *m == old(self).lookup((key % 0x10_0000) as int)
                    &&& *m != T::spec_null()
                    &&& forall|q: int|
                        0 <= q < 0x10_0000 ==> #[trigger] final(self).lookup(q) == (if q == key % 0x10_0000 {
                            *final(m)
                        } else {
                            old(self).lookup(q)
                        })
                },
                None => {
                    &&& old(self).lookup((key % 0x10_0000) as int) == T::spec_null()
                    &&& forall|q: int|
                        0 <= q < 0x10_0000 ==> #[trigger] final(self).lookup(q) == old(self).lookup(q)
                },
            },
    {
        let i: u64 = (key >> 16u64) & 15;
        proof {
            lemma_trie_index(key);
        }
        match self.0[i as usize].as_mut() {
            Some(c) => c.get_mut(key),
            None => None,
        }
    }

    /// Sets the value at `key` (relative to this bucket) to `value`, and
    /// reports whether a non-null value was there.
    pub fn add(&mut self, key: u64, value: T) -> (existed: bool)
        requires
            old(self).wf(),
        ensures
            final(self).wf(),
            forall|r: int|
                0 <= r < 1048576 ==> #[trigger] final(self).lookup(r) == (if r == key % 1048576 {
                    value
                } else {
                    old(self).lookup(r)
                }),
            existed == (old(self).lookup((key % 1048576) as int) != T::spec_null()),
    {
        let i: u64 = (key >> 16u64) & 15;
        proof {
            lemma_trie_index(key);
        }
        let taken = self.0[i as usize].take();
        let mut child = match taken {
            Some(c) => c,
            None => Box::new(Bucket2::null()),
        };
        let existed = child.add(key, value);
        self.0.set(i as usize, Some(child));
        proof {
            assert forall|j: int| 0 <= j < 16 && (#[trigger] self.0@[j]) is Some implies self.0@[
                j
            ].unwrap().wf() by {
                if j != i {
                    assert(self.0@[j] == old(self).0@[j]);
                }
            }
            assert forall|r: int| 0 <= r < 1048576 implies #[trigger] self.lookup(r) == (if r == key
                % 1048576 {
                value
            } else {
                old(self).lookup(r)
            }) by {
                if r / 65536 != i {
                    assert(self.0@[r / 65536] == old(self).0@[r / 65536]);
                    assert(r != key % 1048576);
                }
            }
        }
        existed
    }

    /// Appends the entries of this bucket, whose keys start at `prefix`, in
    /// ascending order of key.
    #[verifier::spinoff_prover]
    #[verifier::rlimit(40)]
    pub fn visit(&self, prefix: u64, out: &mut Vec<(State, T)>)
        requires
            self.wf(),
            prefix % 1048576 == 0,
            prefix + 1048576 <= STATE_COUNT,
        ensures
            final(out)@ == old(out)@ + entries(
                |r: int| self.lookup(r),
                T::spec_null(),
                prefix as int,
                0,
                1048576,
            ),
    {
        let ghost lk = |r: int| self.lookup(r);
        let mut i: u64 = 0;
        while i < 16
            invariant
                0 <= i <= 16,
                self.wf(),
                prefix % 1048576 == 0,
                prefix + 1048576 <= STATE_COUNT,
                lk == (|r: int| self.lookup(r)),
                out@ == old(out)@ + entries(lk, T::spec_null(), prefix as int, 0, i * 65536),
            decreases 16 - i,
        {
            let child_prefix: u64 = prefix | (i << 16u64);
            proof {
                lemma_trie_prefix(prefix, i);
            }
            let ghost before = out@;
            proof {
                lemma_entries_split(
                    lk,
                    T::spec_null(),
                    prefix as int,
                    0,
                    i * 65536,
                    (i + 1) * 65536,
                );
            }
            match &self.0[i as usize] {
                Some(c) => {
                    c.visit(child_prefix, out);
                    proof {
                        let cl = |r: int| c.lookup(r);
                        assert forall|r: int| 0 <= r < 65536 implies lk(i * 65536 + r) == #[trigger] cl(
                            r,
                        ) by {
                            assert((i * 65536 + r) / 65536 == i);
                            assert((i * 65536 + r) % 65536 == r);
                        }
                        lemma_entries_shift(
                            lk,
                            cl,
                            T::spec_null(),
                            prefix as int,
                            i * 65536,
                            0,
                            65536,
                        );
                        assert(out@ =~= old(out)@ + entries(
                            lk,
                            T::spec_null(),
                            prefix as int,
                            0,
                            (i + 1) * 65536,
                        ));
                    }
                },
                None => {
                    proof {
                        assert forall|r: int| i * 65536 <= r < (i + 1) * 65536 implies #[trigger] lk(r)
                            == T::spec_null() by {
                            assert(r / 65536 == i);
                        }
                        lemma_entries_all_null(
                            lk,
                            T::spec_null(),
                            prefix as int,
                            i * 65536,
                            (i + 1) * 65536,
                        );
                        assert(out@ =~= old(out)@ + entries(
                            lk,
                            T::spec_null(),
                            prefix as int,
                            0,
                            (i + 1) * 65536,
                        ));
                    }
                },
            }
            i = i + 1;
        }
    }
}

impl<T: Null> Bucket0<T> {
    pub open spec fn wf(self) -> bool {
        &&& self.0.len() == 16
        &&& forall|i: int|
            0 <= i < 16 && (#[trigger] self.0@[i]) is Some ==> self.0@[i].unwrap().wf()
    }

    /// The value at relative key `r` (`0 <= r < 16777216`).
    pub open spec fn lookup(self, r: int) -> T {
        match self.0@[r / 1048576] {
            Some(c) => c.lookup(r % 1048576),
            None => T::spec_null(),
        }
    }

    /// A bucket that holds nothing.
    pub fn null() -> (b: Self)
        ensures
            b.wf(),
            forall|r: int| 0 <= r < 16777216 ==> #[trigger] b.lookup(r) == T::spec_null(),
    {
        let mut v: Vec<Option<Box<Bucket1<T>>>> = Vec::new();
        let mut i: u64 = 0;
        while i < 16
            invariant
                0 <= i <= 16,
                v.len() == i,
                forall|j: int| 0 <= j < i ==> v@[j] is None,
            decreases 16 - i,
        {
            v.push(None);
            i = i + 1;
        }
        Bucket0(v)
    }

    pub fn get(&self, key: u64) -> (v: T)
        requires
            self.wf(),
        ensures
            v == self.lookup((key % 16777216) as int),
    {
        let i: u64 = (key >> 20u64) & 15;
        proof {
            lemma_trie_index(key);
        }
        match &self.0[i as usize] {
            Some(c) => c.get(key),
            None => T::null(),
        }
    }

    /// A mutable reference to the value at `key` (relative to this bucket),
    /// if that value is not null.
    pub fn get_mut(&mut self, key: u64) -> (r: Option<&mut T>)
        requires
            old(self).wf(),
        ensures
            final(self).wf(),
            match r {
                Some(m) => {
                    &&& *m == old(self).lookup((key % 0x100_0000) as int)
                    &&& *m != T::spec_null()
                    &&& forall|q: int|
                        0 <= q < 0x100_0000 ==> #[trigger] final(self).lookup(q) == (if q == key % 0x100_0000 {
                            *final(m)
                        } else {
                            old(self).lookup(q)
                        })
                },
                None => {
                    &&& old(self).lookup((key % 0x100_0000) as int) == T::spec_null()
                    &&& forall|q: int|
                        0 <= q < 0x100_0000 ==> #[trigger] final(self).lookup(q) == old(self).lookup(q)
                },
            },
    {
        let i: u64 = (key >> 20u64) & 15;
        proof {
            lemma_trie_index(key);
        }
        match self.0[i as usize].as_mut() {
            Some(c) => c.get_mut(key),
            None => None,
        }
    }

    /// Sets the value at `key` (relative to this bucket) to `value`, and
    /// reports whether a non-null value was there.
    pub fn add(&mut self, key: u64, value: T) -> (existed: bool)
        requires
            old(self).wf(),
        ensures
            final(self).wf(),
            forall|r: int|
                0 <= r < 16777216 ==> #[trigger] final(self).lookup(r) == (if r == key % 16777216 {
                    value
                } else {
                    old(self).lookup(r)
                }),
            existed == (old(self).lookup((key % 16777216) as int) != T::spec_null()),
    {
        let i: u64 = (key >> 20u64) & 15;
        proof {
            lemma_trie_index(key);
        }
        let taken = self.0[i as usize].take();
        let mut child = match taken {
            Some(c) => c,
            None => Box::new(Bucket1::null()),
        };
        let existed = child.add(key, value);
        self.0.set(i as usize, Some(child));
        proof {
            assert forall|j: int| 0 <= j < 16 && (#[trigger] self.0@[j]) is Some implies self.0@[
                j
            ].unwrap().wf() by {
                if j != i {
                    assert(self.0@[j] == old(self).0@[j]);
                }
            }
            assert forall|r: int| 0 <= r < 16777216 implies #[trigger] self.lookup(r) == (if r == key
                % 16777216 {
                value
            } else {
                old(self).lookup(r)
            }) by {
                if r / 1048576 != i {
                    assert(self.0@[r / 1048576] == old(self).0@[r / 1048576]);
                    assert(r != key % 16777216);
                }
            }
        }
        existed
    }

    /// Appends the entries of this bucket, whose keys start at `prefix`, in
    /// ascending order of key.
    #[verifier::spinoff_prover]
    #[verifier::rlimit(40)]
    pub fn visit(&self, prefix: u64, out: &mut Vec<(State, T)>)
        requires
            self.wf(),
            prefix % 16777216 == 0,
            prefix + 16777216 <= STATE_COUNT,
        ensures
            final(out)@ == old(out)@ + entries(
                |r: int| self.lookup(r),
                T::spec_null(),
                prefix as int,
                0,
                16777216,
            ),
    {
        let ghost lk = |r: int| self.lookup(r);
        let mut i: u64 = 0;
        while i < 16
            invariant
                0 <= i <= 16,
                self.wf(),
                prefix % 16777216 == 0,
                prefix + 16777216 <= STATE_COUNT,
                lk == (|r: int| self.lookup(r)),
                out@ == old(out)@ + entries(lk, T::spec_null(), prefix as int, 0, i * 1048576),
            decreases 16 - i,
        {
            let child_prefix: u64 = prefix | (i << 20u64);
            proof {
                lemma_trie_prefix(prefix, i);
            }
            let ghost before = out@;
            proof {
                lemma_entries_split(
                    lk,
                    T::spec_null(),
                    prefix as int,
                    0,
                    i * 1048576,
                    (i + 1) * 1048576,
                );
            }
            match &self.0[i as usize] {
                Some(c) => {
                    c.visit(child_prefix, out);
                    proof {
                        let cl = |r: int| c.lookup(r);
                        assert forall|r: int| 0 <= r < 1048576 implies lk(i * 1048576 + r) == #[trigger] cl(
                            r,
                        ) by {
                            assert((i * 1048576 + r) / 1048576 == i);
                            assert((i * 1048576 + r) % 1048576 == r);
                        }
                        lemma_entries_shift(
                            lk,
                            cl,
                            T::spec_null(),
                            prefix as int,
                            i * 1048576,
                            0,
                            1048576,
                        );
                        assert(out@ =~= old(out)@ + entries(
                            lk,
                            T::spec_null(),
                            prefix as int,
                            0,
                            (i + 1) * 1048576,
                        ));
                    }
                },
                None => {
                    proof {
                        assert forall|r: int| i * 1048576 <= r < (i + 1) * 1048576 implies #[trigger] lk(r)
                            == T::spec_null() by {
                            assert(r / 1048576 == i);
                        }
                        lemma_entries_all_null(
                            lk,
                            T::spec_null(),
                            prefix as int,
                            i * 1048576,
                            (i + 1) * 1048576,
                        );
                        assert(out@ =~= old(out)@ + entries(
                            lk,
                            T::spec_null(),
                            prefix as int,
                            0,
                            (i + 1) * 1048576,
                        ));
                    }
                },
            }
            i = i + 1;
        }
    }
}

} // verus!

verus! {

/// A map from states to values; a key is absent when it holds the null
/// value.
pub struct StateMap<T> {
    raw: Vec<Option<Box<Bucket0<T>>>>,
}

/// The number of buckets at the root.
pub const ROOT_BUCKETS: u64 = 0x1_0000;

/// The relative keys below a root bucket.
pub const ROOT_BUCKET_SIZE: u64 = 0x100_0000;

impl<T: Null> StateMap<T> {
    pub closed spec fn wf(self) -> bool {
        &&& self.raw.len() == ROOT_BUCKETS
        &&& forall|i: int|
            0 <= i < ROOT_BUCKETS && (#[trigger] self.raw@[i]) is Some ==> self.raw@[i].unwrap().wf()
    }

    /// The value at key `k`, null when absent.
    pub closed spec fn lookup(self, k: int) -> T {
        match self.raw@[k / ROOT_BUCKET_SIZE as int] {
            Some(c) => c.lookup(k % ROOT_BUCKET_SIZE as int),
            None => T::spec_null(),
        }
    }

    /// The entries of the map, in ascending order of key.
    pub open spec fn sorted_entries(self) -> Seq<(State, T)> {
        entries(|r: int| self.lookup(r), T::spec_null(), 0, 0, STATE_COUNT as int)
    }

    /// The keys that hold a non-null value, with their values.
    pub open spec fn view(self) -> Map<u64, T> {
        Map::new(
            |k: u64| k < STATE_COUNT && self.lookup(k as int) != T::spec_null(),
            |k: u64| self.lookup(k as int),
        )
    }

    /// The entries are in strictly ascending order of key, and are exactly
    /// the map's keys and values.
    pub proof fn lemma_sorted_entries(self)
        ensures
            forall|i: int, j: int|
                0 <= i < j < self.sorted_entries().len() ==> self.sorted_entries()[i].0.0
                    < self.sorted_entries()[j].0.0,
            forall|i: int|
                0 <= i < self.sorted_entries().len() ==> self@.contains_key(
                    #[trigger] self.sorted_entries()[i].0.0,
                ) && self@[self.sorted_entries()[i].0.0] == self.sorted_entries()[i].1,
            forall|k: u64|
                #[trigger] self@.contains_key(k) ==> exists|i: int|
                    0 <= i < self.sorted_entries().len() && self.sorted_entries()[i].0.0 == k,
    {
        let lk = |r: int| self.lookup(r);
        crate::state::lemma_entries_meaning(lk, T::spec_null(), 0, 0, STATE_COUNT as int);
        let e = self.sorted_entries();
        assert forall|k: u64| #[trigger] self@.contains_key(k) implies exists|i: int|
            0 <= i < e.len() && e[i].0.0 == k by {
            assert(lk(k as int) != T::spec_null());
        }
    }

    /// Every key is a state, so the map is finite.
    pub proof fn lemma_bounded(self)
        ensures
            forall|k: u64| #[trigger] self@.contains_key(k) ==> k < STATE_COUNT,
            self@.dom().finite(),
            self@.dom().len() <= STATE_COUNT,
    {
        let all = Set::<u64>::range(0, STATE_COUNT);
        assert(self@.dom().subset_of(all));
        <u64 as vstd::set_lib::FiniteRange>::range_properties(0, STATE_COUNT);
        vstd::set_lib::lemma_len_subset(self@.dom(), all);
    }

    pub fn empty() -> (r: Self)
        ensures
            r.wf(),
            r@ == Map::<u64, T>::empty(),
    {
        let mut raw: Vec<Option<Box<Bucket0<T>>>> = Vec::new();
        let mut i: u64 = 0;
        while i < ROOT_BUCKETS
            invariant
                0 <= i <= ROOT_BUCKETS,
                raw.len() == i,
                forall|j: int| 0 <= j < i ==> raw@[j] is None,
            decreases ROOT_BUCKETS - i,
        {
            raw.push(None);
            i = i + 1;
        }
        let r = StateMap { raw };
        assert(r@ =~= Map::<u64, T>::empty());
        r
    }

    /// Sets the value of `state` to `value` (removing `state` when `value` is
    /// null), and reports whether `state` held a non-null value.
    pub fn add(&mut self, state: State, value: T) -> (r: DidAddendAlreadyExist)
        requires
            old(self).wf(),
            crate::state::is_state(state),
        ensures
            final(self).wf(),
            final(self)@ == (if value == T::spec_null() {
                old(self)@.remove(state.0)
            } else {
                old(self)@.insert(state.0, value)
            }),
            r.did_addend_already_exist == old(self)@.contains_key(state.0),
    {
        let key: u64 = state.0;
        let i: u64 = key >> 24u64;
        proof {
            lemma_trie_index(key);
        }
        let taken = self.raw[i as usize].take();
        let mut child = match taken {
            Some(c) => c,
            None => Box::new(Bucket0::null()),
        };
        let existed = child.add(key, value);
        self.raw.set(i as usize, Some(child));
        proof {
            assert forall|j: int|
                0 <= j < ROOT_BUCKETS && (#[trigger] self.raw@[j]) is Some implies self.raw@[
                j
            ].unwrap().wf() by {
                if j != i {
                    assert(self.raw@[j] == old(self).raw@[j]);
                }
            }
            assert forall|k: int| 0 <= k < STATE_COUNT implies #[trigger] self.lookup(k) == (if k
                == key {
                value
            } else {
                old(self).lookup(k)
            }) by {
                if k / ROOT_BUCKET_SIZE as int != i {
                    assert(self.raw@[k / ROOT_BUCKET_SIZE as int] == old(self).raw@[k
                        / ROOT_BUCKET_SIZE as int]);
                } else {
                    assert(k % ROOT_BUCKET_SIZE as int == key % 0x100_0000 <==> k == key);
                }
            }
            if value == T::spec_null() {
                assert(self@ =~= old(self)@.remove(key));
            } else {
                assert(self@ =~= old(self)@.insert(key, value));
            }
        }
        DidAddendAlreadyExist { did_addend_already_exist: existed }
    }

    /// The value of `state`, or null when `state` is absent.
    pub fn get(&self, state: State) -> (r: T)
        requires
            self.wf(),
            crate::state::is_state(state),
        ensures
            r == (if self@.contains_key(state.0) {
                self@[state.0]
            } else {
                T::spec_null()
            }),
    {
        let key: u64 = state.0;
        let i: u64 = key >> 24u64;
        proof {
            lemma_trie_index(key);
        }
        match &self.raw[i as usize] {
            Some(c) => c.get(key),
            None => T::null(),
        }
    }

    /// A mutable reference to the value of `state`, if `state` is in the
    /// map. Setting the value to null through it takes `state` out of the
    /// map.
    pub fn get_mut(&mut self, state: State) -> (r: Option<&mut T>)
        requires
            old(self).wf(),
            crate::state::is_state(state),
        ensures
            final(self).wf(),
            match r {
                Some(m) => {
                    &&& old(self)@.contains_key(state.0)
                    &&& *m == old(self)@[state.0]
                    &&& final(self)@ == (if *final(m) == T::spec_null() {
                        old(self)@.remove(state.0)
                    } else {
                        old(self)@.insert(state.0, *final(m))
                    })
                },
                None => {
                    &&& !old(self)@.contains_key(state.0)
                    &&& final(self)@ == old(self)@
                },
            },
    {
        let key: u64 = state.0;
        let i: u64 = key >> 24u64;
        proof {
            lemma_trie_index(key);
        }
        match self.raw[i as usize].as_mut() {
            Some(c) => c.get_mut(key),
            None => None,
        }
    }

    /// Appends the entries of the map in ascending order of key (see
    /// `lemma_sorted_entries`).
    pub fn visit_in_key_order(&self, out: &mut Vec<(State, T)>)
        requires
            self.wf(),
        ensures
            final(out)@ == old(out)@ + self.sorted_entries(),
    {
        let ghost lk = |r: int| self.lookup(r);
        let mut i: u64 = 0;
        while i < ROOT_BUCKETS
            invariant
                0 <= i <= ROOT_BUCKETS,
                self.wf(),
                lk == (|r: int| self.lookup(r)),
                out@ == old(out)@ + entries(lk, T::spec_null(), 0, 0, i * ROOT_BUCKET_SIZE),
            decreases ROOT_BUCKETS - i,
        {
            let prefix: u64 = i << 24u64;
            proof {
                lemma_trie_prefix(0, i);
            }
            proof {
                lemma_entries_split(
                    lk,
                    T::spec_null(),
                    0,
                    0,
                    i * ROOT_BUCKET_SIZE,
                    (i + 1) * ROOT_BUCKET_SIZE,
                );
            }
            match &self.raw[i as usize] {
                Some(c) => {
                    c.visit(prefix, out);
                    proof {
                        let cl = |r: int| c.lookup(r);
                        assert forall|r: int| 0 <= r < ROOT_BUCKET_SIZE implies lk(
                            i * ROOT_BUCKET_SIZE + r,
                        ) == #[trigger] cl(r) by {
                            assert((i * ROOT_BUCKET_SIZE + r) / ROOT_BUCKET_SIZE as int == i);
                            assert((i * ROOT_BUCKET_SIZE + r) % ROOT_BUCKET_SIZE as int == r);
                        }
                        lemma_entries_shift(
                            lk,
                            cl,
                            T::spec_null(),
                            0,
                            i * ROOT_BUCKET_SIZE,
                            0,
                            ROOT_BUCKET_SIZE as int,
                        );
                        assert(out@ =~= old(out)@ + entries(
                            lk,
                            T::spec_null(),
                            0,
                            0,
                            (i + 1) * ROOT_BUCKET_SIZE,
                        ));
                    }
                },
                None => {
                    proof {
                        assert forall|r: int|
                            i * ROOT_BUCKET_SIZE <= r < (i + 1) * ROOT_BUCKET_SIZE implies #[trigger] lk(
                            r,
                        ) == T::spec_null() by {
                            assert(r / ROOT_BUCKET_SIZE as int == i);
                        }
                        lemma_entries_all_null(
                            lk,
                            T::spec_null(),
                            0,
                            i * ROOT_BUCKET_SIZE,
                            (i + 1) * ROOT_BUCKET_SIZE,
                        );
                        assert(out@ =~= old(out)@ + entries(
                            lk,
                            T::spec_null(),
                            0,
                            0,
                            (i + 1) * ROOT_BUCKET_SIZE,
                        ));
                    }
                },
            }
            i = i + 1;
        }
    }

    /// The entries of the map in ascending order of key.
    pub fn to_sorted_vec(&self) -> (r: Vec<(State, T)>)
        requires
            self.wf(),
        ensures
            r@ == self.sorted_entries(),
    {
        let mut raw: Vec<(State, T)> = Vec::new();
        self.visit_in_key_order(&mut raw);
        assert(raw@ =~= self.sorted_entries());
        raw
    }
}

} // verus!

verus! {

impl<T: Null> StateMap<T> {
    /// This map with every entry of `other` added (the value of `other` wins
    /// where both hold a key).
    pub fn union(self, other: &Self) -> (r: Self)
        requires
            self.wf(),
            other.wf(),
        ensures
            r.wf(),
            r@ == self@.union_prefer_right(other@),
    {
        let ghost original = self@;
        let mut out = self;
        let items = other.to_sorted_vec();
        proof {
            other.lemma_sorted_entries();
        }
        let ghost e = other.sorted_entries();
        let mut idx: usize = 0;
        while idx < items.len()
            invariant
                0 <= idx <= items.len(),
                items@ == e,
                e == other.sorted_entries(),
                out.wf(),
                forall|i: int|
                    0 <= i < e.len() ==> other@.contains_key(#[trigger] e[i].0.0) && other@[e[i].0.0]
                        == e[i].1,
                forall|i: int, j: int| 0 <= i < j < e.len() ==> e[i].0.0 < e[j].0.0,
                forall|k: u64|
                    #[trigger] out@.contains_key(k) == (original.contains_key(k) || exists|j: int|
                        0 <= j < idx && e[j].0.0 == k),
                forall|k: u64|
                    #[trigger] out@.contains_key(k) ==> out@[k] == (if exists|j: int|
                        0 <= j < idx && e[j].0.0 == k {
                        other@[k]
                    } else {
                        original[k]
                    }),
            decreases items.len() - idx,
        {
            let (state, value) = items[idx];
            assert(other@.contains_key(state.0));
            assert(value != T::spec_null());
            out.add(state, value);
            proof {
                assert forall|k: u64| #[trigger] out@.contains_key(k) == (original.contains_key(k)
                    || exists|j: int| 0 <= j < idx + 1 && e[j].0.0 == k) by {
                    if k == state.0 {
                        assert(e[idx as int].0.0 == k);
                    } else if exists|j: int| 0 <= j < idx + 1 && e[j].0.0 == k {
                        let j = choose|j: int| 0 <= j < idx + 1 && e[j].0.0 == k;
                        assert(j < idx);
                    }
                }
                assert forall|k: u64| #[trigger] out@.contains_key(k) implies out@[k] == (if exists|
                    j: int,
                | 0 <= j < idx + 1 && e[j].0.0 == k {
                    other@[k]
                } else {
                    original[k]
                }) by {
                    if k == state.0 {
                        assert(e[idx as int].0.0 == k);
                    } else if exists|j: int| 0 <= j < idx + 1 && e[j].0.0 == k {
                        let j = choose|j: int| 0 <= j < idx + 1 && e[j].0.0 == k;
                        assert(j < idx);
                    }
                }
            }
            idx = idx + 1;
        }
        proof {
            assert forall|k: u64| #[trigger] other@.contains_key(k) implies exists|j: int|
                0 <= j < idx && e[j].0.0 == k by {
                let i = choose|i: int| 0 <= i < e.len() && e[i].0.0 == k;
            }
            assert(out@ =~= original.union_prefer_right(other@));
        }
        out
    }
}

/// The view of a map built from the empty map by adding `adds`, one after
/// the other (see `StateMap::add`).
pub open spec fn after_adds<T: Null>(adds: Seq<(u64, T)>) -> Map<u64, T>
    decreases adds.len(),
{
    if adds.len() == 0 {
        Map::empty()
    } else {
        let m = after_adds(adds.drop_last());
        let (k, v) = adds.last();
        if v == T::spec_null() {
            m.remove(k)
        } else {
            m.insert(k, v)
        }
    }
}

/// A map built by adds holds for each key the value last added for it,
/// unless that value is null or the key was never added; so `get` gives
/// the last value added, or null.
pub proof fn lemma_read_after_adds<T: Null>(adds: Seq<(u64, T)>, k: u64)
    ensures
        (forall|i: int| 0 <= i < adds.len() ==> (#[trigger] adds[i]).0 != k) ==> !after_adds(
            adds,
        ).contains_key(k),
        forall|i: int|
            0 <= i < adds.len() && (#[trigger] adds[i]).0 == k && (forall|j: int|
                i < j < adds.len() ==> adds[j].0 != k) ==> if adds[i].1 == T::spec_null() {
                !after_adds(adds).contains_key(k)
            } else {
                after_adds(adds).contains_key(k) && after_adds(adds)[k] == adds[i].1
            },
    decreases adds.len(),
{
    if adds.len() > 0 {
        let d = adds.drop_last();
        lemma_read_after_adds(d, k);
        assert forall|i: int|
            0 <= i < adds.len() && (#[trigger] adds[i]).0 == k && (forall|j: int|
                i < j < adds.len() ==> adds[j].0 != k) implies if adds[i].1 == T::spec_null() {
            !after_adds(adds).contains_key(k)
        } else {
            after_adds(adds).contains_key(k) && after_adds(adds)[k] == adds[i].1
        } by {
            if i < adds.len() - 1 {
                assert(d[i] == adds[i]);
                assert(adds[adds.len() - 1].0 != k);
                assert forall|j: int| i < j < d.len() implies d[j].0 != k by {
                    assert(d[j] == adds[j]);
                }
            }
        }
        if forall|i: int| 0 <= i < adds.len() ==> (#[trigger] adds[i]).0 != k {
            assert forall|i: int| 0 <= i < d.len() implies (#[trigger] d[i]).0 != k by {
                assert(d[i] == adds[i]);
            }
            assert(adds[adds.len() - 1].0 != k);
        }
    }
}

/// The value of the last add for key `k` among `adds`, or null when no add
/// was for `k`.
pub open spec fn last_added<T: Null>(adds: Seq<(u64, T)>, k: u64) -> T
    decreases adds.len(),
{
    if adds.len() == 0 {
        T::spec_null()
    } else if adds.last().0 == k {
        adds.last().1
    } else {
        last_added(adds.drop_last(), k)
    }
}

/// What `StateMap::get` gives for key `k` on a map with view `m`.
pub open spec fn got<T: Null>(m: Map<u64, T>, k: u64) -> T {
    if m.contains_key(k) {
        m[k]
    } else {
        T::spec_null()
    }
}

/// On a map built from the empty map by `adds` (see `after_adds`), `get`
/// of key `k` gives the value of the last add for `k`, or null when no add
/// was for `k`.
pub proof fn lemma_get_after_adds<T: Null>(map: StateMap<T>, adds: Seq<(u64, T)>, k: u64)
    requires
        map@ == after_adds(adds),
    ensures
        got(map@, k) == last_added(adds, k),
{
    lemma_got_after_adds(adds, k);
}

proof fn lemma_got_after_adds<T: Null>(adds: Seq<(u64, T)>, k: u64)
    ensures
        got(after_adds(adds), k) == last_added(adds, k),
    decreases adds.len(),
{
    if adds.len() > 0 {
        lemma_got_after_adds(adds.drop_last(), k);
    }
}

} // verus!
