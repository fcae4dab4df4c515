//! A keyed store with aliasing: several keys may share one data slot.
//!
//! Keys map to `(Index, usize)` pairs; the counter tells a primary key
//! (nonzero) from an alias (zero). Data lives in a second association keyed
//! by `Index`. Both associations are kept duplicate free, which is the
//! structure's well-formedness invariant.

use vstd::prelude::*;

verus! {

pub type IndexType = u8;

/// A data-slot handle.
#[derive(Clone, Copy, Debug, Default, Hash, PartialEq, Eq, Structural)]
pub struct Index(pub IndexType);

/// The keyed store. Keys are integers; the original-key counter in each
/// entry distinguishes primary keys from aliases.
pub struct MultiMap<V> {
    pub keys: Vec<(u64, (Index, usize))>,
    pub data: Vec<(Index, V)>,
    pub unique_keys: IndexType,
}

impl<V> MultiMap<V> {
    /// Both associations bind each key at most once.
    pub open spec fn wf(&self) -> bool {
        &&& forall|a: int, b: int|
            0 <= a < b < self.keys@.len() ==> (#[trigger] self.keys@[a]).0 != (
            #[trigger] self.keys@[b]).0
        &&& forall|a: int, b: int|
            0 <= a < b < self.data@.len() ==> (#[trigger] self.data@[a]).0 != (
            #[trigger] self.data@[b]).0
    }

    /// The key is bound.
    pub open spec fn has_key(&self, k: u64) -> bool {
        key_assoc_has(self.keys@, k)
    }

    /// The key's `(Index, usize)` entry; meaningful when the key is bound.
    pub open spec fn entry_of(&self, k: u64) -> (Index, usize) {
        entry_lookup(self.keys@, k)
    }

    /// The slot holds data.
    pub open spec fn has_data(&self, idx: Index) -> bool {
        assoc_has(self.data@, idx)
    }

    /// The slot's value; meaningful when the slot holds data.
    pub open spec fn data_of(&self, idx: Index) -> V {
        assoc_get(self.data@, idx)
    }

    /// The key is bound and primary (its counter is nonzero).
    pub open spec fn spec_is_key(&self, k: u64) -> bool {
        self.has_key(k) && self.entry_of(k).1 != 0
    }

    /// The key is bound as an alias (its counter is zero).
    pub open spec fn spec_is_alias(&self, k: u64) -> bool {
        self.has_key(k) && self.entry_of(k).1 == 0
    }

    /// Finds the position of a key, exactly.
    fn find_key(&self, k: u64) -> (r: Option<usize>)
        ensures
            match r {
                Some(i) => i < self.keys@.len() && self.keys@[i as int].0 == k,
                None => !self.has_key(k),
            },
    {
        let mut i: usize = 0;
        while i < self.keys.len()
            invariant
                i <= self.keys@.len(),
                forall|l: int| 0 <= l < i ==> (#[trigger] self.keys@[l]).0 != k,
            decreases self.keys@.len() - i,
        {
            if self.keys[i].0 == k {
                return Some(i);
            }
            i += 1;
        }
        None
    }

    /// Finds the position of a data slot, exactly.
    fn find_data(&self, idx: Index) -> (r: Option<usize>)
        ensures
            match r {
                Some(i) => i < self.data@.len() && self.data@[i as int].0 == idx,
                None => !self.has_data(idx),
            },
    {
        let mut i: usize = 0;
        while i < self.data.len()
            invariant
                i <= self.data@.len(),
                forall|l: int| 0 <= l < i ==> (#[trigger] self.data@[l]).0 != idx,
            decreases self.data@.len() - i,
        {
            if self.data[i].0 == idx {
                return Some(i);
            }
            i += 1;
        }
        None
    }

    /// An empty store sized for the expected number of entries.
    pub fn with_capacity(capacity: usize) -> (r: Self)
        ensures
            r.wf(),
            r.keys@.len() == 0,
            r.data@.len() == 0,
            r.unique_keys == 0,
    {
        MultiMap { keys: Vec::with_capacity(capacity), data: Vec::with_capacity(capacity), unique_keys: 0 }
    }

    /// Drops every key, alias and data slot.
    pub fn clear(&mut self)
        ensures
            final(self).wf(),
            final(self).keys@.len() == 0,
            final(self).data@.len() == 0,
            final(self).unique_keys == 0,
    {
        self.keys.clear();
        self.data.clear();
        self.unique_keys = 0;
    }

    pub fn contains_key(&self, k: &u64) -> (r: bool)
        ensures
            r == self.has_key(*k),
    {
        match self.find_key(*k) {
            Some(_) => true,
            None => false,
        }
    }

    /// The handle the next inserted key will receive.
    pub fn next_index(&self) -> (r: Index)
        ensures
            r == Index(self.unique_keys),
    {
        Index(self.unique_keys)
    }

    /// The value the key leads to: its entry's slot, when both exist.
    pub fn get(&self, k: &u64) -> (r: Option<&V>)
        requires
            self.wf(),
        ensures
            match r {
                Some(v) => self.has_key(*k) && self.has_data(self.entry_of(*k).0) && *v
                    == self.data_of(self.entry_of(*k).0),
                None => !self.has_key(*k) || !self.has_data(self.entry_of(*k).0),
            },
    {
        match self.find_key(*k) {
            Some(i) => {
                let idx = self.keys[i].1.0;
                proof {
                    assert(idx == self.entry_of(*k).0);
                }
                match self.find_data(idx) {
                    Some(j) => {
                        proof {
                            assert(self.data@[j as int].1 == self.data_of(idx));
                        }
                        Some(&self.data[j].1)
                    },
                    None => None,
                }
            },
            None => None,
        }
    }

    pub fn keys_get(&self, k: &u64) -> (r: Option<Index>)
        requires
            self.wf(),
        ensures
            match r {
                Some(idx) => self.has_key(*k) && idx == self.entry_of(*k).0,
                None => !self.has_key(*k),
            },
    {
        match self.find_key(*k) {
            Some(i) => {
                proof {
                    assert(self.keys@[i as int].1 == self.entry_of(*k));
                }
                Some(self.keys[i].1.0)
            },
            None => None,
        }
    }

    pub fn data_get(&self, idx: &Index) -> (r: Option<&V>)
        requires
            self.wf(),
        ensures
            match r {
                Some(v) => self.has_data(*idx) && *v == self.data_of(*idx),
                None => !self.has_data(*idx),
            },
    {
        match self.find_data(*idx) {
            Some(j) => {
                proof {
                    assert(self.data@[j as int].1 == self.data_of(*idx));
                }
                Some(&self.data[j].1)
            },
            None => None,
        }
    }

    /// Binds the key to a fresh slot and stores the value there; an old
    /// value in that slot is returned.
    pub fn insert(&mut self, k: u64, v: V) -> (r: Option<V>)
        requires
            old(self).wf(),
            old(self).unique_keys < IndexType::MAX,
        ensures
            final(self).wf(),
            final(self).unique_keys == old(self).unique_keys + 1,
            final(self).has_key(k),
            final(self).entry_of(k) == (Index(old(self).unique_keys), 1usize),
            final(self).has_data(Index(old(self).unique_keys)),
            final(self).data_of(Index(old(self).unique_keys)) == v,
            forall|k2: u64|
                k2 != k ==> #[trigger] final(self).has_key(k2) == old(self).has_key(k2) && (
                old(self).has_key(k2) ==> final(self).entry_of(k2) == old(self).entry_of(k2)),
            forall|x: Index|
                x != Index(old(self).unique_keys) ==> #[trigger] final(self).has_data(x) == old(
                    self,
                ).has_data(x) && (old(self).has_data(x) ==> final(self).data_of(x) == old(
                    self,
                ).data_of(x)),
            final(self).data@.len() == old(self).data@.len() + (if old(self).has_data(
                Index(old(self).unique_keys),
            ) {
                0int
            } else {
                1int
            }),
            match r {
                Some(prev) => old(self).has_data(Index(old(self).unique_keys)) && prev == old(
                    self,
                ).data_of(Index(old(self).unique_keys)),
                None => !old(self).has_data(Index(old(self).unique_keys)),
            },
    {
        let i = self.next_index();
        self.insert_key(k, i);
        let ghost mid = *self;
        let r = self.insert_data_at(i, v);
        proof {
            assert forall|k2: u64| k2 != k implies #[trigger] self.has_key(k2) == old(
                self,
            ).has_key(k2) && (old(self).has_key(k2) ==> self.entry_of(k2) == old(self).entry_of(
                k2,
            )) by {
                assert(mid.has_key(k2) == old(self).has_key(k2) && (old(self).has_key(k2)
                    ==> mid.entry_of(k2) == old(self).entry_of(k2)));
                assert(self.keys@ == mid.keys@);
            }
        }
        r
    }

    /// Binds the key to the given slot handle as a primary key; an old
    /// binding's handle is returned. Counts one more unique key.
    pub fn insert_key(&mut self, k: u64, i: Index) -> (r: Option<Index>)
        requires
            old(self).wf(),
            old(self).unique_keys < IndexType::MAX,
        ensures
            final(self).wf(),
            final(self).unique_keys == old(self).unique_keys + 1,
            final(self).data@ == old(self).data@,
            final(self).has_key(k),
            final(self).entry_of(k) == (i, 1usize),
            forall|k2: u64|
                k2 != k ==> #[trigger] final(self).has_key(k2) == old(self).has_key(k2) && (
                old(self).has_key(k2) ==> final(self).entry_of(k2) == old(self).entry_of(k2)),
            match r {
                Some(idx) => old(self).has_key(k) && idx == old(self).entry_of(k).0,
                None => !old(self).has_key(k),
            },
    {
        self.unique_keys = self.unique_keys + 1;
        let found = self.find_key(k);
        match found {
            Some(pos) => {
                let prev = self.keys[pos].1.0;
                proof {
                    assert(self.keys@[pos as int].1 == self.entry_of(k));
                }
                let ghost kpre = self.keys@;
                self.keys.set(pos, (k, (i, 1)));
                proof {
                    lemma_entry_at(self.keys@, pos as int);
                    assert forall|k2: u64| k2 != k implies #[trigger] self.has_key(k2) == exists|
                        l: int,
                    | 0 <= l < kpre.len() && (#[trigger] kpre[l]).0 == k2 by {
                        assert forall|l: int| 0 <= l < kpre.len() && (#[trigger] kpre[l]).0 == k2
                            implies self.keys@[l].0 == k2 by {}
                        assert forall|l: int|
                            0 <= l < self.keys@.len() && (#[trigger] self.keys@[l]).0 == k2
                            implies kpre[l].0 == k2 by {}
                    }
                    assert forall|k2: u64|
                        k2 != k && (exists|l: int|
                            0 <= l < kpre.len() && (#[trigger] kpre[l]).0 == k2) implies
                        entry_lookup(self.keys@, k2) == entry_lookup(kpre, k2) by {
                        let l = choose|l: int| 0 <= l < kpre.len() && (#[trigger] kpre[l]).0 == k2;
                        lemma_entry_at(kpre, l);
                        lemma_entry_at(self.keys@, l);
                    }
                }
                Some(prev)
            },
            None => {
                let ghost kpre = self.keys@;
                self.keys.push((k, (i, 1)));
                proof {
                    lemma_entry_at(self.keys@, self.keys@.len() - 1);
                    assert forall|k2: u64| k2 != k implies #[trigger] self.has_key(k2) == exists|
                        l: int,
                    | 0 <= l < kpre.len() && (#[trigger] kpre[l]).0 == k2 by {
                        assert forall|l: int|
                            0 <= l < self.keys@.len() && (#[trigger] self.keys@[l]).0 == k2
                            implies l < kpre.len() && kpre[l].0 == k2 by {}
                        assert forall|l: int| 0 <= l < kpre.len() && (#[trigger] kpre[l]).0 == k2
                            implies self.keys@[l].0 == k2 by {}
                    }
                    assert forall|k2: u64|
                        k2 != k && (exists|l: int|
                            0 <= l < kpre.len() && (#[trigger] kpre[l]).0 == k2) implies
                        entry_lookup(self.keys@, k2) == entry_lookup(kpre, k2) by {
                        let l = choose|l: int| 0 <= l < kpre.len() && (#[trigger] kpre[l]).0 == k2;
                        lemma_entry_at(kpre, l);
                        lemma_entry_at(self.keys@, l);
                    }
                }
                None
            },
        }
    }

    /// Stores a value in the slot the key leads to; the slot's old value is
    /// returned. The key must be bound.
    pub fn insert_data(&mut self, k: u64, v: V) -> (r: Option<V>)
        requires
            old(self).wf(),
            old(self).has_key(k),
        ensures
            final(self).wf(),
            final(self).keys@ == old(self).keys@,
            final(self).unique_keys == old(self).unique_keys,
            final(self).has_data(old(self).entry_of(k).0),
            final(self).data_of(old(self).entry_of(k).0) == v,
            match r {
                Some(prev) => old(self).has_data(old(self).entry_of(k).0) && prev == old(self).data_of(old(self).entry_of(k).0),
                None => !old(self).has_data(old(self).entry_of(k).0),
            },
    {
        let i = match self.find_key(k) {
            Some(pos) => {
                proof {
                    assert(self.keys@[pos as int].1 == self.entry_of(k));
                }
                self.keys[pos].1.0
            },
            None => {
                proof {
                    assert(false);
                }
                Index(0)
            },
        };
        self.insert_data_at(i, v)
    }

    /// Stores a value at a slot handle; the old value, if any, is returned.
    fn insert_data_at(&mut self, idx: Index, v: V) -> (r: Option<V>)
        requires
            old(self).wf(),
        ensures
            final(self).wf(),
            final(self).keys@ == old(self).keys@,
            final(self).unique_keys == old(self).unique_keys,
            final(self).has_data(idx),
            final(self).data_of(idx) == v,
            forall|x: Index|
                x != idx ==> #[trigger] final(self).has_data(x) == old(self).has_data(x) && (
                old(self).has_data(x) ==> final(self).data_of(x) == old(self).data_of(x)),
            final(self).data@.len() == old(self).data@.len() + (if old(self).has_data(idx) {
                0int
            } else {
                1int
            }),
            match r {
                Some(prev) => old(self).has_data(idx) && prev == old(self).data_of(idx),
                None => !old(self).has_data(idx),
            },
    {
        let found = self.find_data(idx);
        match found {
            Some(pos) => {
                proof {
                    lemma_data_at(old(self).data@, pos as int);
                }
                let ghost dpre = self.data@;
                let old_pair = self.data.remove(pos);
                self.data.insert(pos, (idx, v));
                proof {
                    assert(self.data@ =~= dpre.update(pos as int, (idx, v)));
                    lemma_data_at(self.data@, pos as int);
                    lemma_data_frame(dpre, self.data@, idx);
                }
                Some(old_pair.1)
            },
            None => {
                let ghost dpre = self.data@;
                self.data.push((idx, v));
                proof {
                    lemma_data_at(self.data@, self.data@.len() - 1);
                    lemma_data_frame(dpre, self.data@, idx);
                }
                None
            },
        }
    }

    /// As `get`, for a key known to lead to data.
    pub fn unchecked_get(&self, k: &u64) -> (r: &V)
        requires
            self.wf(),
            self.has_key(*k),
            self.has_data(self.entry_of(*k).0),
        ensures
            *r == self.data_of(self.entry_of(*k).0),
    {
        self.get(k).unwrap()
    }

    /// Unbinds a primary key and frees its data slot, returning the value.
    pub fn remove(&mut self, k: &u64) -> (r: Option<V>)
        requires
            old(self).wf(),
        ensures
            final(self).wf(),
            old(self).spec_is_key(*k) ==> !final(self).has_key(*k) && !final(self).has_data(
                old(self).entry_of(*k).0,
            ),
            !old(self).spec_is_key(*k) ==> *final(self) == *old(self),
            forall|k2: u64|
                k2 != *k ==> #[trigger] final(self).has_key(k2) == old(self).has_key(k2) && (
                old(self).has_key(k2) ==> final(self).entry_of(k2) == old(self).entry_of(k2)),
            forall|x: Index|
                old(self).spec_is_key(*k) && x != old(self).entry_of(*k).0
                    ==> #[trigger] final(self).has_data(x) == old(self).has_data(x) && (old(
                    self,
                ).has_data(x) ==> final(self).data_of(x) == old(self).data_of(x)),
            match r {
                Some(v) => old(self).spec_is_key(*k) && old(self).has_data(
                    old(self).entry_of(*k).0,
                ) && v == old(self).data_of(old(self).entry_of(*k).0),
                None => !old(self).spec_is_key(*k) || !old(self).has_data(
                    old(self).entry_of(*k).0,
                ),
            },
    {
        let e = self.remove_key(k);
        let ghost mid = *self;
        let r = match e {
            Some((idx, _)) => {
                match self.find_data(idx) {
                    Some(pos) => {
                        proof {
                            lemma_data_at(self.data@, pos as int);
                        }
                        let pair = self.data.remove(pos);
                        proof {
                            lemma_unique_remove_data(old(self).data@, pos as int, idx);
                            lemma_data_frame_remove(old(self).data@, pos as int);
                        }
                        Some(pair.1)
                    },
                    None => None,
                }
            },
            None => {
                proof {
                    if self.has_key(*k) {
                        let l = choose|l: int|
                            0 <= l < self.keys@.len() && (#[trigger] self.keys@[l]).0 == *k;
                        lemma_entry_at(self.keys@, l);
                    }
                }
                None
            },
        };
        proof {
            assert forall|k2: u64| k2 != *k implies #[trigger] self.has_key(k2) == old(
                self,
            ).has_key(k2) && (old(self).has_key(k2) ==> self.entry_of(k2) == old(self).entry_of(
                k2,
            )) by {
                assert(mid.has_key(k2) == old(self).has_key(k2) && (old(self).has_key(k2)
                    ==> mid.entry_of(k2) == old(self).entry_of(k2)));
                assert(self.keys@ == mid.keys@);
            }
        }
        r
    }

    /// Unbinds a primary key, leaving aliases and data alone.
    pub fn remove_key(&mut self, k: &u64) -> (r: Option<(Index, usize)>)
        requires
            old(self).wf(),
        ensures
            final(self).wf(),
            final(self).data@ == old(self).data@,
            final(self).unique_keys == old(self).unique_keys,
            old(self).spec_is_key(*k) ==> !final(self).has_key(*k) && r == Some(
                old(self).entry_of(*k),
            ),
            !old(self).spec_is_key(*k) ==> *final(self) == *old(self) && r == None::<
                (Index, usize),
            >,
            forall|k2: u64|
                k2 != *k ==> #[trigger] final(self).has_key(k2) == old(self).has_key(k2) && (
                old(self).has_key(k2) ==> final(self).entry_of(k2) == old(self).entry_of(k2)),
    {
        if self.is_key(k) {
            let pos = self.find_key(*k).unwrap();
            proof {
                lemma_entry_at(self.keys@, pos as int);
            }
            let pair = self.keys.remove(pos);
            proof {
                lemma_unique_remove_key(old(self).keys@, pos as int, *k);
                lemma_key_frame_remove(old(self).keys@, pos as int);
            }
            Some(pair.1)
        } else {
            None
        }
    }

    /// Unbinds an alias; a primary key is left alone.
    pub fn remove_alias(&mut self, k: &u64)
        requires
            old(self).wf(),
        ensures
            final(self).wf(),
            final(self).data@ == old(self).data@,
            final(self).unique_keys == old(self).unique_keys,
            old(self).spec_is_alias(*k) ==> !final(self).has_key(*k),
            !old(self).spec_is_alias(*k) ==> *final(self) == *old(self),
            forall|k2: u64|
                k2 != *k ==> #[trigger] final(self).has_key(k2) == old(self).has_key(k2) && (
                old(self).has_key(k2) ==> final(self).entry_of(k2) == old(self).entry_of(k2)),
    {
        if self.is_alias(k) {
            let pos = self.find_key(*k).unwrap();
            proof {
                lemma_entry_at(self.keys@, pos as int);
            }
            self.keys.remove(pos);
            proof {
                lemma_unique_remove_key(old(self).keys@, pos as int, *k);
                lemma_key_frame_remove(old(self).keys@, pos as int);
            }
        }
    }

    /// Unbinds a key or alias without distinction.
    pub fn destroy_key(&mut self, k: &u64) -> (r: Option<(Index, usize)>)
        requires
            old(self).wf(),
        ensures
            final(self).wf(),
            final(self).data@ == old(self).data@,
            final(self).unique_keys == old(self).unique_keys,
            !final(self).has_key(*k),
            forall|k2: u64|
                k2 != *k ==> #[trigger] final(self).has_key(k2) == old(self).has_key(k2) && (
                old(self).has_key(k2) ==> final(self).entry_of(k2) == old(self).entry_of(k2)),
            match r {
                Some(e) => old(self).has_key(*k) && e == old(self).entry_of(*k),
                None => !old(self).has_key(*k),
            },
    {
        match self.find_key(*k) {
            Some(pos) => {
                proof {
                    lemma_entry_at(self.keys@, pos as int);
                }
                let pair = self.keys.remove(pos);
                proof {
                    lemma_unique_remove_key(old(self).keys@, pos as int, *k);
                    lemma_key_frame_remove(old(self).keys@, pos as int);
                }
                Some(pair.1)
            },
            None => None,
        }
    }

    /// How many primary keys were ever inserted.
    pub fn unique_keys_count(&self) -> (r: IndexType)
        ensures
            r == self.unique_keys,
    {
        self.unique_keys
    }

    /// Every bound key and alias, in storage order.
    pub fn keys(&self) -> (r: Vec<u64>)
        ensures
            r@.len() == self.keys@.len(),
            forall|i: int| 0 <= i < r@.len() ==> #[trigger] r@[i] == self.keys@[i].0,
    {
        let mut r: Vec<u64> = Vec::new();
        let mut i: usize = 0;
        while i < self.keys.len()
            invariant
                i <= self.keys@.len(),
                r@.len() == i,
                forall|l: int| 0 <= l < i ==> #[trigger] r@[l] == self.keys@[l].0,
            decreases self.keys@.len() - i,
        {
            r.push(self.keys[i].0);
            i += 1;
        }
        r
    }

    /// Every key with its slot handle, in storage order.
    pub fn key_values(&self) -> (r: Vec<(u64, Index)>)
        ensures
            r@.len() == self.keys@.len(),
            forall|i: int|
                0 <= i < r@.len() ==> #[trigger] r@[i] == (self.keys@[i].0, self.keys@[i].1.0),
    {
        let mut r: Vec<(u64, Index)> = Vec::new();
        let mut i: usize = 0;
        while i < self.keys.len()
            invariant
                i <= self.keys@.len(),
                r@.len() == i,
                forall|l: int|
                    0 <= l < i ==> #[trigger] r@[l] == (self.keys@[l].0, self.keys@[l].1.0),
            decreases self.keys@.len() - i,
        {
            let pair = self.keys[i];
            r.push((pair.0, pair.1.0));
            i += 1;
        }
        r
    }

    /// The data association itself.
    pub fn data(&self) -> (r: &Vec<(Index, V)>)
        ensures
            r == &self.data,
    {
        &self.data
    }

    /// References to every stored value, in storage order.
    pub fn data_values(&self) -> (r: Vec<&V>)
        ensures
            r@.len() == self.data@.len(),
            forall|i: int| 0 <= i < r@.len() ==> *(#[trigger] r@[i]) == self.data@[i].1,
    {
        let mut r: Vec<&V> = Vec::new();
        let mut i: usize = 0;
        while i < self.data.len()
            invariant
                i <= self.data@.len(),
                r@.len() == i,
                forall|l: int| 0 <= l < i ==> *(#[trigger] r@[l]) == self.data@[l].1,
            decreases self.data@.len() - i,
        {
            r.push(&self.data[i].1);
            i += 1;
        }
        r
    }

    pub fn keys_len(&self) -> (r: usize)
        ensures
            r == self.keys@.len(),
    {
        self.keys.len()
    }

    pub fn data_len(&self) -> (r: usize)
        ensures
            r == self.data@.len(),
    {
        self.data.len()
    }

    /// Rebinds a primary key under a new name, keeping its entry. A binding
    /// already under the new name is displaced and returned.
    pub fn replace_key(&mut self, prev: &u64, new: u64) -> (r: Option<(Index, usize)>)
        requires
            old(self).wf(),
        ensures
            final(self).wf(),
            final(self).data@ == old(self).data@,
            final(self).unique_keys == old(self).unique_keys,
            !old(self).spec_is_key(*prev) ==> *final(self) == *old(self) && r == None::<
                (Index, usize),
            >,
            old(self).spec_is_key(*prev) && *prev != new ==> !final(self).has_key(*prev) && final(self).has_key(new) && final(self).entry_of(new) == old(self).entry_of(*prev),
            old(self).spec_is_key(*prev) && *prev != new ==> match r {
                Some(e) => old(self).has_key(new) && e == old(self).entry_of(new),
                None => !old(self).has_key(new),
            },
    {
        if self.is_key(prev) {
            let pos = self.find_key(*prev).unwrap();
            proof {
                lemma_entry_at(self.keys@, pos as int);
            }
            let pair = self.keys.remove(pos);
            let ghost kmid = self.keys@;
            proof {
                lemma_unique_remove_key(old(self).keys@, pos as int, *prev);
                lemma_key_frame_remove(old(self).keys@, pos as int);
            }
            let tmp = pair.1;
            let r = match self.find_key(new) {
                Some(pos2) => {
                    let prev_entry = self.keys[pos2].1;
                    proof {
                        lemma_entry_at(self.keys@, pos2 as int);
                        if *prev != new {
                            assert(key_assoc_has(kmid, new));
                            assert(entry_lookup(kmid, new) == entry_lookup(old(self).keys@, new));
                        }
                    }
                    self.keys.set(pos2, (new, tmp));
                    proof {
                        lemma_entry_at(self.keys@, pos2 as int);
                        assert forall|l: int|
                            0 <= l < self.keys@.len() && (#[trigger] self.keys@[l]).0 == *prev
                            implies false by {
                            assert(kmid[l].0 == *prev);
                        }
                    }
                    Some(prev_entry)
                },
                None => {
                    self.keys.push((new, tmp));
                    proof {
                        lemma_entry_at(self.keys@, self.keys@.len() - 1);
                        if new != *prev {
                            assert forall|l: int|
                                0 <= l < self.keys@.len() && (#[trigger] self.keys@[l]).0 == *prev
                                implies false by {
                                assert(l < kmid.len() && kmid[l].0 == *prev);
                            }
                        }
                    }
                    None
                },
            };
            r
        } else {
            None
        }
    }

    /// Registers `alias` as another name for `base`'s slot and counts it on
    /// `base`'s entry. A base that is itself an alias is refused.
    pub fn alias(&mut self, base: &u64, alias: u64) -> (r: Option<Index>)
        requires
            old(self).wf(),
            old(self).has_key(*base),
            old(self).entry_of(*base).1 < usize::MAX,
        ensures
            final(self).wf(),
            final(self).data@ == old(self).data@,
            final(self).unique_keys == old(self).unique_keys,
            old(self).spec_is_alias(*base) ==> *final(self) == *old(self) && r == None::<Index>,
            !old(self).spec_is_alias(*base) && alias != *base ==> final(self).has_key(alias)
                && final(self).entry_of(alias) == (old(self).entry_of(*base).0, 0usize),
            !old(self).spec_is_alias(*base) && alias != *base ==> final(self).has_key(*base)
                && final(self).entry_of(*base) == (
                old(self).entry_of(*base).0,
                (old(self).entry_of(*base).1 + 1) as usize,
            ),
            !old(self).spec_is_alias(*base) && alias != *base ==> match r {
                Some(prev) => old(self).has_key(alias) && prev == old(self).entry_of(alias).0,
                None => !old(self).has_key(alias),
            },
    {
        if !self.is_alias(base) {
            let pos = self.find_key(*base).unwrap();
            proof {
                lemma_entry_at(self.keys@, pos as int);
            }
            let entry = self.keys[pos];
            let idx = entry.1.0;
            let ghost k0 = old(self).keys@;
            self.keys.set(pos, (entry.0, (entry.1.0, entry.1.1 + 1)));
            let ghost k1 = self.keys@;
            proof {
                lemma_entry_at(self.keys@, pos as int);
            }
            match self.find_key(alias) {
                Some(pos2) => {
                    let prev = self.keys[pos2].1.0;
                    proof {
                        if alias != *base {
                            assert(pos2 != pos);
                            assert(k0[pos2 as int] == k1[pos2 as int]);
                            assert(key_assoc_has(k0, alias));
                            lemma_entry_at(k0, pos2 as int);
                            assert(prev == entry_lookup(k0, alias).0);
                        }
                    }
                    self.keys.set(pos2, (alias, (idx, 0)));
                    proof {
                        lemma_entry_at(self.keys@, pos2 as int);
                        if alias != *base {
                            assert(self.keys@[pos as int] == k1[pos as int]);
                            lemma_entry_at(self.keys@, pos as int);
                        }
                    }
                    Some(prev)
                },
                None => {
                    proof {
                        if alias != *base && key_assoc_has(k0, alias) {
                            let l = choose|l: int|
                                0 <= l < k0.len() && (#[trigger] k0[l]).0 == alias;
                            assert(l != pos);
                            assert(k1[l].0 == alias);
                        }
                    }
                    self.keys.push((alias, (idx, 0)));
                    proof {
                        lemma_entry_at(self.keys@, self.keys@.len() - 1);
                        assert(self.keys@[pos as int] == k1[pos as int]);
                        lemma_entry_at(self.keys@, pos as int);
                    }
                    None
                },
            }
        } else {
            None
        }
    }

    /// Unbinds every alias of the primary key `base` and returns their
    /// names; `base` itself stays. An unbound or alias `base` does nothing.
    /// On success the remaining key association is exactly
    /// [`kept_of`] applied to the old one and the result exactly
    /// [`dropped_keys`]: the aliases of the key's slot, in storage order.
    pub fn unalias(&mut self, base: &u64) -> (r: Vec<u64>)
        requires
            old(self).wf(),
        ensures
            final(self).wf(),
            final(self).data@ == old(self).data@,
            final(self).unique_keys == old(self).unique_keys,
            !old(self).spec_is_key(*base) ==> *final(self) == *old(self) && r@.len() == 0,
            old(self).spec_is_key(*base) ==> {
                let idx = old(self).entry_of(*base).0;
                &&& final(self).keys@ == kept_of(
                    old(self).keys@,
                    *base,
                    idx,
                    old(self).keys@.len() as int,
                )
                &&& r@ == dropped_keys(old(self).keys@, *base, idx, old(self).keys@.len() as int)
            },
    {
        if !self.is_key(base) {
            return Vec::new();
        }
        let pos = self.find_key(*base).unwrap();
        proof {
            lemma_entry_at(self.keys@, pos as int);
        }
        let idx = self.keys[pos].1.0;
        let ghost kpre = self.keys@;
        let mut kept: Vec<(u64, (Index, usize))> = Vec::new();
        let mut res: Vec<u64> = Vec::new();
        let mut i: usize = 0;
        while i < self.keys.len()
            invariant
                i <= self.keys@.len(),
                self.keys@ == kpre,
                kept@ == kept_of(kpre, *base, idx, i as int),
                res@ == dropped_keys(kpre, *base, idx, i as int),
            decreases self.keys@.len() - i,
        {
            let e = self.keys[i];
            if e.0 == *base || e.1.0 != idx {
                kept.push(e);
            } else {
                res.push(e.0);
            }
            i += 1;
            proof {
                assert(kept@ == kept_of(kpre, *base, idx, i as int));
                assert(res@ == dropped_keys(kpre, *base, idx, i as int));
            }
        }
        proof {
            lemma_kept_of_sources(kpre, *base, idx, kpre.len() as int);
            lemma_kept_of_unique(kpre, *base, idx, kpre.len() as int);
        }
        self.keys = kept;
        res
    }

    /// The key is bound as a primary key.
    pub fn is_key(&self, k: &u64) -> (r: bool)
        requires
            self.wf(),
        ensures
            r == self.spec_is_key(*k),
    {
        match self.find_key(*k) {
            Some(i) => {
                proof {
                    lemma_entry_at(self.keys@, i as int);
                }
                self.keys[i].1.1 != 0
            },
            None => false,
        }
    }

    /// The key is bound as an alias.
    pub fn is_alias(&self, k: &u64) -> (r: bool)
        requires
            self.wf(),
        ensures
            r == self.spec_is_alias(*k),
    {
        match self.find_key(*k) {
            Some(i) => {
                proof {
                    lemma_entry_at(self.keys@, i as int);
                }
                self.keys[i].1.1 == 0
            },
            None => false,
        }
    }

    /// `other` is an alias of the primary key `base`: both bound, sharing
    /// one slot.
    pub fn is_alias_of(&self, base: &u64, other: &u64) -> (r: bool)
        requires
            self.wf(),
            self.has_key(*base),
            self.has_key(*other),
        ensures
            r == (self.spec_is_key(*base) && self.spec_is_alias(*other) && self.entry_of(*base).0
                == self.entry_of(*other).0),
    {
        let a = self.keys_get(base).unwrap();
        let b = self.keys_get(other).unwrap();
        self.is_key(base) && self.is_alias(other) && a.0 == b.0
    }

    /// The number of distinct data slots in use.
    pub fn order(&self) -> (r: usize)
        requires
            self.wf(),
        ensures
            r == self.data@.len(),
    {
        self.data.len()
    }
}

/// The entries of the first `i` source entries that survive an unalias of
/// the slot `idx` under the primary key `base`.
pub open spec fn kept_of(
    kpre: Seq<(u64, (Index, usize))>,
    base: u64,
    idx: Index,
    i: int,
) -> Seq<(u64, (Index, usize))>
    decreases i,
{
    if i <= 0 {
        Seq::empty()
    } else {
        let p = kept_of(kpre, base, idx, i - 1);
        if kpre[i - 1].0 == base || kpre[i - 1].1.0 != idx {
            p.push(kpre[i - 1])
        } else {
            p
        }
    }
}

/// The keys of the first `i` source entries that an unalias of the slot
/// `idx` under the primary key `base` drops: its aliases, in order.
pub open spec fn dropped_keys(
    kpre: Seq<(u64, (Index, usize))>,
    base: u64,
    idx: Index,
    i: int,
) -> Seq<u64>
    decreases i,
{
    if i <= 0 {
        Seq::empty()
    } else {
        let p = dropped_keys(kpre, base, idx, i - 1);
        if kpre[i - 1].0 == base || kpre[i - 1].1.0 != idx {
            p
        } else {
            p.push(kpre[i - 1].0)
        }
    }
}

/// Every kept entry is one of the first `i` source entries.
proof fn lemma_kept_of_sources(kpre: Seq<(u64, (Index, usize))>, base: u64, idx: Index, i: int)
    ensures
        forall|l: int|
            #![trigger kept_of(kpre, base, idx, i)[l]]
            0 <= l < kept_of(kpre, base, idx, i).len() ==> exists|m: int|
                0 <= m < i && kept_of(kpre, base, idx, i)[l] == #[trigger] kpre[m],
    decreases i,
{
    if i > 0 {
        lemma_kept_of_sources(kpre, base, idx, i - 1);
        let p = kept_of(kpre, base, idx, i - 1);
        let q = kept_of(kpre, base, idx, i);
        assert forall|l: int| #![trigger q[l]] 0 <= l < q.len() implies exists|m: int|
            0 <= m < i && q[l] == #[trigger] kpre[m] by {
            if l < p.len() {
                assert(q[l] == p[l]);
                let m = choose|m: int| 0 <= m < i - 1 && p[l] == #[trigger] kpre[m];
                assert(q[l] == kpre[m]);
            } else {
                assert(q[l] == kpre[i - 1]);
            }
        }
    }
}

/// If the source keys are pairwise distinct, so are the kept entries' keys.
proof fn lemma_kept_of_unique(kpre: Seq<(u64, (Index, usize))>, base: u64, idx: Index, i: int)
    requires
        i <= kpre.len(),
        forall|a: int, b: int|
            0 <= a < b < kpre.len() ==> (#[trigger] kpre[a]).0 != (#[trigger] kpre[b]).0,
    ensures
        forall|a: int, b: int|
            0 <= a < b < kept_of(kpre, base, idx, i).len() ==> (#[trigger] kept_of(
                kpre,
                base,
                idx,
                i,
            )[a]).0 != (#[trigger] kept_of(kpre, base, idx, i)[b]).0,
    decreases i,
{
    if i > 0 {
        lemma_kept_of_unique(kpre, base, idx, i - 1);
        lemma_kept_of_sources(kpre, base, idx, i - 1);
        let p = kept_of(kpre, base, idx, i - 1);
        let q = kept_of(kpre, base, idx, i);
        assert forall|a: int, b: int| 0 <= a < b < q.len() implies (#[trigger] q[a]).0 != (
        #[trigger] q[b]).0 by {
            if b < p.len() {
                assert(q[a] == p[a] && q[b] == p[b]);
            } else if q.len() > p.len() {
                assert(q[b] == kpre[i - 1]);
                assert(q[a] == p[a]);
                let m = choose|m: int| 0 <= m < i - 1 && p[a] == #[trigger] kpre[m];
                assert(kpre[m].0 != kpre[i - 1].0);
            }
        }
    }
}

/// A key is bound in a raw key association.
pub open spec fn key_assoc_has(s: Seq<(u64, (Index, usize))>, k: u64) -> bool {
    exists|i: int| 0 <= i < s.len() && (#[trigger] s[i]).0 == k
}

/// The entry a key lookup resolves to, over a raw key association.
pub open spec fn entry_lookup(s: Seq<(u64, (Index, usize))>, k: u64) -> (Index, usize) {
    s[choose|i: int| 0 <= i < s.len() && (#[trigger] s[i]).0 == k].1
}

/// In a duplicate-free key association, the entry at a key's position is
/// what lookup resolves to.
proof fn lemma_entry_at(s: Seq<(u64, (Index, usize))>, i: int)
    requires
        0 <= i < s.len(),
        forall|a: int, b: int| 0 <= a < b < s.len() ==> (#[trigger] s[a]).0 != (#[trigger] s[b]).0,
    ensures
        entry_lookup(s, s[i].0) == s[i].1,
{
    let k = s[i].0;
    let j = choose|j: int| 0 <= j < s.len() && (#[trigger] s[j]).0 == k;
    if i != j {
        if i < j {
            assert(s[i].0 != s[j].0);
        } else {
            assert(s[j].0 != s[i].0);
        }
    }
}

/// As [`lemma_entry_at`], for the data association.
proof fn lemma_data_at<V>(s: Seq<(Index, V)>, i: int)
    requires
        0 <= i < s.len(),
        forall|a: int, b: int| 0 <= a < b < s.len() ==> (#[trigger] s[a]).0 != (#[trigger] s[b]).0,
    ensures
        s[choose|j: int| 0 <= j < s.len() && (#[trigger] s[j]).0 == s[i].0].1 == s[i].1,
{
    let k = s[i].0;
    let j = choose|j: int| 0 <= j < s.len() && (#[trigger] s[j]).0 == k;
    if i != j {
        if i < j {
            assert(s[i].0 != s[j].0);
        } else {
            assert(s[j].0 != s[i].0);
        }
    }
}

/// Removing the only entry of a key leaves an association without it.
proof fn lemma_unique_remove_key(s: Seq<(u64, (Index, usize))>, i: int, k: u64)
    requires
        0 <= i < s.len(),
        s[i].0 == k,
        forall|a: int, b: int| 0 <= a < b < s.len() ==> (#[trigger] s[a]).0 != (#[trigger] s[b]).0,
    ensures
        forall|l: int| 0 <= l < s.remove(i).len() ==> (#[trigger] s.remove(i)[l]).0 != k,
        forall|a: int, b: int|
            0 <= a < b < s.remove(i).len() ==> (#[trigger] s.remove(i)[a]).0 != (
            #[trigger] s.remove(i)[b]).0,
{
    let t = s.remove(i);
    assert forall|l: int| 0 <= l < t.len() implies (#[trigger] t[l]).0 != k by {
        if l < i {
            assert(t[l] == s[l]);
        } else {
            assert(t[l] == s[l + 1]);
        }
    }
    assert forall|a: int, b: int| 0 <= a < b < t.len() implies (#[trigger] t[a]).0 != (
    #[trigger] t[b]).0 by {
        let a2: int = if a < i {
            a
        } else {
            a + 1
        };
        let b2: int = if b < i {
            b
        } else {
            b + 1
        };
        assert(t[a] == s[a2] && t[b] == s[b2]);
        assert(s[a2].0 != s[b2].0);
    }
}

/// As [`lemma_unique_remove_key`], for the data association.
proof fn lemma_unique_remove_data<V>(s: Seq<(Index, V)>, i: int, k: Index)
    requires
        0 <= i < s.len(),
        s[i].0 == k,
        forall|a: int, b: int| 0 <= a < b < s.len() ==> (#[trigger] s[a]).0 != (#[trigger] s[b]).0,
    ensures
        forall|l: int| 0 <= l < s.remove(i).len() ==> (#[trigger] s.remove(i)[l]).0 != k,
        forall|a: int, b: int|
            0 <= a < b < s.remove(i).len() ==> (#[trigger] s.remove(i)[a]).0 != (
            #[trigger] s.remove(i)[b]).0,
{
    let t = s.remove(i);
    assert forall|l: int| 0 <= l < t.len() implies (#[trigger] t[l]).0 != k by {
        if l < i {
            assert(t[l] == s[l]);
        } else {
            assert(t[l] == s[l + 1]);
        }
    }
    assert forall|a: int, b: int| 0 <= a < b < t.len() implies (#[trigger] t[a]).0 != (
    #[trigger] t[b]).0 by {
        let a2: int = if a < i {
            a
        } else {
            a + 1
        };
        let b2: int = if b < i {
            b
        } else {
            b + 1
        };
        assert(t[a] == s[a2] && t[b] == s[b2]);
        assert(s[a2].0 != s[b2].0);
    }
}

/// A handle is bound in a raw data association.
pub open spec fn assoc_has<V>(s: Seq<(Index, V)>, x: Index) -> bool {
    exists|l: int| 0 <= l < s.len() && (#[trigger] s[l]).0 == x
}

/// The value a handle is bound to in a raw data association.
pub open spec fn assoc_get<V>(s: Seq<(Index, V)>, x: Index) -> V {
    s[choose|l: int| 0 <= l < s.len() && (#[trigger] s[l]).0 == x].1
}

/// Removing one entry leaves every other key's binding alone.
proof fn lemma_key_frame_remove(s: Seq<(u64, (Index, usize))>, i: int)
    requires
        0 <= i < s.len(),
        forall|a: int, b: int| 0 <= a < b < s.len() ==> (#[trigger] s[a]).0 != (#[trigger] s[b]).0,
    ensures
        forall|k2: u64|
            k2 != s[i].0 ==> (#[trigger] key_assoc_has(s.remove(i), k2) <==> key_assoc_has(s, k2)),
        forall|k2: u64|
            k2 != s[i].0 && #[trigger] key_assoc_has(s, k2) ==> entry_lookup(s.remove(i), k2)
                == entry_lookup(s, k2),
{
    let t = s.remove(i);
    assert forall|k2: u64|
        k2 != s[i].0 implies (#[trigger] key_assoc_has(s.remove(i), k2) <==> key_assoc_has(
            s,
            k2,
        )) && (key_assoc_has(s, k2) ==> entry_lookup(s.remove(i), k2) == entry_lookup(s, k2)) by {
        assert(s.remove(i) == t);
        if key_assoc_has(s, k2) {
            let l = choose|l: int| 0 <= l < s.len() && (#[trigger] s[l]).0 == k2;
            let l2: int = if l < i {
                l
            } else {
                l - 1
            };
            assert(t[l2] == s[l]);
            assert(key_assoc_has(t, k2));
            lemma_entry_at(s, l);
            assert forall|a: int, b: int| 0 <= a < b < t.len() implies (#[trigger] t[a]).0 != (
            #[trigger] t[b]).0 by {
                let a2: int = if a < i {
                    a
                } else {
                    a + 1
                };
                let b2: int = if b < i {
                    b
                } else {
                    b + 1
                };
                assert(t[a] == s[a2] && t[b] == s[b2]);
                assert(s[a2].0 != s[b2].0);
            }
            lemma_entry_at(t, l2);
        }
        if key_assoc_has(t, k2) {
            let l = choose|l: int| 0 <= l < t.len() && (#[trigger] t[l]).0 == k2;
            if l < i {
                assert(s[l].0 == k2);
            } else {
                assert(s[l + 1].0 == k2);
            }
            assert(key_assoc_has(s, k2));
        }
    }
    assert forall|k2: u64| k2 != s[i].0 && #[trigger] key_assoc_has(s, k2) implies entry_lookup(
        s.remove(i),
        k2,
    ) == entry_lookup(s, k2) by {
        assert(key_assoc_has(s.remove(i), k2));
    }
}

/// Removing one data slot leaves every other slot's binding alone.
proof fn lemma_data_frame_remove<V>(s: Seq<(Index, V)>, i: int)
    requires
        0 <= i < s.len(),
        forall|a: int, b: int| 0 <= a < b < s.len() ==> (#[trigger] s[a]).0 != (#[trigger] s[b]).0,
    ensures
        forall|x: Index|
            x != s[i].0 ==> (#[trigger] assoc_has(s.remove(i), x) <==> assoc_has(s, x)),
        forall|x: Index|
            x != s[i].0 && #[trigger] assoc_has(s, x) ==> assoc_get(s.remove(i), x) == assoc_get(
                s,
                x,
            ),
{
    let t = s.remove(i);
    assert forall|x: Index|
        x != s[i].0 implies (#[trigger] assoc_has(s.remove(i), x) <==> assoc_has(s, x)) && (
        assoc_has(s, x) ==> assoc_get(s.remove(i), x) == assoc_get(s, x)) by {
        assert(s.remove(i) == t);
        if assoc_has(s, x) {
            let l = choose|l: int| 0 <= l < s.len() && (#[trigger] s[l]).0 == x;
            let l2: int = if l < i {
                l
            } else {
                l - 1
            };
            assert(t[l2] == s[l]);
            assert(assoc_has(t, x));
            lemma_data_at(s, l);
            assert forall|a: int, b: int| 0 <= a < b < t.len() implies (#[trigger] t[a]).0 != (
            #[trigger] t[b]).0 by {
                let a2: int = if a < i {
                    a
                } else {
                    a + 1
                };
                let b2: int = if b < i {
                    b
                } else {
                    b + 1
                };
                assert(t[a] == s[a2] && t[b] == s[b2]);
                assert(s[a2].0 != s[b2].0);
            }
            lemma_data_at(t, l2);
        }
        if assoc_has(t, x) {
            let l = choose|l: int| 0 <= l < t.len() && (#[trigger] t[l]).0 == x;
            if l < i {
                assert(s[l].0 == x);
            } else {
                assert(s[l + 1].0 == x);
            }
            assert(assoc_has(s, x));
        }
    }
    assert forall|x: Index| x != s[i].0 && #[trigger] assoc_has(s, x) implies assoc_get(
        s.remove(i),
        x,
    ) == assoc_get(s, x) by {
        assert(assoc_has(s.remove(i), x));
    }
}

/// Two data associations that agree off one handle have the same bindings
/// there.
proof fn lemma_data_frame<V>(pre: Seq<(Index, V)>, post: Seq<(Index, V)>, idx: Index)
    requires
        forall|a: int, b: int|
            0 <= a < b < pre.len() ==> (#[trigger] pre[a]).0 != (#[trigger] pre[b]).0,
        forall|a: int, b: int|
            0 <= a < b < post.len() ==> (#[trigger] post[a]).0 != (#[trigger] post[b]).0,
        pre.len() <= post.len() <= pre.len() + 1,
        forall|l: int| 0 <= l < pre.len() && (#[trigger] pre[l]).0 != idx ==> post[l] == pre[l],
        forall|l: int| 0 <= l < post.len() && (#[trigger] post[l]).0 != idx ==> l < pre.len()
            && post[l] == pre[l],
    ensures
        forall|x: Index| x != idx ==> #[trigger] assoc_has(post, x) == assoc_has(pre, x),
        forall|x: Index|
            x != idx && assoc_has(pre, x) ==> #[trigger] assoc_get(post, x) == assoc_get(pre, x),
{
    assert forall|x: Index| x != idx implies #[trigger] assoc_has(post, x) == assoc_has(
        pre,
        x,
    ) by {
        if assoc_has(pre, x) {
            let l = choose|l: int| 0 <= l < pre.len() && (#[trigger] pre[l]).0 == x;
            assert(post[l].0 == x);
            assert(assoc_has(post, x));
        }
        if assoc_has(post, x) {
            let l = choose|l: int| 0 <= l < post.len() && (#[trigger] post[l]).0 == x;
            assert(pre[l].0 == x);
            assert(assoc_has(pre, x));
        }
    }
    assert forall|x: Index| x != idx && assoc_has(pre, x) implies #[trigger] assoc_get(post, x)
        == assoc_get(pre, x) by {
        let lp = choose|l: int| 0 <= l < pre.len() && (#[trigger] pre[l]).0 == x;
        lemma_data_at(pre, lp);
        assert(post[lp].0 == x);
        let lq = choose|l: int| 0 <= l < post.len() && (#[trigger] post[l]).0 == x;
        lemma_data_at(post, lq);
        lemma_data_at(post, lp);
    }
}

} // verus!
