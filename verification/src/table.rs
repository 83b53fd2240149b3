//! Keyed tables: hashing is hashbrown's, the entries are kept here.
//!
//! A [`Table`] stores its entries densely in insertion order (disturbed only
//! by removals) and keeps a hashbrown map from each key to the slot of its
//! entry. The map is the only part that is trusted; that the table behaves as
//! a map from keys to values is proved.

use vstd::prelude::*;

verus! {

/// The plain form of a key, as the hash map stores it.
pub type RawKey = (Option<u64>, u64);

/// A type whose values can key a [`Table`].
pub trait Keyed: Copy {
    /// The plain form of the key.
    spec fn raw(self) -> RawKey;

    fn to_raw(&self) -> (raw: RawKey)
        ensures
            raw == self.raw(),
    ;

    /// Different keys have different plain forms.
    proof fn lemma_raw_injective(a: Self, b: Self)
        requires
            a.raw() == b.raw(),
        ensures
            a == b,
    ;
}

/// A hashbrown map from plain keys to slots.
///
/// The type of the map takes an allocator, bound by a trait that is private
/// to hashbrown, so the type cannot be made known to the verifier. It is
/// kept in this struct instead, into which the verifier does not look:
/// what the struct holds is told by [`key_index_entries`], and every use of
/// the map goes through one of the four functions below.
#[verifier::external_body]
pub struct KeyIndex {
    inner: hashbrown::HashMap<RawKey, usize>,
}

/// What a [`KeyIndex`] holds: the slot of each key in it.
pub uninterp spec fn key_index_entries(index: KeyIndex) -> Map<RawKey, usize>;

/// `hashbrown::HashMap::new`: a map that holds nothing.
#[verifier::external_body]
fn key_index_new() -> (index: KeyIndex)
    ensures
        key_index_entries(index) == (Map::<RawKey, usize>::empty()),
{
    KeyIndex { inner: hashbrown::HashMap::new() }
}

/// `hashbrown::HashMap::get`: the slot stored under `key`, if there is one.
/// The map is left as it was.
#[verifier::external_body]
fn key_index_get(index: &KeyIndex, key: RawKey) -> (slot: Option<usize>)
    ensures
        slot == (if key_index_entries(*index).contains_key(key) {
            Some(key_index_entries(*index)[key])
        } else {
            None
        }),
{
    index.inner.get(&key).copied()
}

/// `hashbrown::HashMap::insert`: afterwards `key` maps to `slot` and every
/// other key to what it mapped to before. Returns what `key` mapped to
/// before, if anything.
#[verifier::external_body]
fn key_index_insert(index: &mut KeyIndex, key: RawKey, slot: usize) -> (previous: Option<usize>)
    ensures
        key_index_entries(*final(index)) == key_index_entries(*old(index)).insert(key, slot),
        previous == (if key_index_entries(*old(index)).contains_key(key) {
            Some(key_index_entries(*old(index))[key])
        } else {
            None
        }),
{
    index.inner.insert(key, slot)
}

/// `hashbrown::HashMap::remove`: afterwards `key` is not in the map and
/// every other key maps to what it mapped to before. Returns what `key`
/// mapped to before, if anything.
#[verifier::external_body]
fn key_index_remove(index: &mut KeyIndex, key: RawKey) -> (previous: Option<usize>)
    ensures
        key_index_entries(*final(index)) == key_index_entries(*old(index)).remove(key),
        previous == (if key_index_entries(*old(index)).contains_key(key) {
            Some(key_index_entries(*old(index))[key])
        } else {
            None
        }),
{
    index.inner.remove(&key)
}

/// A sequence after the entry at `i` was removed by moving the last entry
/// into its place.
pub open spec fn swap_removed<T>(entries: Seq<T>, i: int) -> Seq<T>
    recommends
        0 <= i < entries.len(),
{
    entries.update(i, entries.last()).drop_last()
}

/// A map from keys to values with constant-time lookup.
pub struct Table<K, V> {
    index: KeyIndex,
    keys: Vec<K>,
    values: Vec<V>,
}

impl<K: Keyed, V> Table<K, V> {
    /// The keys, in the order in which the table stores its entries.
    pub closed spec fn keys(&self) -> Seq<K> {
        self.keys@
    }

    /// The values, in the order in which the table stores its entries.
    pub closed spec fn values(&self) -> Seq<V> {
        self.values@
    }

    /// The table as a map.
    pub open spec fn view(&self) -> Map<K, V> {
        Map::new(
            |k: K| self.keys().contains(k),
            |k: K| self.values()[self.keys().index_of(k)],
        )
    }

    /// The index and the entries agree.
    pub closed spec fn linked(&self) -> bool {
        let idx = key_index_entries(self.index);
        &&& forall|i: int|
            0 <= i < self.keys@.len() ==> idx.contains_key(#[trigger] self.keys@[i].raw())
                && idx[self.keys@[i].raw()] == i
        &&& forall|raw: RawKey| #[trigger]
            idx.contains_key(raw) ==> idx[raw] < self.keys@.len() && self.keys@[idx[raw] as int].raw()
                == raw
    }

    /// The table is well formed: one value per key, and no key twice.
    pub open spec fn wf(&self) -> bool {
        &&& self.linked()
        &&& self.keys().len() == self.values().len()
        &&& self.keys().no_duplicates()
    }

    /// The number of entries.
    pub open spec fn spec_len(&self) -> nat {
        self.keys().len()
    }

    proof fn lemma_slot(&self, k: K)
        requires
            self.linked(),
            self.keys@.len() == self.values@.len(),
        ensures
            self.keys@.contains(k) <==> key_index_entries(self.index).contains_key(k.raw()),
            self.keys@.contains(k) ==> self.keys@[key_index_entries(self.index)[k.raw()] as int]
                == k,
    {
        let idx = key_index_entries(self.index);
        if self.keys@.contains(k) {
            let i = choose|i: int| 0 <= i < self.keys@.len() && self.keys@[i] == k;
            assert(idx.contains_key(self.keys@[i].raw()));
        }
        if idx.contains_key(k.raw()) {
            let i = idx[k.raw()] as int;
            assert(self.keys@[i].raw() == k.raw());
            K::lemma_raw_injective(self.keys@[i], k);
        }
    }

    proof fn lemma_no_duplicates(&self)
        requires
            self.linked(),
        ensures
            self.keys@.no_duplicates(),
    {
        let idx = key_index_entries(self.index);
        assert forall|i: int, j: int|
            0 <= i < self.keys@.len() && 0 <= j < self.keys@.len() && i != j implies self.keys@[i]
            != self.keys@[j] by {
            assert(idx[self.keys@[i].raw()] == i);
            assert(idx[self.keys@[j].raw()] == j);
        }
    }

    /// A table without entries.
    pub fn new() -> (table: Self)
        ensures
            table.wf(),
            table@ == Map::<K, V>::empty(),
            table.keys() == Seq::<K>::empty(),
            table.values() == Seq::<V>::empty(),
    {
        let table = Table { index: key_index_new(), keys: Vec::new(), values: Vec::new() };
        assert(table@ =~= Map::<K, V>::empty());
        table
    }

    pub fn len(&self) -> (n: usize)
        requires
            self.wf(),
        ensures
            n == self.spec_len(),
    {
        self.keys.len()
    }

    /// The key of the `i`-th entry.
    pub fn key_at(&self, i: usize) -> (k: K)
        requires
            self.wf(),
            i < self.spec_len(),
        ensures
            k == self.keys()[i as int],
    {
        self.keys[i]
    }

    /// The value of the `i`-th entry.
    pub fn value_at(&self, i: usize) -> (v: &V)
        requires
            self.wf(),
            i < self.spec_len(),
        ensures
            *v == self.values()[i as int],
    {
        &self.values[i]
    }

    pub fn contains_key(&self, key: K) -> (b: bool)
        requires
            self.wf(),
        ensures
            b == self@.contains_key(key),
    {
        proof {
            self.lemma_slot(key);
        }
        key_index_get(&self.index, key.to_raw()).is_some()
    }

    pub fn get(&self, key: K) -> (value: Option<&V>)
        requires
            self.wf(),
        ensures
            match value {
                Some(v) => self@.contains_key(key) && *v == self@[key],
                None => !self@.contains_key(key),
            },
    {
        proof {
            self.lemma_slot(key);
        }
        match key_index_get(&self.index, key.to_raw()) {
            Some(i) => {
                proof {
                    self.keys@.index_of_first_ensures(key);
                    assert(self.keys@.index_of(key) == i);
                }
                Some(&self.values[i])
            },
            None => None,
        }
    }

    /// A reference through which the value under `key` can be changed in
    /// place. Nothing else in the table changes.
    pub fn get_mut(&mut self, key: K) -> (value: Option<&mut V>)
        requires
            old(self).wf(),
        ensures
            final(self).wf(),
            final(self).keys() == old(self).keys(),
            match value {
                Some(v) => old(self)@.contains_key(key) && *v == old(self)@[key] && final(self)@
                    == old(self)@.insert(key, *final(v)) && final(self).values() == old(self).values().update(old(self).keys().index_of(key), *final(v)),
                None => !old(self)@.contains_key(key) && final(self)@ == old(self)@ && final(self).values() == old(self).values(),
            },
    {
        proof {
            self.lemma_slot(key);
        }
        match key_index_get(&self.index, key.to_raw()) {
            Some(i) => {
                proof {
                    self.keys@.index_of_first_ensures(key);
                    assert(self.keys@.index_of(key) == i);
                }
                Some(&mut self.values[i])
            },
            None => None,
        }
    }

    /// Puts `value` under `key`. Returns the value that was there before, if
    /// any. A new key goes to the end of the entries.
    pub fn insert(&mut self, key: K, value: V) -> (previous: Option<V>)
        requires
            old(self).wf(),
        ensures
            final(self).wf(),
            final(self)@ == old(self)@.insert(key, value),
            match previous {
                Some(p) => old(self)@.contains_key(key) && p == old(self)@[key] && final(self).keys() == old(self).keys() && final(self).values() == old(self).values().update(
                    old(self).keys().index_of(key),
                    value,
                ),
                None => !old(self)@.contains_key(key) && final(self).keys() == old(self).keys().push(key) && final(self).values() == old(self).values().push(value),
            },
    {
        proof {
            self.lemma_slot(key);
        }
        match key_index_get(&self.index, key.to_raw()) {
            Some(i) => {
                proof {
                    self.keys@.index_of_first_ensures(key);
                    assert(self.keys@.index_of(key) == i);
                }
                let mut value = value;
                std::mem::swap(&mut self.values[i], &mut value);
                assert(self@ =~= old(self)@.insert(key, self.values@[i as int]));
                Some(value)
            },
            None => {
                let slot = self.keys.len();
                key_index_insert(&mut self.index, key.to_raw(), slot);
                self.keys.push(key);
                self.values.push(value);
                proof {
                    assert(self.linked()) by {
                        let idx = key_index_entries(self.index);
                        assert forall|i: int| 0 <= i < self.keys@.len() implies idx.contains_key(
                            #[trigger] self.keys@[i].raw(),
                        ) && idx[self.keys@[i].raw()] == i by {
                            if i < slot {
                                assert(self.keys@[i] == old(self).keys@[i]);
                                if self.keys@[i].raw() == key.raw() {
                                    K::lemma_raw_injective(self.keys@[i], key);
                                    assert(old(self).keys@.contains(key));
                                }
                            }
                        }
                    }
                    self.lemma_no_duplicates();
                    assert forall|k: K| #[trigger] self@.contains_key(k) implies self@[k] == old(self)@.insert(key, value)[k] by {
                        self.keys@.index_of_first_ensures(k);
                        let i = self.keys@.index_of(k);
                        if i < slot {
                            assert(old(self).keys@[i] == k);
                            old(self).keys@.index_of_first_ensures(k);
                        }
                    }
                    assert forall|k: K| old(self)@.insert(key, value).contains_key(
                        k,
                    ) implies #[trigger] self@.contains_key(k) by {
                        if k == key {
                            assert(self.keys@[slot as int] == key);
                        } else {
                            let i = old(self).keys@.index_of(k);
                            old(self).keys@.index_of_first_ensures(k);
                            assert(self.keys@[i] == k);
                        }
                    }
                    assert(self@ =~= old(self)@.insert(key, value));
                }
                None
            },
        }
    }

    /// Takes the entry under `key` out of the table. Returns its value, if
    /// there was one. The last entry moves into the slot that became free.
    pub fn remove(&mut self, key: K) -> (removed: Option<V>)
        requires
            old(self).wf(),
        ensures
            final(self).wf(),
            final(self)@ == old(self)@.remove(key),
            match removed {
                Some(v) => old(self)@.contains_key(key) && v == old(self)@[key] && final(
                    self).spec_len() + 1 == old(self).spec_len() && final(self).keys()
                    == swap_removed(old(self).keys(), old(self).keys().index_of(key)) && final(
                    self).values() == swap_removed(
                    old(self).values(),
                    old(self).keys().index_of(key),
                ),
                None => !old(self)@.contains_key(key) && final(self).keys() == old(self).keys()
                    && final(self).values() == old(self).values(),
            },
            forall|k: K| final(self).keys().contains(k) <==> old(self).keys().contains(k) && k != key,
    {
        proof {
            self.lemma_slot(key);
        }
        match key_index_remove(&mut self.index, key.to_raw()) {
            Some(i) => {
                proof {
                    old(self).keys@.index_of_first_ensures(key);
                    assert(old(self).keys@.index_of(key) == i);
                }
                let last = self.keys.len() - 1;
                let moved = self.keys[last];
                self.keys.swap_remove(i);
                let value = self.values.swap_remove(i);
                if i != last {
                    key_index_insert(&mut self.index, moved.to_raw(), i);
                }
                proof {
                    let idx = key_index_entries(self.index);
                    let idx0 = key_index_entries(old(self).index);
                    assert(moved == old(self).keys@[last as int]);
                    assert(idx0[moved.raw()] == last);
                    assert forall|j: int| 0 <= j < self.keys@.len() implies idx.contains_key(
                        #[trigger] self.keys@[j].raw(),
                    ) && idx[self.keys@[j].raw()] == j by {
                        if j == i {
                            assert(self.keys@[j] == moved);
                        } else {
                            assert(self.keys@[j] == old(self).keys@[j]);
                            assert(idx0[old(self).keys@[j].raw()] == j);
                        }
                    }
                    assert forall|raw: RawKey| #[trigger] idx.contains_key(raw) implies idx[raw]
                        < self.keys@.len() && self.keys@[idx[raw] as int].raw() == raw by {
                        if i != last && raw == moved.raw() {
                        } else {
                            assert(idx0.contains_key(raw));
                            assert(idx0[raw] != i);
                            if idx0[raw] == last {
                                assert(old(self).keys@[last as int].raw() == raw);
                            }
                        }
                    }
                    assert(self.linked());
                    self.lemma_no_duplicates();
                    assert forall|k: K| self.keys@.contains(k) <==> old(self).keys@.contains(k)
                        && k != key by {
                        if self.keys@.contains(k) {
                            let j = choose|j: int| 0 <= j < self.keys@.len() && self.keys@[j] == k;
                            if j == i {
                                assert(old(self).keys@[last as int] == k);
                            } else {
                                assert(old(self).keys@[j] == k);
                            }
                        }
                        if old(self).keys@.contains(k) && k != key {
                            let j = choose|j: int|
                                0 <= j < old(self).keys@.len() && old(self).keys@[j] == k;
                            if j == last {
                                assert(self.keys@[i as int] == k);
                            } else {
                                assert(self.keys@[j] == k);
                            }
                        }
                    }
                    assert forall|k: K| #[trigger] self@.contains_key(k) implies self@[k] == old(
                        self)@[k] by {
                        self.keys@.index_of_first_ensures(k);
                        old(self).keys@.index_of_first_ensures(k);
                        let j = self.keys@.index_of(k);
                        if j == i {
                            assert(old(self).keys@[last as int] == k);
                        } else {
                            assert(old(self).keys@[j] == k);
                        }
                    }
                    assert(self@ =~= old(self)@.remove(key));
                    assert(self.keys@ =~= swap_removed(old(self).keys@, i as int));
                    assert(self.values@ =~= swap_removed(old(self).values@, i as int));
                }
                Some(value)
            },
            None => {
                assert(key_index_entries(self.index) =~= key_index_entries(old(self).index));
                assert(self@ =~= old(self)@.remove(key));
                None
            },
        }
    }
}

/// A key is in a well-formed table exactly if it is among its stored keys,
/// and its value stands at the same place as the key.
pub proof fn lemma_table_entries<K: Keyed, V>(table: &Table<K, V>, i: int)
    requires
        table.wf(),
        0 <= i < table.spec_len(),
    ensures
        table@.contains_key(table.keys()[i]),
        table@[table.keys()[i]] == table.values()[i],
{
    table.keys().index_of_first_ensures(table.keys()[i]);
}

} // verus!
