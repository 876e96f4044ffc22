//! The sharded store itself.
//!
//! A `Conch` owns a fixed number of shards, each an association list of
//! key-value pairs. Every key is routed to exactly one shard by a hash of
//! its byte form, so its entry can only ever live there. The store's model
//! is a map from key byte forms to values; `update`, `get` and `remove`
//! are specified entirely against that map, so their meaning does not
//! depend on the shard count.

use std::collections::hash_map::DefaultHasher;
use std::hash::Hasher;
use vstd::map::*;
use vstd::prelude::*;
use vstd::std_specs::hash::DefaultHasherAdditionalSpecFns;

use crate::key::ShardKey;

verus! {

/// The hash that routes a key's byte form to a shard: the value that a
/// fresh `DefaultHasher` yields after one write of exactly those bytes.
/// It is a pure function of the bytes, so equal keys always hash alike.
pub open spec fn hash_of_bytes(b: Seq<u8>) -> u64 {
    DefaultHasher::spec_finish(seq![b])
}

/// The shard that holds a key with byte form `b` in a store of `n` shards.
pub open spec fn shard_of(b: Seq<u8>, n: int) -> int
    recommends
        n >= 1,
{
    ((hash_of_bytes(b) as usize) as int) % n
}

/// Hash a key's byte form with `DefaultHasher`.
fn get_hash<K: ShardKey>(obj: &K) -> (h: u64)
    ensures
        h == hash_of_bytes(obj.key_bytes()),
{
    let b = obj.bytes();
    let mut hasher = DefaultHasher::new();
    hasher.write(b.as_slice());
    proof {
        assert(hasher@ =~= seq![obj.key_bytes()]);
    }
    hasher.finish()
}

/// A sharded key-value store with a fixed number of shards.
#[derive(Debug)]
pub struct Conch<K, V> {
    maps: Vec<Vec<(K, V)>>,
}

impl<K: ShardKey, V> Conch<K, V> {
    /// How many shards the store was built with; fixed for its lifetime.
    pub closed spec fn shard_count(&self) -> int {
        self.maps@.len() as int
    }

    /// The entry at position `i` of shard `j` carries a key whose byte
    /// form is `b`.
    spec fn entry_holds(&self, j: int, i: int, b: Seq<u8>) -> bool {
        &&& 0 <= j < self.maps@.len()
        &&& 0 <= i < self.maps@[j]@.len()
        &&& self.maps@[j]@[i].0.key_bytes() == b
    }

    /// The sharding discipline: there is at least one shard, every entry
    /// sits in the shard its key routes to, and no two entries of a shard
    /// carry the same key.
    pub closed spec fn well_formed(&self) -> bool {
        &&& self.maps@.len() >= 1
        &&& forall|j: int, i: int|
            0 <= j < self.maps@.len() && 0 <= i < self.maps@[j]@.len() ==> shard_of(
                (#[trigger] self.maps@[j]@[i]).0.key_bytes(),
                self.maps@.len() as int,
            ) == j
        &&& forall|j: int, i1: int, i2: int|
            0 <= j < self.maps@.len() && 0 <= i1 < self.maps@[j]@.len() && 0 <= i2
                < self.maps@[j]@.len() && i1 != i2 ==> (#[trigger] self.maps@[j]@[i1]).0.key_bytes()
                != (#[trigger] self.maps@[j]@[i2]).0.key_bytes()
    }
}

impl<K: ShardKey, V> View for Conch<K, V> {
    type V = Map<Seq<u8>, V>;

    /// The store's model: the map from each held key's byte form to its
    /// value, drawn from whichever shard holds the key.
    closed spec fn view(&self) -> Map<Seq<u8>, V> {
        Map::new(
            |b: Seq<u8>| exists|j: int, i: int| self.entry_holds(j, i, b),
            |b: Seq<u8>|
                {
                    let (j, i) = choose|j: int, i: int| self.entry_holds(j, i, b);
                    self.maps@[j]@[i].1
                },
        )
    }
}

impl<K: ShardKey, V> Conch<K, V> {
    /// An entry that is really there settles the model: the key's byte form
    /// is in the map, bound to that entry's value.
    proof fn lemma_found(&self, j: int, i: int, b: Seq<u8>)
        requires
            self.well_formed(),
            self.entry_holds(j, i, b),
        ensures
            self@.contains_key(b),
            self@[b] == self.maps@[j]@[i].1,
    {
        assert(self@.contains_key(b));
        let (j2, i2) = choose|j2: int, i2: int| self.entry_holds(j2, i2, b);
        assert(shard_of(self.maps@[j]@[i].0.key_bytes(), self.maps@.len() as int) == j);
        assert(shard_of(self.maps@[j2]@[i2].0.key_bytes(), self.maps@.len() as int) == j2);
        assert(j2 == j);
        if i2 != i {
            assert(self.maps@[j]@[i].0.key_bytes() != self.maps@[j]@[i2].0.key_bytes());
        }
        assert(i2 == i);
    }

    /// A key whose shard has no entry for it is not in the model at all:
    /// the routing invariant rules out every other shard.
    proof fn lemma_missing(&self, b: Seq<u8>)
        requires
            self.well_formed(),
            forall|i: int|
                0 <= i < self.maps@[shard_of(b, self.maps@.len() as int)]@.len() ==> (
                #[trigger] self.maps@[shard_of(b, self.maps@.len() as int)]@[i]).0.key_bytes()
                    != b,
        ensures
            !self@.contains_key(b),
    {
        if self@.contains_key(b) {
            let (j, i) = choose|j: int, i: int| self.entry_holds(j, i, b);
            assert(shard_of(self.maps@[j]@[i].0.key_bytes(), self.maps@.len() as int) == j);
            assert(self.maps@[j]@[i].0.key_bytes() == b);
            assert(false);
        }
    }
}

impl<K: ShardKey, V> Conch<K, V> {
    /// Build a store with exactly `bucket_size` shards, all empty.
    pub fn new(bucket_size: usize) -> (conch: Conch<K, V>)
        requires
            bucket_size >= 1,
        ensures
            conch.well_formed(),
            conch.shard_count() == bucket_size,
            conch@ == Map::<Seq<u8>, V>::empty(),
    {
        let mut vec: Vec<Vec<(K, V)>> = Vec::with_capacity(bucket_size);
        let mut n: usize = 0;
        while n < bucket_size
            invariant
                vec@.len() == n,
                n <= bucket_size,
                forall|j: int| 0 <= j < n ==> (#[trigger] vec@[j])@.len() == 0,
            decreases bucket_size - n,
        {
            vec.push(Vec::new());
            n = n + 1;
        }
        let conch = Conch { maps: vec };
        proof {
            assert forall|b: Seq<u8>| !conch@.contains_key(b) by {
                if exists|j: int, i: int| conch.entry_holds(j, i, b) {
                    let (j, i) = choose|j: int, i: int| conch.entry_holds(j, i, b);
                    assert(conch.maps@[j]@.len() == 0);
                }
            }
            assert(conch@ =~= Map::<Seq<u8>, V>::empty());
        }
        conch
    }

    /// The index of the shard that `key` routes to.
    fn get_index(&self, key: &K) -> (index: usize)
        requires
            self.well_formed(),
        ensures
            index == shard_of(key.key_bytes(), self.shard_count()),
            index < self.maps@.len(),
    {
        let hash = get_hash(key);
        (hash as usize) % self.maps.len()
    }

    /// Insert `key -> v` into the shard that `key` routes to, overwriting
    /// whatever value the key had before: afterwards the store's model is
    /// the old model with that one binding set.
    pub fn update(&mut self, key: K, v: V)
        requires
            old(self).well_formed(),
        ensures
            final(self).well_formed(),
            final(self).shard_count() == old(self).shard_count(),
            final(self)@ == old(self)@.insert(key.key_bytes(), v),
    {
        let ghost kb = key.key_bytes();
        let index = self.get_index(&key);
        let mut shard = self.maps.remove(index);
        let ghost old_shard = shard@;
        let pos = find_entry(&shard, &key);
        match pos {
            Some(i) => {
                shard.remove(i);
                shard.insert(i, (key, v));
                proof {
                    assert(shard@ =~= old_shard.update(i as int, (key, v)));
                }
            },
            None => {
                shard.push((key, v));
            },
        }
        let ghost new_shard = shard@;
        self.maps.insert(index, shard);
        proof {
            assert(self.maps@.len() == old(self).maps@.len());
            assert(self.maps@[index as int]@ == new_shard);
            assert(forall|j: int|
                0 <= j < self.maps@.len() && j != index as int ==> self.maps@[j] == old(
                    self,
                ).maps@[j]);
            let gpos: int = match pos {
                Some(i) => i as int,
                None => old_shard.len() as int,
            };
            assert(new_shard[gpos] == (key, v));
            assert(forall|m: int|
                0 <= m < new_shard.len() && m != gpos ==> new_shard[m] == old_shard[m]);
            assert(forall|m: int|
                0 <= m < old_shard.len() && m != gpos ==> (#[trigger] old_shard[m]).0.key_bytes()
                    != kb);
            assert(self.well_formed());
            assert_maps_equal!(self.view(), old(self).view().insert(kb, v), b => {
                if b == kb {
                    self.lemma_found(index as int, gpos, kb);
                } else {
                    if old(self)@.contains_key(b) {
                        let (j, m) = choose|j: int, m: int| old(self).entry_holds(j, m, b);
                        if j == index as int {
                            assert(m != gpos);
                            assert(new_shard[m] == old_shard[m]);
                        }
                        assert(self.entry_holds(j, m, b));
                        old(self).lemma_found(j, m, b);
                        self.lemma_found(j, m, b);
                    }
                    if self@.contains_key(b) {
                        let (j, m) = choose|j: int, m: int| self.entry_holds(j, m, b);
                        if j == index as int {
                            assert(m != gpos);
                            assert(new_shard[m] == old_shard[m]);
                        }
                        assert(old(self).entry_holds(j, m, b));
                        old(self).lemma_found(j, m, b);
                        self.lemma_found(j, m, b);
                    }
                }
            });
        }
    }

    /// Delete the entry for `key` from the shard it routes to, returning
    /// the value it had, or the absent result when no shard held it.
    pub fn remove(&mut self, key: &K) -> (removed: Option<V>) where V: Copy
        requires
            old(self).well_formed(),
        ensures
            final(self).well_formed(),
            final(self).shard_count() == old(self).shard_count(),
            final(self)@ == old(self)@.remove(key.key_bytes()),
            match removed {
                Some(v) => old(self)@.contains_key(key.key_bytes()) && v == old(
                    self,
                )@[key.key_bytes()],
                None => !old(self)@.contains_key(key.key_bytes()),
            },
    {
        let ghost kb = key.key_bytes();
        let index = self.get_index(key);
        let mut shard = self.maps.remove(index);
        let ghost old_shard = shard@;
        let pos = find_entry(&shard, key);
        let removed = match pos {
            Some(i) => {
                let pair = shard.remove(i);
                Some(pair.1)
            },
            None => None,
        };
        let ghost new_shard = shard@;
        self.maps.insert(index, shard);
        proof {
            assert(self.maps@.len() == old(self).maps@.len());
            assert(self.maps@[index as int]@ == new_shard);
            assert(forall|j: int|
                0 <= j < self.maps@.len() && j != index as int ==> self.maps@[j] == old(
                    self,
                ).maps@[j]);
            match pos {
                Some(i) => {
                    let ip = i as int;
                    old(self).lemma_found(index as int, ip, kb);
                    assert(new_shard =~= old_shard.remove(ip));
                    assert(forall|m: int| 0 <= m < ip ==> new_shard[m] == old_shard[m]);
                    assert(forall|m: int|
                        ip <= m < new_shard.len() ==> new_shard[m] == old_shard[m + 1]);
                    assert(self.well_formed());
                    assert forall|m: int| 0 <= m < new_shard.len() implies (
                    #[trigger] new_shard[m]).0.key_bytes() != kb by {
                        let mo: int = if m < ip {
                            m
                        } else {
                            m + 1
                        };
                        assert(new_shard[m] == old_shard[mo]);
                        assert(old_shard[mo].0.key_bytes() != old_shard[ip].0.key_bytes());
                    }
                    self.lemma_missing(kb);
                    assert_maps_equal!(self.view(), old(self).view().remove(kb), b => {
                        if b != kb {
                            if old(self)@.contains_key(b) {
                                let (j, m) = choose|j: int, m: int| old(self).entry_holds(j, m, b);
                                if j == index as int {
                                    assert(m != ip);
                                    let mn: int = if m < ip {
                                        m
                                    } else {
                                        m - 1
                                    };
                                    assert(new_shard[mn] == old_shard[m]);
                                    assert(self.entry_holds(j, mn, b));
                                    old(self).lemma_found(j, m, b);
                                    self.lemma_found(j, mn, b);
                                } else {
                                    assert(self.entry_holds(j, m, b));
                                    old(self).lemma_found(j, m, b);
                                    self.lemma_found(j, m, b);
                                }
                            }
                            if self@.contains_key(b) {
                                let (j, m) = choose|j: int, m: int| self.entry_holds(j, m, b);
                                if j == index as int {
                                    let mo: int = if m < ip {
                                        m
                                    } else {
                                        m + 1
                                    };
                                    assert(new_shard[m] == old_shard[mo]);
                                    assert(old(self).entry_holds(j, mo, b));
                                    old(self).lemma_found(j, mo, b);
                                    self.lemma_found(j, m, b);
                                } else {
                                    assert(old(self).entry_holds(j, m, b));
                                    old(self).lemma_found(j, m, b);
                                    self.lemma_found(j, m, b);
                                }
                            }
                        }
                    });
                },
                None => {
                    assert(new_shard =~= old_shard);
                    assert(forall|j: int|
                        0 <= j < self.maps@.len() ==> self.maps@[j] == old(self).maps@[j]);
                    assert(self.well_formed());
                    old(self).lemma_missing(kb);
                    assert_maps_equal!(self.view(), old(self).view().remove(kb), b => {
                        if b == kb {
                            self.lemma_missing(kb);
                        } else {
                            if old(self)@.contains_key(b) {
                                let (j, m) = choose|j: int, m: int| old(self).entry_holds(j, m, b);
                                assert(self.entry_holds(j, m, b));
                                old(self).lemma_found(j, m, b);
                                self.lemma_found(j, m, b);
                            }
                            if self@.contains_key(b) {
                                let (j, m) = choose|j: int, m: int| self.entry_holds(j, m, b);
                                assert(old(self).entry_holds(j, m, b));
                                old(self).lemma_found(j, m, b);
                                self.lemma_found(j, m, b);
                            }
                        }
                    });
                },
            }
        }
        removed
    }

    /// Look the key up in the shard it routes to and return a copy of its
    /// value, or the absent result when no shard holds it.
    pub fn get(&mut self, key: K) -> (value: Option<V>) where V: Copy
        requires
            old(self).well_formed(),
        ensures
            *final(self) == *old(self),
            match value {
                Some(v) => old(self)@.contains_key(key.key_bytes()) && v == old(
                    self,
                )@[key.key_bytes()],
                None => !old(self)@.contains_key(key.key_bytes()),
            },
    {
        let index = self.get_index(&key);
        let shard = &self.maps[index];
        let pos = find_entry(shard, &key);
        match pos {
            Some(i) => {
                let v = shard[i].1;
                proof {
                    self.lemma_found(index as int, i as int, key.key_bytes());
                }
                Some(v)
            },
            None => {
                proof {
                    self.lemma_missing(key.key_bytes());
                }
                None
            },
        }
    }
}

/// Compare two byte strings for equality.
fn bytes_eq(a: &Vec<u8>, b: &Vec<u8>) -> (r: bool)
    ensures
        r == (a@ == b@),
{
    if a.len() != b.len() {
        assert(a@ != b@);
        return false;
    }
    let mut i: usize = 0;
    while i < a.len()
        invariant
            i <= a@.len(),
            a@.len() == b@.len(),
            forall|m: int| 0 <= m < i ==> a@[m] == b@[m],
        decreases a@.len() - i,
    {
        if a[i] != b[i] {
            assert(a@ != b@);
            return false;
        }
        i = i + 1;
    }
    assert(a@ =~= b@);
    true
}

/// Find the position of the entry of `shard` whose key has the same byte
/// form as `key`, if there is one.
fn find_entry<K: ShardKey, V>(shard: &Vec<(K, V)>, key: &K) -> (pos: Option<usize>)
    ensures
        match pos {
            Some(i) => i < shard@.len() && shard@[i as int].0.key_bytes() == key.key_bytes(),
            None => forall|i: int|
                0 <= i < shard@.len() ==> (#[trigger] shard@[i]).0.key_bytes()
                    != key.key_bytes(),
        },
{
    let kb = key.bytes();
    let mut i: usize = 0;
    while i < shard.len()
        invariant
            i <= shard@.len(),
            kb@ == key.key_bytes(),
            forall|m: int| 0 <= m < i ==> (#[trigger] shard@[m]).0.key_bytes() != key.key_bytes(),
        decreases shard@.len() - i,
    {
        let eb = shard[i].0.bytes();
        if bytes_eq(&eb, &kb) {
            return Some(i);
        }
        i = i + 1;
    }
    None
}

/// Round trip: after a value is stored under a key, the store's model binds
/// the key's byte form to that value, so a lookup of the same key is
/// specified to yield exactly it.
pub proof fn lemma_round_trip<V>(m: Map<Seq<u8>, V>, b: Seq<u8>, v: V)
    ensures
        m.insert(b, v).contains_key(b),
        m.insert(b, v)[b] == v,
{
}

/// Overwrite: storing `v1` and then `v2` under one key leaves the key bound
/// to `v2` alone; the earlier value is gone from the model entirely.
pub proof fn lemma_overwrite<V>(m: Map<Seq<u8>, V>, b: Seq<u8>, v1: V, v2: V)
    ensures
        m.insert(b, v1).insert(b, v2).contains_key(b),
        m.insert(b, v1).insert(b, v2)[b] == v2,
        m.insert(b, v1).insert(b, v2) == m.insert(b, v2),
{
    assert(m.insert(b, v1).insert(b, v2) =~= m.insert(b, v2));
}

/// Absence: a key the model does not hold is yielded as absent by `get` and
/// `remove` (their contracts force the `None` arm there), and a removal of
/// it leaves the model unchanged.
pub proof fn lemma_absent<V>(m: Map<Seq<u8>, V>, b: Seq<u8>)
    requires
        !m.contains_key(b),
    ensures
        m.remove(b) == m,
{
    assert(m.remove(b) =~= m);
}

/// Remove then get: after a value is stored under a key, removing the key is
/// specified to yield that value, and afterwards the model no longer holds
/// the key, so a later lookup is specified to yield the absent result.
pub proof fn lemma_remove_then_get<V>(m: Map<Seq<u8>, V>, b: Seq<u8>, v: V)
    ensures
        m.insert(b, v)[b] == v,
        !m.insert(b, v).remove(b).contains_key(b),
{
}

/// Shard-count invariance: the contracts of `get` and `remove` speak only of
/// the store's model, never of its shard count, so two stores with equal
/// models specify the same lookup results whatever their shard counts are.
pub proof fn lemma_shard_count_invariance<K: ShardKey, V>(
    c1: &Conch<K, V>,
    c2: &Conch<K, V>,
    b: Seq<u8>,
)
    requires
        c1@ == c2@,
    ensures
        c1@.contains_key(b) == c2@.contains_key(b),
        c1@.contains_key(b) ==> c1@[b] == c2@[b],
{
}

} // verus!
