//! Chunk keys and the hash containers keyed by them.
//!
//! The containers are `std` hash tables hashed with SeaHash. What the table
//! operations do to the contents is taken on trust from `std`; everything
//! built on top of them is verified.
use seahash::SeaHasher;
use std::collections::HashMap;
use std::collections::HashSet;
use std::hash::BuildHasher;
use vstd::prelude::*;

verus! {

/// The identity of a chunk: twelve bytes.
pub type SeaHashKey = [u8; 12];

/// Whether two keys hold the same bytes.
pub fn keys_equal(a: &SeaHashKey, b: &SeaHashKey) -> (same: bool)
    ensures
        same == (*a == *b),
{
    let mut i: usize = 0;
    while i < 12
        invariant
            i <= 12,
            forall|j: int| 0 <= j < i ==> a@[j] == b@[j],
        decreases 12 - i,
    {
        if a[i] != b[i] {
            return false;
        }
        i += 1;
    }
    proof {
        assert(a@ =~= b@);
        vstd::array::axiom_array_ext_equal(*a, *b);
    }
    true
}

/// The streaming hasher of the `seahash` crate, carried through unopened.
#[verifier::external_type_specification]
#[verifier::external_body]
pub struct ExSeaHasher(SeaHasher);

/// Hands out SeaHash hashers to the hash tables.
pub struct SeaHash;

impl BuildHasher for SeaHash {
    type Hasher = SeaHasher;

    /// `SeaHasher::new()`: a fresh hasher. Nothing is claimed of it.
    #[verifier::external_body]
    fn build_hasher(&self) -> SeaHasher {
        SeaHasher::new()
    }
}

/// `HashMap::with_hasher`: an empty map that will hash with the given builder.
pub assume_specification<K, V, S>[ HashMap::<K, V, S>::with_hasher ](hash_builder: S) -> (m: HashMap<K, V, S>)
    ensures
        m@ == (Map::<K, V>::empty()),
;

/// `HashSet::with_hasher`: an empty set that will hash with the given builder.
pub assume_specification<T, S>[ HashSet::<T, S>::with_hasher ](hasher: S) -> (s: HashSet<T, S>)
    ensures
        s@ == Set::<T>::empty(),
;

/// `HashMap::insert` on a SeaHash table of chunk keys: the key now maps to
/// `v`, all other entries stay, and the value that `k` had before comes back.
#[verifier::external_body]
fn table_insert<V>(m: &mut HashMap<SeaHashKey, V, SeaHash>, k: SeaHashKey, v: V) -> (prev: Option<V>)
    ensures
        final(m)@ == old(m)@.insert(k, v),
        prev == (if old(m)@.contains_key(k) {
            Some(old(m)@[k])
        } else {
            None
        }),
{
    m.insert(k, v)
}

/// `HashMap::get` on a SeaHash table of chunk keys: the value stored under `k`, if any.
#[verifier::external_body]
fn table_get<'a, V>(m: &'a HashMap<SeaHashKey, V, SeaHash>, k: &SeaHashKey) -> (found: Option<&'a V>)
    ensures
        found == (if m@.contains_key(*k) {
            Some(&m@[*k])
        } else {
            None
        }),
{
    m.get(k)
}

/// `HashMap::contains_key` on a SeaHash table of chunk keys.
#[verifier::external_body]
fn table_contains_key<V>(m: &HashMap<SeaHashKey, V, SeaHash>, k: &SeaHashKey) -> (found: bool)
    ensures
        found == m@.contains_key(*k),
{
    m.contains_key(k)
}

/// `HashMap::remove` on a SeaHash table of chunk keys: `k` has no entry any
/// more, all other entries stay, and the value that `k` had comes back.
#[verifier::external_body]
fn table_remove<V>(m: &mut HashMap<SeaHashKey, V, SeaHash>, k: &SeaHashKey) -> (prev: Option<V>)
    ensures
        final(m)@ == old(m)@.remove(*k),
        prev == (if old(m)@.contains_key(*k) {
            Some(old(m)@[*k])
        } else {
            None
        }),
{
    m.remove(k)
}

/// `HashMap::keys` on a SeaHash table of chunk keys: every key of the table
/// once, in an order that is left open.
#[verifier::external_body]
fn table_keys<V>(m: &HashMap<SeaHashKey, V, SeaHash>) -> (keys: Vec<SeaHashKey>)
    ensures
        keys@.no_duplicates(),
        forall|k: SeaHashKey| keys@.contains(k) <==> m@.contains_key(k),
{
    m.keys().copied().collect()
}

/// `HashSet::insert` on a SeaHash set of chunk keys: `k` is now a member; the
/// result tells whether it was new.
#[verifier::external_body]
fn keyset_insert(s: &mut HashSet<SeaHashKey, SeaHash>, k: SeaHashKey) -> (fresh: bool)
    ensures
        final(s)@ == old(s)@.insert(k),
        fresh == !old(s)@.contains(k),
{
    s.insert(k)
}

/// `HashSet::contains` on a SeaHash set of chunk keys.
#[verifier::external_body]
fn keyset_contains(s: &HashSet<SeaHashKey, SeaHash>, k: &SeaHashKey) -> (found: bool)
    ensures
        found == s@.contains(*k),
{
    s.contains(k)
}

/// `HashSet::remove` on a SeaHash set of chunk keys: `k` is no longer a
/// member; the result tells whether it was one.
#[verifier::external_body]
fn keyset_remove(s: &mut HashSet<SeaHashKey, SeaHash>, k: &SeaHashKey) -> (was: bool)
    ensures
        final(s)@ == old(s)@.remove(*k),
        was == old(s)@.contains(*k),
{
    s.remove(k)
}

/// A map from keys to values, hashed with SeaHash.
pub struct SeaHashMap<K, V>(HashMap<K, V, SeaHash>);

impl<K, V> View for SeaHashMap<K, V> {
    type V = Map<K, V>;

    closed spec fn view(&self) -> Map<K, V> {
        self.0@
    }
}

impl<K, V> SeaHashMap<K, V> {
    pub fn new() -> (m: SeaHashMap<K, V>)
        ensures
            m@ == Map::<K, V>::empty(),
    {
        SeaHashMap(HashMap::with_hasher(SeaHash))
    }
}

impl<V> SeaHashMap<SeaHashKey, V> {
    pub fn get(&self, k: &SeaHashKey) -> (found: Option<&V>)
        ensures
            found == (if self@.contains_key(*k) {
                Some(&self@[*k])
            } else {
                None
            }),
    {
        table_get(&self.0, k)
    }

    /// The value under `k`, which the caller knows to be present.
    pub fn index(&self, k: &SeaHashKey) -> (v: &V)
        requires
            self@.contains_key(*k),
        ensures
            *v == self@[*k],
    {
        match table_get(&self.0, k) {
            Some(v) => v,
            None => vstd::pervasive::unreached(),
        }
    }

    pub fn insert(&mut self, k: SeaHashKey, v: V) -> (prev: Option<V>)
        ensures
            final(self)@ == old(self)@.insert(k, v),
            prev == (if old(self)@.contains_key(k) {
                Some(old(self)@[k])
            } else {
                None
            }),
    {
        table_insert(&mut self.0, k, v)
    }

    pub fn contains_key(&self, k: &SeaHashKey) -> (found: bool)
        ensures
            found == self@.contains_key(*k),
    {
        table_contains_key(&self.0, k)
    }

    /// Takes the entry of `k` out of the map, and gives back its value if it had one.
    pub fn remove(&mut self, k: &SeaHashKey) -> (prev: Option<V>)
        ensures
            final(self)@ == old(self)@.remove(*k),
            prev == (if old(self)@.contains_key(*k) {
                Some(old(self)@[*k])
            } else {
                None
            }),
    {
        table_remove(&mut self.0, k)
    }

    /// The keys of the map, each once, in an order that is left open.
    pub fn keys(&self) -> (keys: Vec<SeaHashKey>)
        ensures
            keys@.no_duplicates(),
            forall|k: SeaHashKey| keys@.contains(k) <==> self@.contains_key(k),
    {
        table_keys(&self.0)
    }
}

/// A set of keys, hashed with SeaHash.
pub struct SeaHashSet<V>(HashSet<V, SeaHash>);

impl<V> View for SeaHashSet<V> {
    type V = Set<V>;

    closed spec fn view(&self) -> Set<V> {
        self.0@
    }
}

impl<V> SeaHashSet<V> {
    pub fn new() -> (s: SeaHashSet<V>)
        ensures
            s@ == Set::<V>::empty(),
    {
        SeaHashSet(HashSet::with_hasher(SeaHash))
    }

    pub fn clear(&mut self)
        ensures
            final(self)@ == Set::<V>::empty(),
    {
        self.0.clear()
    }
}

impl SeaHashSet<SeaHashKey> {
    pub fn contains(&self, v: &SeaHashKey) -> (found: bool)
        ensures
            found == self@.contains(*v),
    {
        keyset_contains(&self.0, v)
    }

    pub fn insert(&mut self, v: SeaHashKey) -> (fresh: bool)
        ensures
            final(self)@ == old(self)@.insert(v),
            fresh == !old(self)@.contains(v),
    {
        keyset_insert(&mut self.0, v)
    }

    pub fn remove(&mut self, v: &SeaHashKey) -> (was: bool)
        ensures
            final(self)@ == old(self)@.remove(*v),
            was == old(self)@.contains(*v),
    {
        keyset_remove(&mut self.0, v)
    }
}

} // verus!
