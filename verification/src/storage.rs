//! In-memory chunk arena with least-recently-used eviction.
//!
//! Chunks are kept in key order so that iteration is deterministic; the
//! recency order lives in an `lru::LruCache` keyed by a plain integer code of
//! each chunk key.

use crate::chunk::{air_voxel, Chunk, ChunkPos, CHUNK_VOLUME};
use lru::LruCache;
use std::num::NonZeroUsize;
use vstd::prelude::*;

verus! {

/// Integer code of a chunk key as held by the recency cache: dimension, x, z.
pub type KeyCode = (u8, i32, i32);

#[verifier::external_type_specification]
#[verifier::external_body]
#[verifier::reject_recursive_types(K)]
#[verifier::reject_recursive_types(V)]
#[verifier::reject_recursive_types(S)]
pub struct ExLruCache<K, V, S>(LruCache<K, V, S>);

#[verifier::external_type_specification]
#[verifier::external_body]
pub struct ExDefaultHasher(lru::DefaultHasher);

/// The keys held by a recency cache, least recently used first.
pub uninterp spec fn lru_order(cache: LruCache<KeyCode, ()>) -> Seq<KeyCode>;

/// The capacity a recency cache was made with.
pub uninterp spec fn lru_capacity(cache: LruCache<KeyCode, ()>) -> nat;

/// `LruCache::new`: an empty cache holding at most `cap` entries.
#[verifier::external_body]
fn lru_new(cap: usize) -> (res: LruCache<KeyCode, ()>)
    requires
        cap >= 1,
    ensures
        lru_order(res) == Seq::<KeyCode>::empty(),
        lru_capacity(res) == cap,
{
    LruCache::new(NonZeroUsize::new(cap).unwrap())
}

/// `LruCache::put` with a unit value: an existing key moves to the most
/// recently used end; a new key is appended, after the least recently used
/// entry is dropped when the cache is full.
#[verifier::external_body]
fn lru_put(cache: &mut LruCache<KeyCode, ()>, key: KeyCode)
    ensures
        lru_capacity(*final(cache)) == lru_capacity(*old(cache)),
        lru_order(*old(cache)).contains(key) ==> exists|i: int|
            0 <= i < lru_order(*old(cache)).len() && lru_order(*old(cache))[i] == key
                && lru_order(*final(cache)) == lru_order(*old(cache)).remove(i).push(key),
        !lru_order(*old(cache)).contains(key) && lru_order(*old(cache)).len() == lru_capacity(
            *old(cache),
        ) ==> lru_order(*final(cache)) == lru_order(*old(cache)).drop_first().push(key),
        !lru_order(*old(cache)).contains(key) && lru_order(*old(cache)).len() < lru_capacity(
            *old(cache),
        ) ==> lru_order(*final(cache)) == lru_order(*old(cache)).push(key),
{
    cache.put(key, ());
}

/// `LruCache::pop_lru`: removes and returns the least recently used key.
#[verifier::external_body]
fn lru_pop(cache: &mut LruCache<KeyCode, ()>) -> (res: Option<KeyCode>)
    ensures
        lru_capacity(*final(cache)) == lru_capacity(*old(cache)),
        lru_order(*old(cache)).len() == 0 ==> res is None && lru_order(*final(cache))
            == lru_order(*old(cache)),
        lru_order(*old(cache)).len() > 0 ==> res == Some(lru_order(*old(cache))[0])
            && lru_order(*final(cache)) == lru_order(*old(cache)).drop_first(),
{
    cache.pop_lru().map(|entry: (KeyCode, ())| entry.0)
}

/// Dimension a chunk belongs to.
#[derive(Debug, Clone, Copy, PartialEq, Eq, Hash, PartialOrd, Ord)]
pub enum DimensionId {
    Overworld,
    Nether,
    End,
}

impl DimensionId {
    /// Small integer code of a dimension.
    pub open spec fn spec_code(self) -> u8 {
        match self {
            DimensionId::Overworld => 0,
            DimensionId::Nether => 1,
            DimensionId::End => 2,
        }
    }

    /// The dimension with a given code (codes above 2 read as the End).
    pub open spec fn from_code(c: u8) -> DimensionId {
        if c == 0 {
            DimensionId::Overworld
        } else if c == 1 {
            DimensionId::Nether
        } else {
            DimensionId::End
        }
    }

    pub fn code(&self) -> (res: u8)
        ensures
            res == self.spec_code(),
    {
        match self {
            DimensionId::Overworld => 0,
            DimensionId::Nether => 1,
            DimensionId::End => 2,
        }
    }
}

/// A chunk position qualified by its dimension.
#[derive(Debug, Clone, Copy, PartialEq, Eq, Hash, PartialOrd, Ord)]
pub struct ChunkKey {
    pub dimension: DimensionId,
    pub pos: ChunkPos,
}

impl ChunkKey {
    pub fn from_pos(dimension: DimensionId, pos: ChunkPos) -> (res: ChunkKey)
        ensures
            res.dimension == dimension,
            res.pos == pos,
    {
        ChunkKey { dimension, pos }
    }

    /// The integer code of this key held by the recency cache.
    pub open spec fn spec_code(self) -> KeyCode {
        (self.dimension.spec_code(), self.pos.x, self.pos.z)
    }

    pub fn code(&self) -> (res: KeyCode)
        ensures
            res == self.spec_code(),
    {
        (self.dimension.code(), self.pos.x, self.pos.z)
    }
}

/// Codes that some key has.
pub open spec fn valid_code(c: KeyCode) -> bool {
    c.0 <= 2
}

/// The key with a given code.
pub open spec fn key_of_code(c: KeyCode) -> ChunkKey {
    ChunkKey { dimension: DimensionId::from_code(c.0), pos: ChunkPos { x: c.1, z: c.2 } }
}

/// Key order: by dimension, then x, then z.
pub open spec fn key_lt(a: ChunkKey, b: ChunkKey) -> bool {
    let ca = a.spec_code();
    let cb = b.spec_code();
    ca.0 < cb.0 || (ca.0 == cb.0 && (ca.1 < cb.1 || (ca.1 == cb.1 && ca.2 < cb.2)))
}

/// A strictly increasing sequence of keys.
pub open spec fn keys_sorted(s: Seq<ChunkKey>) -> bool {
    forall|i: int, j: int| 0 <= i < j < s.len() ==> key_lt(#[trigger] s[i], #[trigger] s[j])
}

proof fn lemma_code_facts(a: ChunkKey, b: ChunkKey, c: KeyCode)
    ensures
        valid_code(a.spec_code()),
        key_of_code(a.spec_code()) == a,
        valid_code(c) ==> key_of_code(c).spec_code() == c,
        a.spec_code() == b.spec_code() ==> a == b,
        !key_lt(a, a),
        a != b ==> key_lt(a, b) || key_lt(b, a),
        key_lt(a, b) ==> !key_lt(b, a),
{
}

fn key_less(a: &ChunkKey, b: &ChunkKey) -> (res: bool)
    ensures
        res == key_lt(*a, *b),
{
    let ca = a.code();
    let cb = b.code();
    ca.0 < cb.0 || (ca.0 == cb.0 && (ca.1 < cb.1 || (ca.1 == cb.1 && ca.2 < cb.2)))
}

fn key_same(a: &ChunkKey, b: &ChunkKey) -> (res: bool)
    ensures
        res == (*a == *b),
{
    proof {
        lemma_code_facts(*a, *b, a.spec_code());
    }
    let ca = a.code();
    let cb = b.code();
    ca.0 == cb.0 && ca.1 == cb.1 && ca.2 == cb.2
}

/// Index of a key in a sequence (meaningful when it occurs).
pub open spec fn key_pos(s: Seq<ChunkKey>, k: ChunkKey) -> int {
    choose|i: int| 0 <= i < s.len() && s[i] == k
}

proof fn lemma_key_pos(s: Seq<ChunkKey>, i: int)
    requires
        keys_sorted(s),
        0 <= i < s.len(),
    ensures
        key_pos(s, s[i]) == i,
{
    let k = s[i];
    assert(0 <= i < s.len() && s[i] == k);
    let j = key_pos(s, k);
    if j != i {
        lemma_code_facts(k, k, k.spec_code());
        if j < i {
            assert(key_lt(s[j], s[i]));
        } else {
            assert(key_lt(s[i], s[j]));
        }
    }
}

/// The map from each key to the chunk at the same index.
pub open spec fn map_of(keys: Seq<ChunkKey>, chunks: Seq<Chunk>) -> Map<ChunkKey, Chunk> {
    Map::new(|k: ChunkKey| keys.contains(k), |k: ChunkKey| chunks[key_pos(keys, k)])
}

proof fn lemma_map_update(keys: Seq<ChunkKey>, chunks: Seq<Chunk>, i: int, c: Chunk)
    requires
        keys_sorted(keys),
        keys.len() == chunks.len(),
        0 <= i < keys.len(),
    ensures
        map_of(keys, chunks.update(i, c)) == map_of(keys, chunks).insert(keys[i], c),
{
    let m1 = map_of(keys, chunks.update(i, c));
    let m2 = map_of(keys, chunks).insert(keys[i], c);
    assert(keys.contains(keys[i]));
    assert forall|k: ChunkKey| m1.dom().contains(k) implies m1[k] == m2[k] by {
        let j = choose|j: int| 0 <= j < keys.len() && keys[j] == k;
        lemma_key_pos(keys, j);
        lemma_key_pos(keys, i);
    }
    assert(m1 =~= m2);
}

proof fn lemma_map_remove(keys: Seq<ChunkKey>, chunks: Seq<Chunk>, i: int)
    requires
        keys_sorted(keys),
        keys.len() == chunks.len(),
        0 <= i < keys.len(),
    ensures
        keys_sorted(keys.remove(i)),
        keys.remove(i).len() == chunks.remove(i).len(),
        forall|k: ChunkKey| #[trigger] keys.remove(i).contains(k) <==> keys.contains(k) && k != keys[i],
        map_of(keys.remove(i), chunks.remove(i)) == map_of(keys, chunks).remove(keys[i]),
{
    let k2 = keys.remove(i);
    let c2 = chunks.remove(i);
    assert forall|a: int, b: int| 0 <= a < b < k2.len() implies key_lt(#[trigger] k2[a], #[trigger] k2[b]) by {
        let a0 = if a < i { a } else { a + 1 };
        let b0 = if b < i { b } else { b + 1 };
        assert(k2[a] == keys[a0] && k2[b] == keys[b0]);
    }
    assert forall|k: ChunkKey| #[trigger] k2.contains(k) <==> keys.contains(k) && k != keys[i] by {
        if k2.contains(k) {
            let j = choose|j: int| 0 <= j < k2.len() && k2[j] == k;
            let j0 = if j < i { j } else { j + 1 };
            assert(keys[j0] == k);
            lemma_code_facts(keys[j0], keys[i], k.spec_code());
            if j0 < i {
                assert(key_lt(keys[j0], keys[i]));
            } else {
                assert(key_lt(keys[i], keys[j0]));
            }
        }
        if keys.contains(k) && k != keys[i] {
            let j = choose|j: int| 0 <= j < keys.len() && keys[j] == k;
            if j < i {
                assert(k2[j] == k);
            } else {
                assert(k2[j - 1] == k);
            }
        }
    }
    let m1 = map_of(k2, c2);
    let m2 = map_of(keys, chunks).remove(keys[i]);
    assert forall|k: ChunkKey| m1.dom().contains(k) implies m1[k] == m2[k] by {
        let j = choose|j: int| 0 <= j < k2.len() && k2[j] == k;
        lemma_key_pos(k2, j);
        let j0 = if j < i { j } else { j + 1 };
        assert(keys[j0] == k);
        lemma_key_pos(keys, j0);
    }
    assert(m1 =~= m2);
}

proof fn lemma_map_insert(keys: Seq<ChunkKey>, chunks: Seq<Chunk>, i: int, k: ChunkKey, c: Chunk)
    requires
        keys_sorted(keys),
        keys.len() == chunks.len(),
        0 <= i <= keys.len(),
        forall|j: int| 0 <= j < i ==> key_lt(#[trigger] keys[j], k),
        forall|j: int| i <= j < keys.len() ==> key_lt(k, #[trigger] keys[j]),
    ensures
        keys_sorted(keys.insert(i, k)),
        keys.insert(i, k).len() == chunks.insert(i, c).len(),
        keys.insert(i, k)[i] == k,
        forall|q: ChunkKey| #[trigger] keys.insert(i, k).contains(q) <==> keys.contains(q) || q == k,
        map_of(keys.insert(i, k), chunks.insert(i, c)) == map_of(keys, chunks).insert(k, c),
{
    let k2 = keys.insert(i, k);
    let c2 = chunks.insert(i, c);
    assert forall|a: int, b: int| 0 <= a < b < k2.len() implies key_lt(#[trigger] k2[a], #[trigger] k2[b]) by {
        if a < i && b > i {
            assert(key_lt(keys[a], k));
            assert(key_lt(k, keys[b - 1]));
            assert(key_lt(keys[a], keys[b - 1]));
        } else if a < i && b < i {
            assert(key_lt(keys[a], keys[b]));
        } else if a > i {
            assert(key_lt(keys[a - 1], keys[b - 1]));
        }
    }
    assert forall|q: ChunkKey| #[trigger] k2.contains(q) <==> keys.contains(q) || q == k by {
        if k2.contains(q) {
            let j = choose|j: int| 0 <= j < k2.len() && k2[j] == q;
            if j < i {
                assert(keys[j] == q);
            } else if j > i {
                assert(keys[j - 1] == q);
            }
        }
        if keys.contains(q) {
            let j = choose|j: int| 0 <= j < keys.len() && keys[j] == q;
            if j < i {
                assert(k2[j] == q);
            } else {
                assert(k2[j + 1] == q);
            }
        }
        if q == k {
            assert(k2[i] == q);
        }
    }
    let m1 = map_of(k2, c2);
    let m2 = map_of(keys, chunks).insert(k, c);
    assert forall|q: ChunkKey| m1.dom().contains(q) implies m1[q] == m2[q] by {
        let j = choose|j: int| 0 <= j < k2.len() && k2[j] == q;
        lemma_key_pos(k2, j);
        if j < i {
            lemma_key_pos(keys, j);
            lemma_code_facts(q, k, k.spec_code());
        } else if j > i {
            lemma_key_pos(keys, j - 1);
            lemma_code_facts(q, k, k.spec_code());
        }
    }
    assert(m1 =~= m2);
}

/// The overworld positions among a sequence of keys, in order.
pub open spec fn overworld_positions(s: Seq<ChunkKey>) -> Seq<ChunkPos>
    decreases s.len(),
{
    if s.len() == 0 {
        Seq::empty()
    } else {
        let rest = overworld_positions(s.drop_last());
        if s.last().dimension == DimensionId::Overworld {
            rest.push(s.last().pos)
        } else {
            rest
        }
    }
}

/// Index of the key with a given code.
fn index_of_code(keys: &Vec<ChunkKey>, code: KeyCode) -> (res: usize)
    requires
        exists|j: int| 0 <= j < keys@.len() && (#[trigger] keys@[j]).spec_code() == code,
    ensures
        res < keys@.len(),
        keys@[res as int].spec_code() == code,
{
    let mut i: usize = 0;
    while i < keys.len()
        invariant
            i <= keys@.len(),
            forall|j: int| 0 <= j < i ==> (#[trigger] keys@[j]).spec_code() != code,
            exists|j: int| 0 <= j < keys@.len() && (#[trigger] keys@[j]).spec_code() == code,
        decreases keys@.len() - i,
    {
        let c = keys[i].code();
        if c.0 == code.0 && c.1 == code.1 && c.2 == code.2 {
            return i;
        }
        i = i + 1;
    }
    i
}

/// Number of chunks dropped before a new one is stored: the store is brought
/// below its capacity, and emptied when the capacity is zero.
pub open spec fn evict_count(len: nat, capacity: nat) -> nat {
    if len < capacity {
        0
    } else if capacity == 0 {
        len
    } else {
        (len - capacity + 1) as nat
    }
}

/// In-memory chunk arena with a least-recently-used eviction policy.
/// Keys are held in increasing order, so iteration is deterministic.
pub struct ChunkStorage {
    keys: Vec<ChunkKey>,
    chunks: Vec<Chunk>,
    lru: LruCache<KeyCode, ()>,
    capacity: usize,
}

impl ChunkStorage {
    /// The resident keys, in increasing key order.
    pub closed spec fn resident_keys(&self) -> Seq<ChunkKey> {
        self.keys@
    }

    /// The resident chunks by key.
    pub closed spec fn chunk_map(&self) -> Map<ChunkKey, Chunk> {
        map_of(self.keys@, self.chunks@)
    }

    /// The resident keys from least to most recently used.
    pub closed spec fn recency(&self) -> Seq<ChunkKey> {
        lru_order(self.lru).map_values(|c: KeyCode| key_of_code(c))
    }

    /// The capacity the store was made with.
    pub closed spec fn spec_capacity(&self) -> nat {
        self.capacity as nat
    }

    pub closed spec fn wf(&self) -> bool {
        let o = lru_order(self.lru);
        &&& self.keys@.len() == self.chunks@.len()
        &&& keys_sorted(self.keys@)
        &&& lru_capacity(self.lru) == if self.capacity == 0 { 1 } else { self.capacity as nat }
        &&& o.len() == self.keys@.len()
        &&& self.keys@.len() <= lru_capacity(self.lru)
        &&& o.no_duplicates()
        &&& forall|j: int|
            0 <= j < o.len() ==> valid_code(#[trigger] o[j]) && self.keys@.contains(
                key_of_code(o[j]),
            )
        &&& forall|i: int| 0 <= i < self.keys@.len() ==> o.contains(#[trigger] self.keys@[i].spec_code())
    }

    /// Create a storage with the desired maximum chunk count.
    pub fn new(capacity: usize) -> (res: ChunkStorage)
        ensures
            res.wf(),
            res.resident_keys() == Seq::<ChunkKey>::empty(),
            res.recency() == Seq::<ChunkKey>::empty(),
            res.chunk_map() == Map::<ChunkKey, Chunk>::empty(),
            res.spec_capacity() == capacity,
    {
        let cap = if capacity < 1 { 1 } else { capacity };
        let res = ChunkStorage { keys: Vec::new(), chunks: Vec::new(), lru: lru_new(cap), capacity };
        assert(res.recency() =~= Seq::<ChunkKey>::empty());
        assert(res.chunk_map() =~= Map::<ChunkKey, Chunk>::empty());
        res
    }

    /// Number of resident chunks.
    pub fn len(&self) -> (res: usize)
        ensures
            res == self.resident_keys().len(),
    {
        self.keys.len()
    }

    /// Returns true when no chunks are currently stored.
    pub fn is_empty(&self) -> (res: bool)
        ensures
            res == (self.resident_keys().len() == 0),
    {
        self.keys.len() == 0
    }

    /// Position at which `key` is or would be stored, and whether it is there.
    fn find(&self, key: &ChunkKey) -> (res: (bool, usize))
        requires
            self.wf(),
        ensures
            res.1 <= self.keys@.len(),
            forall|j: int| 0 <= j < res.1 ==> key_lt(#[trigger] self.keys@[j], *key),
            forall|j: int| res.1 <= j < self.keys@.len() ==> key_lt(*key, #[trigger] self.keys@[j]) || self.keys@[j] == *key,
            res.0 == self.keys@.contains(*key),
            res.0 ==> res.1 < self.keys@.len() && self.keys@[res.1 as int] == *key,
    {
        let mut i: usize = 0;
        while i < self.keys.len() && key_less(&self.keys[i], key)
            invariant
                self.wf(),
                i <= self.keys@.len(),
                forall|j: int| 0 <= j < i ==> key_lt(#[trigger] self.keys@[j], *key),
            decreases self.keys@.len() - i,
        {
            i = i + 1;
        }
        proof {
            assert forall|j: int| i <= j < self.keys@.len() implies key_lt(*key, #[trigger] self.keys@[j]) || self.keys@[j] == *key by {
                lemma_code_facts(*key, self.keys@[j], key.spec_code());
                lemma_code_facts(self.keys@[i as int], self.keys@[j], key.spec_code());
                if j > i {
                    assert(key_lt(self.keys@[i as int], self.keys@[j]));
                }
            }
        }
        let found = i < self.keys.len() && key_same(&self.keys[i], key);
        proof {
            if self.keys@.contains(*key) {
                let j = choose|j: int| 0 <= j < self.keys@.len() && self.keys@[j] == *key;
                lemma_code_facts(*key, *key, key.spec_code());
                if j < i {
                    assert(key_lt(self.keys@[j], *key));
                } else if j > i {
                    assert(key_lt(self.keys@[i as int], self.keys@[j]));
                    lemma_code_facts(self.keys@[i as int], *key, key.spec_code());
                }
            }
        }
        (found, i)
    }

    /// Mark a resident key as most recently used.
    fn touch(&mut self, key: ChunkKey)
        requires
            old(self).wf(),
            old(self).keys@.contains(key),
        ensures
            final(self).wf(),
            final(self).keys@ == old(self).keys@,
            final(self).chunks@ == old(self).chunks@,
            final(self).capacity == old(self).capacity,
            exists|i: int|
                0 <= i < old(self).recency().len() && old(self).recency()[i] == key
                    && final(self).recency() == old(self).recency().remove(i).push(key),
    {
        let ghost o = lru_order(self.lru);
        let ghost rec = self.recency();
        proof {
            lemma_code_facts(key, key, key.spec_code());
            let j = choose|j: int| 0 <= j < self.keys@.len() && self.keys@[j] == key;
            assert(o.contains(self.keys@[j].spec_code()));
        }
        lru_put(&mut self.lru, key.code());
        proof {
            let o2 = lru_order(self.lru);
            let i = choose|i: int|
                0 <= i < o.len() && o[i] == key.spec_code() && o2 == o.remove(i).push(key.spec_code());
            assert(rec[i] == key);
            assert(self.recency() =~= rec.remove(i).push(key));
            assert forall|a: int, b: int| 0 <= a < o2.len() && 0 <= b < o2.len() && a != b implies o2[a] != o2[b] by {
                let a0 = if a < i { a } else { a + 1 };
                let b0 = if b < i { b } else { b + 1 };
                if a < o2.len() - 1 && b < o2.len() - 1 {
                    assert(o2[a] == o[a0] && o2[b] == o[b0]);
                } else if a == o2.len() - 1 {
                    assert(o2[b] == o[b0]);
                } else {
                    assert(o2[a] == o[a0]);
                }
            }
            assert forall|j: int| 0 <= j < o2.len() implies valid_code(#[trigger] o2[j]) && self.keys@.contains(key_of_code(o2[j])) by {
                if j < o2.len() - 1 {
                    let j0 = if j < i { j } else { j + 1 };
                    assert(o2[j] == o[j0]);
                }
            }
            assert forall|x: int| 0 <= x < self.keys@.len() implies o2.contains(#[trigger] self.keys@[x].spec_code()) by {
                let c = self.keys@[x].spec_code();
                if c == key.spec_code() {
                    assert(o2[o2.len() - 1] == c);
                } else {
                    let j = choose|j: int| 0 <= j < o.len() && o[j] == c;
                    if j < i {
                        assert(o2[j] == c);
                    } else {
                        assert(o2[j - 1] == c);
                    }
                }
            }
        }
    }

    /// Drop least recently used chunks until a new one fits.
    fn evict_if_needed(&mut self)
        requires
            old(self).wf(),
        ensures
            final(self).wf(),
            final(self).capacity == old(self).capacity,
            final(self).recency() == old(self).recency().skip(
                evict_count(old(self).keys@.len(), old(self).capacity as nat) as int,
            ),
            final(self).chunk_map() == old(self).chunk_map().remove_keys(
                old(self).recency().take(
                    evict_count(old(self).keys@.len(), old(self).capacity as nat) as int,
                ).to_set(),
            ),
            final(self).keys@.len() == old(self).keys@.len() - evict_count(
                old(self).keys@.len(),
                old(self).capacity as nat,
            ),
            final(self).keys@.len() < lru_capacity(final(self).lru),
            forall|k: ChunkKey| #[trigger] final(self).keys@.contains(k) ==> old(self).keys@.contains(k),
    {
        let ghost old_rec = self.recency();
        let ghost old_map = self.chunk_map();
        let ghost old_keys = self.keys@;
        let ghost old_len = self.keys@.len();
        let ghost mut n: int = 0;
        assert(old_rec.skip(0) =~= old_rec);
        assert(old_rec.take(0).to_set() =~= Set::<ChunkKey>::empty());
        assert(old_map.remove_keys(Set::<ChunkKey>::empty()) =~= old_map);
        while self.keys.len() >= self.capacity && self.keys.len() > 0
            invariant
                self.wf(),
                self.capacity == old(self).capacity,
                old_len == old_rec.len(),
                0 <= n <= old_rec.len(),
                n == old_len - self.keys@.len(),
                self.recency() == old_rec.skip(n),
                self.chunk_map() == old_map.remove_keys(old_rec.take(n).to_set()),
                n == 0 || self.keys@.len() + 1 >= self.capacity,
                n == 0 ==> self.keys@.len() == old_len,
                forall|k: ChunkKey| #[trigger] self.keys@.contains(k) ==> old_keys.contains(k),
            decreases self.keys@.len(),
        {
            let ghost o = lru_order(self.lru);
            let ghost rec = self.recency();
            let ghost keys0 = self.keys@;
            let ghost chunks0 = self.chunks@;
            let popped = lru_pop(&mut self.lru);
            if let Some(code) = popped {
                proof {
                    assert(valid_code(o[0]) && keys0.contains(key_of_code(o[0])));
                    let j = choose|j: int| 0 <= j < keys0.len() && keys0[j] == key_of_code(o[0]);
                    lemma_code_facts(keys0[j], keys0[j], code);
                }
                let i = index_of_code(&self.keys, code);
                let ghost k0 = self.keys@[i as int];
                proof {
                    lemma_code_facts(k0, key_of_code(code), code);
                    lemma_map_remove(keys0, chunks0, i as int);
                }
                self.keys.remove(i);
                self.chunks.remove(i);
                proof {
                    let o2 = lru_order(self.lru);
                    assert(o2 == o.drop_first());
                    assert(rec[0] == k0);
                    assert(self.recency() =~= rec.drop_first());
                    assert(old_rec.skip(n + 1) =~= old_rec.skip(n).drop_first());
                    assert(old_rec[n] == k0);
                    assert(old_rec.take(n + 1).to_set() =~= old_rec.take(n).to_set().insert(k0)) by {
                        assert(old_rec.take(n + 1) =~= old_rec.take(n).push(k0));
                        old_rec.take(n).lemma_push_to_set_commute(k0);
                    }
                    assert(old_map.remove_keys(old_rec.take(n).to_set().insert(k0)) =~= old_map.remove_keys(
                        old_rec.take(n).to_set(),
                    ).remove(k0));
                    n = n + 1;
                    assert forall|a: int, b: int| 0 <= a < o2.len() && 0 <= b < o2.len() && a != b implies o2[a] != o2[b] by {
                        assert(o2[a] == o[a + 1] && o2[b] == o[b + 1]);
                    }
                    assert forall|j: int| 0 <= j < o2.len() implies valid_code(#[trigger] o2[j]) && self.keys@.contains(key_of_code(o2[j])) by {
                        assert(o2[j] == o[j + 1]);
                        assert(o[j + 1] != o[0]);
                        lemma_code_facts(key_of_code(o[j + 1]), k0, o[j + 1]);
                    }
                    assert forall|x: int| 0 <= x < self.keys@.len() implies o2.contains(#[trigger] self.keys@[x].spec_code()) by {
                        let kx = self.keys@[x];
                        assert(self.keys@.contains(kx));
                        assert(keys0.contains(kx) && kx != k0);
                        let y = choose|y: int| 0 <= y < keys0.len() && keys0[y] == kx;
                        assert(o.contains(keys0[y].spec_code()));
                        let j = choose|j: int| 0 <= j < o.len() && o[j] == kx.spec_code();
                        lemma_code_facts(kx, k0, code);
                        assert(j != 0);
                        assert(o2[j - 1] == kx.spec_code());
                    }
                }
            }
        }
    }

    /// Obtain mutable access to a chunk in the specified dimension, creating
    /// it (after evicting least recently used chunks) if necessary. The key
    /// becomes the most recently used.
    pub fn ensure_chunk_in_dimension(&mut self, dimension: DimensionId, pos: ChunkPos) -> (res: &mut Chunk)
        requires
            old(self).wf(),
        ensures
            final(self).wf(),
            final(self).spec_capacity() == old(self).spec_capacity(),
            ({
                let key = ChunkKey { dimension, pos };
                let e = evict_count(old(self).resident_keys().len(), old(self).spec_capacity()) as int;
                if old(self).chunk_map().dom().contains(key) {
                    &&& *res == old(self).chunk_map()[key]
                    &&& final(self).chunk_map() == old(self).chunk_map().insert(key, *final(res))
                    &&& exists|i: int|
                        0 <= i < old(self).recency().len() && old(self).recency()[i] == key
                            && final(self).recency() == old(self).recency().remove(i).push(key)
                } else {
                    &&& res.wf()
                    &&& res.spec_pos() == pos
                    &&& res.cells() == Seq::new(CHUNK_VOLUME as nat, |i: int| air_voxel())
                    &&& final(self).chunk_map() == old(self).chunk_map().remove_keys(
                        old(self).recency().take(e).to_set(),
                    ).insert(key, *final(res))
                    &&& final(self).recency() == old(self).recency().skip(e).push(key)
                }
            }),
    {
        let key = ChunkKey::from_pos(dimension, pos);
        let (found, idx) = self.find(&key);
        if found {
            self.touch(key);
            proof {
                lemma_key_pos(self.keys@, idx as int);
                lemma_map_update(self.keys@, self.chunks@, idx as int, self.chunks@[idx as int]);
            }
            let ghost keys1 = self.keys@;
            let ghost chunks1 = self.chunks@;
            let r = &mut self.chunks[idx];
            proof {
                lemma_map_update(keys1, chunks1, idx as int, *final(r));
            }
            r
        } else {
            self.evict_if_needed();
            let chunk = Chunk::new(pos);
            let (_, idx2) = self.find(&key);
            let ghost keys1 = self.keys@;
            let ghost chunks1 = self.chunks@;
            let ghost o = lru_order(self.lru);
            let ghost rec = self.recency();
            proof {
                assert forall|j: int| idx2 <= j < keys1.len() implies key_lt(key, #[trigger] keys1[j]) by {
                    assert(!keys1.contains(key));
                    if keys1[j] == key {
                        assert(keys1.contains(keys1[j]));
                    }
                }
                lemma_map_insert(keys1, chunks1, idx2 as int, key, chunk);
                if o.contains(key.spec_code()) {
                    let j = choose|j: int| 0 <= j < o.len() && o[j] == key.spec_code();
                    lemma_code_facts(key, key, key.spec_code());
                    assert(keys1.contains(key_of_code(o[j])));
                }
            }
            self.keys.insert(idx2, key);
            self.chunks.insert(idx2, chunk);
            lru_put(&mut self.lru, key.code());
            proof {
                let o2 = lru_order(self.lru);
                lemma_code_facts(key, key, key.spec_code());
                assert(o2 == o.push(key.spec_code()));
                assert(self.recency() =~= rec.push(key));
                assert forall|a: int, b: int| 0 <= a < o2.len() && 0 <= b < o2.len() && a != b implies o2[a] != o2[b] by {
                    if a < o.len() && b < o.len() {
                    } else if a == o.len() {
                        assert(o.contains(o2[b]));
                    } else {
                        assert(o.contains(o2[a]));
                    }
                }
                assert forall|j: int| 0 <= j < o2.len() implies valid_code(#[trigger] o2[j]) && self.keys@.contains(key_of_code(o2[j])) by {
                    if j < o.len() {
                        assert(o2[j] == o[j]);
                        assert(keys1.contains(key_of_code(o[j])));
                    }
                }
                assert forall|x: int| 0 <= x < self.keys@.len() implies o2.contains(#[trigger] self.keys@[x].spec_code()) by {
                    let kx = self.keys@[x];
                    assert(self.keys@.contains(kx));
                    if kx == key {
                        assert(o2[o.len() as int] == key.spec_code());
                    } else {
                        let y = choose|y: int| 0 <= y < keys1.len() && keys1[y] == kx;
                        assert(o.contains(keys1[y].spec_code()));
                        let j = choose|j: int| 0 <= j < o.len() && o[j] == kx.spec_code();
                        assert(o2[j] == kx.spec_code());
                    }
                }
            }
            let ghost keys2 = self.keys@;
            let ghost chunks2 = self.chunks@;
            proof {
                lemma_key_pos(keys2, idx2 as int);
            }
            let r = &mut self.chunks[idx2];
            proof {
                lemma_map_update(keys2, chunks2, idx2 as int, *final(r));
                assert(map_of(keys2, chunks2).insert(key, *final(r)) =~= map_of(keys1, chunks1).insert(key, *final(r)));
            }
            r
        }
    }

    /// Obtain mutable access to an overworld chunk, creating it if necessary.
    pub fn ensure_chunk(&mut self, pos: ChunkPos) -> (res: &mut Chunk)
        requires
            old(self).wf(),
        ensures
            final(self).wf(),
            final(self).spec_capacity() == old(self).spec_capacity(),
            ({
                let key = ChunkKey { dimension: DimensionId::Overworld, pos };
                let e = evict_count(old(self).resident_keys().len(), old(self).spec_capacity()) as int;
                if old(self).chunk_map().dom().contains(key) {
                    &&& *res == old(self).chunk_map()[key]
                    &&& final(self).chunk_map() == old(self).chunk_map().insert(key, *final(res))
                    &&& exists|i: int|
                        0 <= i < old(self).recency().len() && old(self).recency()[i] == key
                            && final(self).recency() == old(self).recency().remove(i).push(key)
                } else {
                    &&& res.wf()
                    &&& res.spec_pos() == pos
                    &&& res.cells() == Seq::new(CHUNK_VOLUME as nat, |i: int| air_voxel())
                    &&& final(self).chunk_map() == old(self).chunk_map().remove_keys(
                        old(self).recency().take(e).to_set(),
                    ).insert(key, *final(res))
                    &&& final(self).recency() == old(self).recency().skip(e).push(key)
                }
            }),
    {
        self.ensure_chunk_in_dimension(DimensionId::Overworld, pos)
    }

    /// Fetch a chunk mutably in the specified dimension, without creating it.
    /// A resident key becomes the most recently used.
    pub fn get_mut_in_dimension(&mut self, dimension: DimensionId, pos: ChunkPos) -> (res: Option<&mut Chunk>)
        requires
            old(self).wf(),
        ensures
            final(self).wf(),
            final(self).spec_capacity() == old(self).spec_capacity(),
            ({
                let key = ChunkKey { dimension, pos };
                if old(self).chunk_map().dom().contains(key) {
                    &&& res is Some
                    &&& *res->0 == old(self).chunk_map()[key]
                    &&& final(self).chunk_map() == old(self).chunk_map().insert(key, *final(res->0))
                    &&& exists|i: int|
                        0 <= i < old(self).recency().len() && old(self).recency()[i] == key
                            && final(self).recency() == old(self).recency().remove(i).push(key)
                } else {
                    &&& res is None
                    &&& final(self).chunk_map() == old(self).chunk_map()
                    &&& final(self).recency() == old(self).recency()
                }
            }),
    {
        let key = ChunkKey::from_pos(dimension, pos);
        let (found, idx) = self.find(&key);
        if found {
            self.touch(key);
            proof {
                lemma_key_pos(self.keys@, idx as int);
            }
            let ghost keys1 = self.keys@;
            let ghost chunks1 = self.chunks@;
            let r = &mut self.chunks[idx];
            proof {
                lemma_map_update(keys1, chunks1, idx as int, *final(r));
            }
            Some(r)
        } else {
            None
        }
    }

    /// Fetch an overworld chunk mutably, without creating it.
    pub fn get_mut(&mut self, pos: ChunkPos) -> (res: Option<&mut Chunk>)
        requires
            old(self).wf(),
        ensures
            final(self).wf(),
            final(self).spec_capacity() == old(self).spec_capacity(),
            ({
                let key = ChunkKey { dimension: DimensionId::Overworld, pos };
                if old(self).chunk_map().dom().contains(key) {
                    &&& res is Some
                    &&& *res->0 == old(self).chunk_map()[key]
                    &&& final(self).chunk_map() == old(self).chunk_map().insert(key, *final(res->0))
                    &&& exists|i: int|
                        0 <= i < old(self).recency().len() && old(self).recency()[i] == key
                            && final(self).recency() == old(self).recency().remove(i).push(key)
                } else {
                    &&& res is None
                    &&& final(self).chunk_map() == old(self).chunk_map()
                    &&& final(self).recency() == old(self).recency()
                }
            }),
    {
        self.get_mut_in_dimension(DimensionId::Overworld, pos)
    }

    /// The resident overworld chunk positions, in increasing key order.
    pub fn iter_positions(&self) -> (res: Vec<ChunkPos>)
        requires
            self.wf(),
        ensures
            res@ == overworld_positions(self.resident_keys()),
    {
        let mut res: Vec<ChunkPos> = Vec::new();
        let mut i: usize = 0;
        while i < self.keys.len()
            invariant
                i <= self.keys@.len(),
                res@ == overworld_positions(self.keys@.take(i as int)),
            decreases self.keys@.len() - i,
        {
            let key = self.keys[i];
            assert(self.keys@.take(i + 1).drop_last() =~= self.keys@.take(i as int));
            if key.dimension.code() == 0 {
                res.push(key.pos);
            }
            i = i + 1;
        }
        assert(self.keys@.take(i as int) =~= self.keys@);
        res
    }

    /// The resident keys of every dimension, in increasing key order.
    pub fn iter_keys(&self) -> (res: Vec<ChunkKey>)
        ensures
            res@ == self.resident_keys(),
    {
        let mut res: Vec<ChunkKey> = Vec::new();
        let mut i: usize = 0;
        while i < self.keys.len()
            invariant
                i <= self.keys@.len(),
                res@ == self.keys@.take(i as int),
            decreases self.keys@.len() - i,
        {
            res.push(self.keys[i]);
            assert(self.keys@.take(i + 1) =~= self.keys@.take(i as int).push(self.keys@[i as int]));
            i = i + 1;
        }
        assert(self.keys@.take(i as int) =~= self.keys@);
        res
    }

    /// What every operation keeps: keys are held in strictly increasing
    /// order, the chunks and the recency order hold the same keys, each once,
    /// and never more than the capacity (at least one) of them.
    pub proof fn law_storage_invariants(&self)
        requires
            self.wf(),
        ensures
            keys_sorted(self.resident_keys()),
            forall|k: ChunkKey| self.chunk_map().dom().contains(k) <==> #[trigger] self.resident_keys().contains(k),
            self.recency().no_duplicates(),
            self.recency().len() == self.resident_keys().len(),
            forall|k: ChunkKey| self.chunk_map().dom().contains(k) <==> #[trigger] self.recency().contains(k),
            self.resident_keys().len() <= if self.spec_capacity() == 0 { 1 } else { self.spec_capacity() },
    {
        let o = lru_order(self.lru);
        let rec = self.recency();
        assert forall|a: int, b: int| 0 <= a < rec.len() && 0 <= b < rec.len() && a != b implies rec[a] != rec[b] by {
            lemma_code_facts(rec[a], rec[b], o[a]);
            lemma_code_facts(rec[a], rec[b], o[b]);
        }
        assert forall|k: ChunkKey| self.chunk_map().dom().contains(k) <==> #[trigger] rec.contains(k) by {
            if rec.contains(k) {
                let j = choose|j: int| 0 <= j < rec.len() && rec[j] == k;
                assert(valid_code(o[j]) && self.keys@.contains(key_of_code(o[j])));
            }
            if self.keys@.contains(k) {
                let i = choose|i: int| 0 <= i < self.keys@.len() && self.keys@[i] == k;
                assert(o.contains(self.keys@[i].spec_code()));
                let j = choose|j: int| 0 <= j < o.len() && o[j] == k.spec_code();
                lemma_code_facts(k, k, k.spec_code());
                assert(rec[j] == k);
            }
        }
    }

    /// Attempt to fetch a chunk in the specified dimension.
    pub fn get_in_dimension(&self, dimension: DimensionId, pos: ChunkPos) -> (res: Option<&Chunk>)
        requires
            self.wf(),
        ensures
            res is Some <==> self.chunk_map().dom().contains(ChunkKey { dimension, pos }),
            res is Some ==> *res->0 == self.chunk_map()[ChunkKey { dimension, pos }],
    {
        let key = ChunkKey::from_pos(dimension, pos);
        let (found, idx) = self.find(&key);
        if found {
            proof {
                lemma_key_pos(self.keys@, idx as int);
            }
            Some(&self.chunks[idx])
        } else {
            None
        }
    }

    /// Attempt to fetch an overworld chunk.
    pub fn get(&self, pos: ChunkPos) -> (res: Option<&Chunk>)
        requires
            self.wf(),
        ensures
            res is Some <==> self.chunk_map().dom().contains(ChunkKey { dimension: DimensionId::Overworld, pos }),
            res is Some ==> *res->0 == self.chunk_map()[ChunkKey { dimension: DimensionId::Overworld, pos }],
    {
        self.get_in_dimension(DimensionId::Overworld, pos)
    }
}

} // verus!
