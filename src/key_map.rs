//! A hash map keyed by chunk keys. Each key is packed into one `u128`, an
//! integer key whose hashing and equality the verifier models, and the map
//! is seen through its view as a `Map<ChunkKey, V>`.
use crate::chunk::{key_at, ChunkKey};
use crate::geometry::{index_x, index_y, index_z, lemma_delinearize, lemma_index_in_box, linear_index};
use std::collections::HashMap;
use vstd::prelude::*;
use vstd::set_lib::lemma_map_size;

verus! {

broadcast use vstd::std_specs::hash::group_hash_axioms;

/// `2^31`: shifts an `i32` to a non-negative integer.
pub open spec fn half_range() -> int {
    0x8000_0000
}

/// `2^32`: the number of values of an `i32`.
pub open spec fn full_range() -> int {
    0x1_0000_0000
}

/// The integer a chunk key is packed into: its three coordinates, shifted to
/// be non-negative, as the digits of a number in base `2^32`.
pub open spec fn key_id(k: ChunkKey) -> u128 {
    linear_index(
        k.0.x + half_range(),
        k.0.y + half_range(),
        k.0.z + half_range(),
        full_range(),
        full_range(),
    ) as u128
}

/// The chunk key that packs into `id`.
pub open spec fn key_of_id(id: u128) -> ChunkKey {
    key_at(
        index_x(id as int, full_range()) - half_range(),
        index_y(id as int, full_range(), full_range()) - half_range(),
        index_z(id as int, full_range(), full_range()) - half_range(),
    )
}

/// The largest packed key, plus one.
pub open spec fn id_bound() -> int {
    full_range() * full_range() * full_range()
}

proof fn lemma_key_id(k: ChunkKey)
    ensures
        0 <= key_id(k) < id_bound(),
        key_of_id(key_id(k)) == k,
{
    let x = k.0.x + half_range();
    let y = k.0.y + half_range();
    let z = k.0.z + half_range();
    let n = full_range();
    lemma_delinearize(x, y, z, n, n);
    assert(linear_index(x, y, z, n, n) < n * n * n) by (nonlinear_arith)
        requires
            0 <= x < n,
            0 <= y < n,
            0 <= z < n,
            n == full_range(),
    ;
}

proof fn lemma_id_key(id: u128)
    requires
        (id as int) < id_bound(),
    ensures
        key_id(key_of_id(id)) == id,
{
    let n = full_range();
    lemma_index_in_box(id as int, n, n, n);
}

/// Distinct keys pack into distinct integers.
proof fn lemma_key_id_injective(a: ChunkKey, b: ChunkKey)
    ensures
        key_id(a) == key_id(b) ==> a == b,
{
    lemma_key_id(a);
    lemma_key_id(b);
}

fn pack(k: ChunkKey) -> (r: u128)
    ensures
        r == key_id(k),
{
    proof {
        lemma_key_id(k);
    }
    let x = (k.0.x as i64 + 0x8000_0000) as u128;
    let y = (k.0.y as i64 + 0x8000_0000) as u128;
    let z = (k.0.z as i64 + 0x8000_0000) as u128;
    assert(0 <= x + 0x1_0000_0000 * (y + 0x1_0000_0000 * z) < 0x1_0000_0000 * 0x1_0000_0000
        * 0x1_0000_0000) by (nonlinear_arith)
        requires
            0 <= x < 0x1_0000_0000,
            0 <= y < 0x1_0000_0000,
            0 <= z < 0x1_0000_0000,
    ;
    x + 0x1_0000_0000 * (y + 0x1_0000_0000 * z)
}

/// A map from chunk keys to values.
pub struct ChunkKeyMap<V> {
    entries: HashMap<u128, V>,
}

impl<V> View for ChunkKeyMap<V> {
    type V = Map<ChunkKey, V>;

    closed spec fn view(&self) -> Map<ChunkKey, V> {
        Map::new(
            |k: ChunkKey| self.entries@.contains_key(key_id(k)),
            |k: ChunkKey| self.entries@[key_id(k)],
        )
    }
}

impl<V> ChunkKeyMap<V> {
    /// Every stored integer is the packing of a key.
    pub closed spec fn wf(&self) -> bool {
        forall|id: u128| #[trigger] self.entries@.contains_key(id) ==> (id as int) < id_bound()
    }

    pub fn new() -> (r: Self)
        ensures
            r.wf(),
            r@ == Map::<ChunkKey, V>::empty(),
    {
        let r = ChunkKeyMap { entries: HashMap::new() };
        assert(r@ =~= Map::<ChunkKey, V>::empty());
        r
    }

    /// Inserts or overwrites the value of `k`; returns the previous value.
    pub fn insert(&mut self, k: ChunkKey, v: V) -> (r: Option<V>)
        requires
            old(self).wf(),
        ensures
            final(self).wf(),
            final(self)@ == old(self)@.insert(k, v),
            match r {
                Some(p) => old(self)@.contains_key(k) && p == old(self)@[k],
                None => !old(self)@.contains_key(k),
            },
    {
        let id = pack(k);
        proof {
            lemma_key_id(k);
        }
        let r = self.entries.insert(id, v);
        proof {
            assert forall|k2: ChunkKey| key_id(k2) == key_id(k) implies k2 == k by {
                lemma_key_id_injective(k2, k);
            }
            assert(self@ =~= old(self)@.insert(k, v));
        }
        r
    }

    /// Removes `k`; returns its value if it had one.
    pub fn remove(&mut self, k: ChunkKey) -> (r: Option<V>)
        requires
            old(self).wf(),
        ensures
            final(self).wf(),
            final(self)@ == old(self)@.remove(k),
            match r {
                Some(p) => old(self)@.contains_key(k) && p == old(self)@[k],
                None => !old(self)@.contains_key(k),
            },
    {
        let id = pack(k);
        let r = self.entries.remove(&id);
        proof {
            assert forall|k2: ChunkKey| key_id(k2) == key_id(k) implies k2 == k by {
                lemma_key_id_injective(k2, k);
            }
            assert(self@ =~= old(self)@.remove(k));
        }
        r
    }

    pub fn get(&self, k: ChunkKey) -> (r: Option<&V>)
        ensures
            match r {
                Some(v) => self@.contains_key(k) && *v == self@[k],
                None => !self@.contains_key(k),
            },
    {
        let id = pack(k);
        self.entries.get(&id)
    }

    pub fn contains_key(&self, k: ChunkKey) -> (r: bool)
        ensures
            r == self@.contains_key(k),
    {
        let id = pack(k);
        self.entries.contains_key(&id)
    }

    /// The number of keys in the map.
    pub fn len(&self) -> (r: usize)
        requires
            self.wf(),
        ensures
            self@.dom().finite(),
            r == self@.dom().len(),
    {
        proof {
            let ids = self.entries@.dom();
            let f = |id: u128| key_of_id(id);
            assert(self@.dom() =~= ids.map(f)) by {
                assert forall|k: ChunkKey| self@.dom().contains(k) implies ids.map(f).contains(k) by {
                    lemma_key_id(k);
                }
                assert forall|k: ChunkKey| ids.map(f).contains(k) implies self@.dom().contains(k) by {
                    let id = choose|id: u128| ids.contains(id) && f(id) == k;
                    lemma_id_key(id);
                }
            }
            assert forall|a: u128, b: u128|
                ids.contains(a) && ids.contains(b) && #[trigger] f(a) == #[trigger] f(b) implies a
                == b by {
                lemma_id_key(a);
                lemma_id_key(b);
            }
            lemma_map_size(ids, self@.dom(), f);
        }
        self.entries.len()
    }
}

} // verus!
