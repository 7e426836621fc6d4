//! The meshing pass: which dirty chunks can be meshed now, and the padded
//! buffer each of them is meshed from.
use crate::chunk::{ChunkKey, Sd8};
use crate::chunk_map::{chunk_meets, chunks_in_extent, neighborhood, ChunkMap};
use crate::liveness::{lemma_filter_no_duplicates, CurrentChunks, DirtyChunks, Entity};
use vstd::prelude::*;

verus! {

/// A neighbour does not hold meshing back when it is stored, or when it was
/// never requested and so will never arrive.
pub open spec fn neighbor_settled(
    m: Map<ChunkKey, Seq<Sd8>>,
    live: Map<ChunkKey, Entity>,
    k: ChunkKey,
) -> bool {
    m.contains_key(k) || !live.contains_key(k)
}

/// Every chunk that meets the padded extent of `key` is settled.
pub open spec fn neighborhood_settled(
    m: Map<ChunkKey, Seq<Sd8>>,
    live: Map<ChunkKey, Entity>,
    key: ChunkKey,
) -> bool {
    forall|k: ChunkKey| #[trigger] chunk_meets(k, key.padded_extent_spec()) ==> neighbor_settled(m, live, k)
}

/// A dirty chunk is meshed now when it is live, its neighbours all have
/// keys, and its neighbourhood is settled.
pub open spec fn meshable(
    m: Map<ChunkKey, Seq<Sd8>>,
    live: Map<ChunkKey, Entity>,
    key: ChunkKey,
) -> bool {
    &&& live.contains_key(key)
    &&& key.has_all_neighbors()
    &&& neighborhood_settled(m, live, key)
}

pub open spec fn meshable_pred(
    m: Map<ChunkKey, Seq<Sd8>>,
    live: Map<ChunkKey, Entity>,
) -> spec_fn(ChunkKey) -> bool {
    |k: ChunkKey| meshable(m, live, k)
}

pub open spec fn deferred_pred(
    m: Map<ChunkKey, Seq<Sd8>>,
    live: Map<ChunkKey, Entity>,
) -> spec_fn(ChunkKey) -> bool {
    |k: ChunkKey| !meshable(m, live, k)
}

/// The work handed to a meshing task: the padded buffer of a chunk and the
/// placeholder its mesh is attached to.
pub struct MeshingJob {
    pub entity: Entity,
    pub key: ChunkKey,
    pub padded_sdf: Vec<Sd8>,
}

/// Whether every chunk whose extent meets the padded extent of `key` is
/// stored, or was never requested.
pub fn neighborhood_ready(map: &ChunkMap, current: &CurrentChunks, key: ChunkKey) -> (r: bool)
    requires
        key.has_all_neighbors(),
    ensures
        r == neighborhood_settled(map@, current@, key),
{
    let padded = key.padded_extent();
    proof {
        crate::chunk_map::lemma_padded_extent_keys(key);
    }
    let neighbors = chunks_in_extent(&padded);
    let mut i: usize = 0;
    while i < neighbors.len()
        invariant
            0 <= i <= neighbors@.len(),
            padded == key.padded_extent_spec(),
            forall|k: ChunkKey| #[trigger] neighbors@.contains(k) <==> chunk_meets(k, padded),
            forall|j: int| 0 <= j < i ==> neighbor_settled(map@, current@, #[trigger] neighbors@[j]),
        decreases neighbors@.len() - i,
    {
        let k = neighbors[i];
        if !(map.contains(k) || !current.contains(k)) {
            assert(neighbors@.contains(k));
            return false;
        }
        i = i + 1;
    }
    assert forall|k: ChunkKey| #[trigger] chunk_meets(k, key.padded_extent_spec()) implies neighbor_settled(
        map@,
        current@,
        k,
    ) by {
        assert(neighbors@.contains(k));
        let j = choose|j: int| 0 <= j < neighbors@.len() && neighbors@[j] == k;
    }
    true
}

/// One meshing pass over the dirty chunks, in their order. Each one that is
/// meshable now leaves the dirty set and gets a job holding its padded
/// buffer; the others stay dirty, in their order, for a later pass.
pub fn spawn_chunk_meshing_tasks(
    map: &ChunkMap,
    dirty: &mut DirtyChunks,
    current: &CurrentChunks,
) -> (jobs: Vec<MeshingJob>)
    requires
        map.wf(),
        old(dirty).wf(),
    ensures
        final(dirty).wf(),
        final(dirty)@ == old(dirty)@.filter(deferred_pred(map@, current@)),
        jobs@.len() == old(dirty)@.filter(meshable_pred(map@, current@)).len(),
        forall|i: int|
            0 <= i < jobs@.len() ==> {
                let key = old(dirty)@.filter(meshable_pred(map@, current@))[i];
                &&& (#[trigger] jobs@[i]).key == key
                &&& jobs@[i].entity == current@[key]
                &&& jobs@[i].padded_sdf@ == neighborhood(map@, key)
            },
{
    let ghost m = map@;
    let ghost live = current@;
    let ghost ready = meshable_pred(m, live);
    let ghost deferred = deferred_pred(m, live);
    let keys = dirty.keys();
    let ghost s = keys@;
    let mut jobs: Vec<MeshingJob> = Vec::new();
    let mut remaining: Vec<ChunkKey> = Vec::new();
    let mut i: usize = 0;
    assert(s.take(0) =~= Seq::<ChunkKey>::empty());
    assert(Seq::<ChunkKey>::empty().filter(ready) =~= Seq::<ChunkKey>::empty()) by {
        reveal(Seq::filter);
    }
    assert(Seq::<ChunkKey>::empty().filter(deferred) =~= Seq::<ChunkKey>::empty()) by {
        reveal(Seq::filter);
    }
    while i < keys.len()
        invariant
            s == keys@,
            s == old(dirty)@,
            m == map@,
            live == current@,
            ready == meshable_pred(m, live),
            deferred == deferred_pred(m, live),
            map.wf(),
            0 <= i <= s.len(),
            remaining@ == s.take(i as int).filter(deferred),
            jobs@.len() == s.take(i as int).filter(ready).len(),
            forall|j: int|
                0 <= j < jobs@.len() ==> {
                    let key = s.take(i as int).filter(ready)[j];
                    &&& (#[trigger] jobs@[j]).key == key
                    &&& jobs@[j].entity == live[key]
                    &&& jobs@[j].padded_sdf@ == neighborhood(m, key)
                },
        decreases s.len() - i,
    {
        let key = keys[i];
        let ghost prefix = s.take(i as int);
        proof {
            assert(s.take(i + 1) =~= prefix.push(key));
            prefix.lemma_filter_push(key, ready);
            prefix.lemma_filter_push(key, deferred);
        }
        let mut meshed = false;
        match current.get_entity(key) {
            Some(entity) => {
                if key_has_all_neighbors(key) && neighborhood_ready(map, current, key) {
                    let padded_sdf = map.copy_chunk_neighborhood(key);
                    jobs.push(MeshingJob { entity, key, padded_sdf });
                    meshed = true;
                }
            },
            None => {},
        }
        if !meshed {
            remaining.push(key);
        }
        i = i + 1;
    }
    assert(s.take(s.len() as int) =~= s);
    proof {
        old(dirty).lemma_no_duplicates();
        lemma_filter_no_duplicates(s, deferred);
    }
    dirty.replace_keys(remaining);
    jobs
}

/// A dirty chunk next to a chunk that was requested but is not stored yet
/// stays dirty through a meshing pass, and no job is made for it.
pub proof fn lemma_pending_neighbor_defers(
    m: Map<ChunkKey, Seq<Sd8>>,
    live: Map<ChunkKey, Entity>,
    dirty: Seq<ChunkKey>,
    key: ChunkKey,
    n: ChunkKey,
)
    requires
        dirty.contains(key),
        chunk_meets(n, key.padded_extent_spec()),
        live.contains_key(n),
        !m.contains_key(n),
    ensures
        dirty.filter(deferred_pred(m, live)).contains(key),
        !dirty.filter(meshable_pred(m, live)).contains(key),
{
    broadcast use vstd::seq_lib::group_filter_ensures;

    let i = choose|i: int| 0 <= i < dirty.len() && dirty[i] == key;
    assert(!meshable(m, live, key));
    dirty.lemma_filter_contains(deferred_pred(m, live), i);
    if dirty.filter(meshable_pred(m, live)).contains(key) {
        let j = choose|j: int|
            0 <= j < dirty.filter(meshable_pred(m, live)).len() && dirty.filter(
                meshable_pred(m, live),
            )[j] == key;
        dirty.lemma_filter_pred(meshable_pred(m, live), j);
    }
}

/// A dirty live chunk whose neighbours are each stored or never requested
/// is meshed by the next pass: it leaves the dirty set and gets a job.
pub proof fn lemma_settled_neighborhood_meshes(
    m: Map<ChunkKey, Seq<Sd8>>,
    live: Map<ChunkKey, Entity>,
    dirty: Seq<ChunkKey>,
    key: ChunkKey,
)
    requires
        dirty.contains(key),
        live.contains_key(key),
        key.has_all_neighbors(),
        forall|k: ChunkKey|
            #[trigger] chunk_meets(k, key.padded_extent_spec()) ==> m.contains_key(k)
                || !live.contains_key(k),
    ensures
        dirty.filter(meshable_pred(m, live)).contains(key),
        !dirty.filter(deferred_pred(m, live)).contains(key),
{
    let i = choose|i: int| 0 <= i < dirty.len() && dirty[i] == key;
    assert(meshable(m, live, key));
    dirty.lemma_filter_contains(meshable_pred(m, live), i);
    if dirty.filter(deferred_pred(m, live)).contains(key) {
        let j = choose|j: int|
            0 <= j < dirty.filter(deferred_pred(m, live)).len() && dirty.filter(
                deferred_pred(m, live),
            )[j] == key;
        dirty.lemma_filter_pred(deferred_pred(m, live), j);
    }
}

/// Whether every chunk around `key` has a key.
fn key_has_all_neighbors(key: ChunkKey) -> (r: bool)
    ensures
        r == key.has_all_neighbors(),
{
    key.0.x > i32::MIN && key.0.x < i32::MAX && key.0.y > i32::MIN && key.0.y < i32::MAX
        && key.0.z > i32::MIN && key.0.z < i32::MAX
}

} // verus!
