//! The generation side of the pipeline: queueing chunk requests, storing
//! finished chunks, and applying deletions.
use crate::chunk::{Chunk, ChunkKey, Sd8};
use crate::chunk_map::{keys_in_box, keys_in_box_vec, ChunkMap};
use crate::commands::{stably_sorted_by_distance, ChunkCommand, ChunkCommandQueue};
use crate::geometry::IVec3;
use crate::liveness::{insert_key, CurrentChunks, DirtyChunks, Entity};
use vstd::prelude::*;

verus! {

/// Length of the span `[lo, hi)`, zero when it is empty.
pub open spec fn span_len(lo: int, hi: int) -> int {
    if lo < hi {
        hi - lo
    } else {
        0
    }
}

/// The keys of the chunk-space box `[min, lub)`, x varying fastest.
pub open spec fn box_keys(min: IVec3, lub: IVec3) -> Seq<ChunkKey> {
    keys_in_box(
        min.x as int,
        min.y as int,
        min.z as int,
        span_len(min.x as int, lub.x as int),
        span_len(min.y as int, lub.y as int),
        span_len(min.z as int, lub.z as int),
    )
}

/// The predicate "not live".
pub open spec fn not_live(live: Map<ChunkKey, Entity>) -> spec_fn(ChunkKey) -> bool {
    |k: ChunkKey| !live.contains_key(k)
}

/// Requests creation of every chunk of the box `[min, lub)` that is not
/// live yet, then orders all pending creations by distance from
/// `reference`, nearest first.
pub fn request_chunks(
    queue: &mut ChunkCommandQueue,
    current: &CurrentChunks,
    min: IVec3,
    lub: IVec3,
    reference: ChunkKey,
)
    requires
        span_len(min.x as int, lub.x as int) * span_len(min.y as int, lub.y as int) * span_len(
            min.z as int,
            lub.z as int,
        ) <= usize::MAX,
    ensures
        stably_sorted_by_distance(
            final(queue).creates(),
            old(queue).creates() + box_keys(min, lub).filter(not_live(current@)),
            reference,
        ),
        final(queue).deletes() == old(queue).deletes(),
{
    let ghost pred = not_live(current@);
    let ghost start = queue.creates();
    let keys: Vec<ChunkKey> = if min.x < lub.x && min.y < lub.y && min.z < lub.z {
        let nx = lub.x as i64 - min.x as i64;
        let ny = lub.y as i64 - min.y as i64;
        let nz = lub.z as i64 - min.z as i64;
        keys_in_box_vec(min, nx, ny, nz)
    } else {
        proof {
            assert(box_keys(min, lub) =~= Seq::<ChunkKey>::empty()) by {
                assert(span_len(min.x as int, lub.x as int) == 0 || span_len(
                    min.y as int,
                    lub.y as int,
                ) == 0 || span_len(min.z as int, lub.z as int) == 0);
                assert(span_len(min.x as int, lub.x as int) * span_len(min.y as int, lub.y as int)
                    * span_len(min.z as int, lub.z as int) == 0) by (nonlinear_arith)
                    requires
                        span_len(min.x as int, lub.x as int) == 0 || span_len(
                            min.y as int,
                            lub.y as int,
                        ) == 0 || span_len(min.z as int, lub.z as int) == 0,
                ;
            }
        }
        Vec::new()
    };
    assert(keys@ == box_keys(min, lub));
    let mut i: usize = 0;
    proof {
        assert(keys@.take(0) =~= Seq::<ChunkKey>::empty());
        assert(Seq::<ChunkKey>::empty().filter(pred) =~= Seq::<ChunkKey>::empty()) by {
            reveal(Seq::filter);
        }
        assert(start + Seq::<ChunkKey>::empty() =~= start);
    }
    while i < keys.len()
        invariant
            0 <= i <= keys@.len(),
            pred == not_live(current@),
            queue.creates() == start + keys@.take(i as int).filter(pred),
            queue.deletes() == old(queue).deletes(),
            start == old(queue).creates(),
        decreases keys@.len() - i,
    {
        let key = keys[i];
        proof {
            assert(keys@.take(i + 1) =~= keys@.take(i as int).push(key));
            keys@.take(i as int).lemma_filter_push(key, pred);
        }
        if !current.contains(key) {
            queue.push(ChunkCommand::Create(key));
            assert(start + keys@.take(i as int).filter(pred).push(key) =~= (start + keys@.take(
                i as int,
            ).filter(pred)).push(key));
        }
        i = i + 1;
    }
    assert(keys@.take(keys@.len() as int) =~= keys@);
    queue.sort_by_distance(reference);
}

/// A chunk that is already live is not queued again by a request: the
/// pending creations hold it as often after the request as before.
pub proof fn lemma_request_skips_live(
    before: Seq<ChunkKey>,
    after: Seq<ChunkKey>,
    live: Map<ChunkKey, Entity>,
    min: IVec3,
    lub: IVec3,
    reference: ChunkKey,
    k: ChunkKey,
)
    requires
        live.contains_key(k),
        stably_sorted_by_distance(
            after,
            before + box_keys(min, lub).filter(not_live(live)),
            reference,
        ),
    ensures
        after.to_multiset().count(k) == before.to_multiset().count(k),
{
    broadcast use vstd::seq_lib::group_to_multiset_ensures;

    let added = box_keys(min, lub).filter(not_live(live));
    vstd::seq_lib::lemma_multiset_commutative(before, added);
    if added.contains(k) {
        let i = choose|i: int| 0 <= i < added.len() && added[i] == k;
        box_keys(min, lub).lemma_filter_pred(not_live(live), i);
    }
}

/// The stored chunks once the results `rs` are applied in turn: each result
/// of a live chunk overwrites its entry, a result of a chunk that is no
/// longer live is dropped.
pub open spec fn store_results(
    m: Map<ChunkKey, Seq<Sd8>>,
    live: Map<ChunkKey, Entity>,
    rs: Seq<(ChunkKey, Chunk)>,
) -> Map<ChunkKey, Seq<Sd8>>
    decreases rs.len(),
{
    if rs.len() == 0 {
        m
    } else {
        let prev = store_results(m, live, rs.drop_last());
        let (k, c) = rs.last();
        if live.contains_key(k) {
            prev.insert(k, c@)
        } else {
            prev
        }
    }
}

/// The dirty chunks once the results `rs` are applied in turn: the key of
/// each result of a live chunk becomes dirty.
pub open spec fn mark_results(
    d: Seq<ChunkKey>,
    live: Map<ChunkKey, Entity>,
    rs: Seq<(ChunkKey, Chunk)>,
) -> Seq<ChunkKey>
    decreases rs.len(),
{
    if rs.len() == 0 {
        d
    } else {
        let prev = mark_results(d, live, rs.drop_last());
        let k = rs.last().0;
        if live.contains_key(k) {
            insert_key(prev, k)
        } else {
            prev
        }
    }
}

/// Stores the finished chunks of `results`, in order, and marks each of them
/// dirty. A result for a chunk that is no longer live is dropped.
pub fn handle_chunk_generation_results(
    map: &mut ChunkMap,
    dirty: &mut DirtyChunks,
    current: &CurrentChunks,
    results: Vec<(ChunkKey, Chunk)>,
)
    requires
        old(map).wf(),
        old(dirty).wf(),
        forall|i: int| 0 <= i < results@.len() ==> (#[trigger] results@[i]).1.wf(),
    ensures
        final(map).wf(),
        final(dirty).wf(),
        final(map)@ == store_results(old(map)@, current@, results@),
        final(dirty)@ == mark_results(old(dirty)@, current@, results@),
{
    let ghost rs = results@;
    let ghost m0 = map@;
    let ghost d0 = dirty@;
    for item in it: results.into_iter()
        invariant
            it.seq() == rs,
            forall|i: int| 0 <= i < rs.len() ==> (#[trigger] rs[i]).1.wf(),
            map.wf(),
            dirty.wf(),
            map@ == store_results(m0, current@, rs.take(it.index() as int)),
            dirty@ == mark_results(d0, current@, rs.take(it.index() as int)),
    {
        let ghost i = it.index() as int;
        proof {
            assert(rs.take(i + 1).drop_last() =~= rs.take(i));
            assert(rs.take(i + 1).last() == rs[i]);
        }
        let (key, chunk) = item;
        if current.contains(key) {
            map.insert(key, chunk);
            dirty.insert(key);
        }
    }
    assert(rs.take(rs.len() as int) =~= rs);
}

/// The placeholders destroyed when the chunks of `ks` are deleted in turn:
/// the placeholder of each key that is still live when its turn comes.
pub open spec fn destroyed_handles(live: Map<ChunkKey, Entity>, ks: Seq<ChunkKey>) -> Seq<Entity>
    decreases ks.len(),
{
    if ks.len() == 0 {
        Seq::empty()
    } else {
        let prev = destroyed_handles(live, ks.drop_last());
        let k = ks.last();
        let rest = live.remove_keys(ks.drop_last().to_set());
        if rest.contains_key(k) {
            prev.push(rest[k])
        } else {
            prev
        }
    }
}

/// The predicate "not one of `ks`".
pub open spec fn not_in(ks: Seq<ChunkKey>) -> spec_fn(ChunkKey) -> bool {
    |k: ChunkKey| !ks.contains(k)
}

/// Filtering twice is filtering once by both predicates.
proof fn lemma_filter_twice(
    s: Seq<ChunkKey>,
    p: spec_fn(ChunkKey) -> bool,
    q: spec_fn(ChunkKey) -> bool,
    r: spec_fn(ChunkKey) -> bool,
)
    requires
        forall|k: ChunkKey| #[trigger] r(k) == (p(k) && q(k)),
    ensures
        s.filter(p).filter(q) == s.filter(r),
    decreases s.len(),
{
    reveal(Seq::filter);
    if s.len() > 0 {
        lemma_filter_twice(s.drop_last(), p, q, r);
        let last = s.last();
        if p(last) {
            s.drop_last().filter(p).lemma_filter_push(last, q);
            assert(s.drop_last().filter(p).push(last).drop_last() =~= s.drop_last().filter(p));
        }
    }
}

/// Applies every pending deletion, in queue order: the chunk leaves the
/// storage, the live set and the dirty set. Returns the placeholders to
/// destroy. A result still in flight for a deleted chunk is dropped when it
/// arrives, as the chunk is no longer live.
pub fn apply_chunk_deletions(
    queue: &mut ChunkCommandQueue,
    map: &mut ChunkMap,
    current: &mut CurrentChunks,
    dirty: &mut DirtyChunks,
) -> (r: Vec<Entity>)
    requires
        old(map).wf(),
        old(current).wf(),
        old(dirty).wf(),
    ensures
        final(map).wf(),
        final(current).wf(),
        final(dirty).wf(),
        final(queue).deletes() == Seq::<ChunkKey>::empty(),
        final(queue).creates() == old(queue).creates(),
        final(map)@ == old(map)@.remove_keys(old(queue).deletes().to_set()),
        final(current)@ == old(current)@.remove_keys(old(queue).deletes().to_set()),
        final(dirty)@ == old(dirty)@.filter(not_in(old(queue).deletes())),
        r@ == destroyed_handles(old(current)@, old(queue).deletes()),
{
    let keys = queue.drain_delete_commands();
    let ghost ks = keys@;
    let ghost m0 = map@;
    let ghost l0 = current@;
    let ghost d0 = dirty@;
    let mut out: Vec<Entity> = Vec::new();
    let mut i: usize = 0;
    proof {
        assert(ks.take(0) =~= Seq::<ChunkKey>::empty());
        assert(m0 =~= m0.remove_keys(Seq::<ChunkKey>::empty().to_set()));
        assert(l0 =~= l0.remove_keys(Seq::<ChunkKey>::empty().to_set()));
        lemma_filter_all_kept(d0, not_in(Seq::<ChunkKey>::empty()));
    }
    while i < keys.len()
        invariant
            ks == keys@,
            0 <= i <= ks.len(),
            map.wf(),
            current.wf(),
            dirty.wf(),
            map@ == m0.remove_keys(ks.take(i as int).to_set()),
            current@ == l0.remove_keys(ks.take(i as int).to_set()),
            dirty@ == d0.filter(not_in(ks.take(i as int))),
            out@ == destroyed_handles(l0, ks.take(i as int)),
        decreases ks.len() - i,
    {
        let key = keys[i];
        let ghost done = ks.take(i as int);
        proof {
            assert(ks.take(i + 1) =~= done.push(key));
            assert(done.push(key).drop_last() =~= done);
            assert(done.push(key).to_set() =~= done.to_set().insert(key)) by {
                done.lemma_push_to_set_commute(key);
            }
        }
        map.remove(key);
        let gone = current.remove(key);
        dirty.remove(key);
        match gone {
            Some(e) => out.push(e),
            None => {},
        }
        proof {
            let next = done.push(key);
            assert(map@ =~= m0.remove_keys(next.to_set()));
            assert(current@ =~= l0.remove_keys(next.to_set()));
            assert forall|k: ChunkKey| #[trigger] not_in(next)(k) == (not_in(done)(k) && k != key) by {
                assert(next.contains(k) <==> (done.contains(k) || k == key)) by {
                    if next.contains(k) {
                        let j = choose|j: int| 0 <= j < next.len() && next[j] == k;
                        if j < done.len() {
                            assert(done[j] == k);
                        }
                    }
                    if done.contains(k) {
                        let j = choose|j: int| 0 <= j < done.len() && done[j] == k;
                        assert(next[j] == k);
                    }
                    if k == key {
                        assert(next[done.len() as int] == k);
                    }
                }
            }
            lemma_filter_twice(d0, not_in(done), |k: ChunkKey| k != key, not_in(next));
        }
        i = i + 1;
    }
    assert(ks.take(ks.len() as int) =~= ks);
    out
}

/// Filtering with a predicate that every element meets changes nothing.
proof fn lemma_filter_all_kept(s: Seq<ChunkKey>, pred: spec_fn(ChunkKey) -> bool)
    requires
        forall|k: ChunkKey| #[trigger] pred(k),
    ensures
        s.filter(pred) == s,
    decreases s.len(),
{
    reveal(Seq::filter);
    if s.len() > 0 {
        lemma_filter_all_kept(s.drop_last(), pred);
        assert(s.drop_last().push(s.last()) =~= s);
    }
}

} // verus!
