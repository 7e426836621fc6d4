//! The queue of pending chunk creations and deletions, and its ordering by
//! distance to a reference chunk.
use crate::chunk::ChunkKey;
use vstd::prelude::*;

verus! {

broadcast use {vstd::seq_lib::group_to_multiset_ensures, vstd::seq_lib::to_multiset_insert};

/// A request to create or delete the chunk of a key.
#[derive(Clone, Copy, Debug, PartialEq, Eq, Structural)]
pub enum ChunkCommand {
    Create(ChunkKey),
    Delete(ChunkKey),
}

/// Squared Euclidean distance between two chunk keys.
pub open spec fn distance_squared(a: ChunkKey, b: ChunkKey) -> int {
    let (dx, dy, dz) = (a.0.x - b.0.x, a.0.y - b.0.y, a.0.z - b.0.z);
    dx * dx + dy * dy + dz * dz
}

/// The predicate "at squared distance `d` from `r`".
pub open spec fn at_distance(r: ChunkKey, d: int) -> spec_fn(ChunkKey) -> bool {
    |k: ChunkKey| distance_squared(k, r) == d
}

/// The keys of `s` come in non-decreasing squared distance from `r`.
pub open spec fn nondecreasing_distance(s: Seq<ChunkKey>, r: ChunkKey) -> bool {
    forall|i: int, j: int|
        0 <= i < j < s.len() ==> distance_squared(#[trigger] s[i], r) <= distance_squared(
            #[trigger] s[j],
            r,
        )
}

/// `t` is `s` stably sorted by squared distance from `r`: it holds the same
/// keys, nearer ones first, and keys at the same distance keep the order
/// they had in `s`.
pub open spec fn stably_sorted_by_distance(t: Seq<ChunkKey>, s: Seq<ChunkKey>, r: ChunkKey) -> bool {
    &&& nondecreasing_distance(t, r)
    &&& t.to_multiset() == s.to_multiset()
    &&& forall|d: int| #[trigger] t.filter(at_distance(r, d)) == s.filter(at_distance(r, d))
}

/// The keys waiting to be created and deleted, each in the order pushed.
#[derive(Debug)]
pub struct ChunkCommandQueue {
    create: Vec<ChunkKey>,
    delete: Vec<ChunkKey>,
}

impl ChunkCommandQueue {
    pub closed spec fn creates(&self) -> Seq<ChunkKey> {
        self.create@
    }

    pub closed spec fn deletes(&self) -> Seq<ChunkKey> {
        self.delete@
    }

    pub fn new() -> (r: Self)
        ensures
            r.creates() == Seq::<ChunkKey>::empty(),
            r.deletes() == Seq::<ChunkKey>::empty(),
    {
        ChunkCommandQueue { create: Vec::new(), delete: Vec::new() }
    }

    /// Appends the command to its queue; nothing is deduplicated.
    pub fn push(&mut self, command: ChunkCommand)
        ensures
            match command {
                ChunkCommand::Create(k) => {
                    &&& final(self).creates() == old(self).creates().push(k)
                    &&& final(self).deletes() == old(self).deletes()
                },
                ChunkCommand::Delete(k) => {
                    &&& final(self).creates() == old(self).creates()
                    &&& final(self).deletes() == old(self).deletes().push(k)
                },
            },
    {
        match command {
            ChunkCommand::Create(key) => self.create.push(key),
            ChunkCommand::Delete(key) => self.delete.push(key),
        }
    }

    /// Stably sorts the pending creations by squared distance from `key`,
    /// nearest first.
    pub fn sort_by_distance(&mut self, key: ChunkKey)
        ensures
            stably_sorted_by_distance(final(self).creates(), old(self).creates(), key),
            final(self).deletes() == old(self).deletes(),
    {
        let ghost s = self.create@;
        let mut out: Vec<ChunkKey> = Vec::new();
        let mut i: usize = 0;
        proof {
            assert(s.take(0) =~= Seq::<ChunkKey>::empty());
            assert forall|d: int| #[trigger]
                out@.filter(at_distance(key, d)) == s.take(0).filter(at_distance(key, d)) by {
                reveal(Seq::filter);
            }
        }
        while i < self.create.len()
            invariant
                s == self.create@,
                0 <= i <= s.len(),
                stably_sorted_by_distance(out@, s.take(i as int), key),
            decreases s.len() - i,
        {
            let k = self.create[i];
            let d = distance_squared_exec(k, key);
            let mut p: usize = out.len();
            loop
                invariant
                    0 <= p <= out@.len(),
                    forall|q: int|
                        p <= q < out@.len() ==> distance_squared(#[trigger] out@[q], key) > d,
                ensures
                    0 <= p <= out@.len(),
                    forall|q: int|
                        p <= q < out@.len() ==> distance_squared(#[trigger] out@[q], key) > d,
                    p > 0 ==> distance_squared(out@[p - 1], key) <= d,
                decreases p,
            {
                if p == 0 {
                    break;
                }
                if distance_squared_exec(out[p - 1], key) <= d {
                    break;
                }
                p = p - 1;
            }
            let ghost before = out@;
            out.insert(p, k);
            proof {
                lemma_insert_stays_sorted(before, s.take(i as int), p as int, k, key);
                assert(s.take(i + 1) =~= s.take(i as int).push(k));
            }
            i = i + 1;
        }
        proof {
            assert(s.take(s.len() as int) =~= s);
        }
        self.create = out;
    }

    pub fn is_create_empty(&self) -> (r: bool)
        ensures
            r == (self.creates().len() == 0),
    {
        self.create.len() == 0
    }

    pub fn is_delete_empty(&self) -> (r: bool)
        ensures
            r == (self.deletes().len() == 0),
    {
        self.delete.len() == 0
    }

    pub fn create_len(&self) -> (r: usize)
        ensures
            r == self.creates().len(),
    {
        self.create.len()
    }

    pub fn delete_len(&self) -> (r: usize)
        ensures
            r == self.deletes().len(),
    {
        self.delete.len()
    }

    /// Removes and returns every pending creation, in queue order.
    pub fn drain_create_commands(&mut self) -> (r: Vec<ChunkKey>)
        ensures
            r@ == old(self).creates(),
            final(self).creates() == Seq::<ChunkKey>::empty(),
            final(self).deletes() == old(self).deletes(),
    {
        let mut r: Vec<ChunkKey> = Vec::new();
        std::mem::swap(&mut r, &mut self.create);
        r
    }

    /// Removes and returns every pending deletion, in queue order.
    pub fn drain_delete_commands(&mut self) -> (r: Vec<ChunkKey>)
        ensures
            r@ == old(self).deletes(),
            final(self).deletes() == Seq::<ChunkKey>::empty(),
            final(self).creates() == old(self).creates(),
    {
        let mut r: Vec<ChunkKey> = Vec::new();
        std::mem::swap(&mut r, &mut self.delete);
        r
    }
}

/// Squared distance between two keys; the sum of three squares of
/// differences of `i32` values fits an `i128`.
pub fn distance_squared_exec(a: ChunkKey, b: ChunkKey) -> (r: i128)
    ensures
        r == distance_squared(a, b),
{
    let dx = a.0.x as i128 - b.0.x as i128;
    let dy = a.0.y as i128 - b.0.y as i128;
    let dz = a.0.z as i128 - b.0.z as i128;
    assert(0 <= dx * dx <= 0x1_0000_0000 * 0x1_0000_0000) by (nonlinear_arith)
        requires
            -0x1_0000_0000 <= dx <= 0x1_0000_0000,
    ;
    assert(0 <= dy * dy <= 0x1_0000_0000 * 0x1_0000_0000) by (nonlinear_arith)
        requires
            -0x1_0000_0000 <= dy <= 0x1_0000_0000,
    ;
    assert(0 <= dz * dz <= 0x1_0000_0000 * 0x1_0000_0000) by (nonlinear_arith)
        requires
            -0x1_0000_0000 <= dz <= 0x1_0000_0000,
    ;
    dx * dx + dy * dy + dz * dz
}

/// Filtering ignores an inserted element that the predicate rejects, and
/// appends one that it accepts when it is inserted after every accepted
/// element.
proof fn lemma_insert_filter(t: Seq<ChunkKey>, p: int, k: ChunkKey, pred: spec_fn(ChunkKey) -> bool)
    requires
        0 <= p <= t.len(),
        pred(k) ==> forall|q: int| p <= q < t.len() ==> !pred(#[trigger] t[q]),
    ensures
        t.insert(p, k).filter(pred) == if pred(k) {
            t.filter(pred).push(k)
        } else {
            t.filter(pred)
        },
{
    let a = t.take(p);
    let b = t.skip(p);
    assert(t =~= a + b);
    assert(t.insert(p, k) =~= (a + seq![k]) + b);
    Seq::filter_distributes_over_add(a, b, pred);
    Seq::filter_distributes_over_add(a + seq![k], b, pred);
    Seq::filter_distributes_over_add(a, seq![k], pred);
    assert(seq![k] =~= Seq::<ChunkKey>::empty().push(k));
    Seq::<ChunkKey>::empty().lemma_filter_push(k, pred);
    assert(Seq::<ChunkKey>::empty().filter(pred) =~= Seq::<ChunkKey>::empty()) by {
        reveal(Seq::filter);
    }
    if pred(k) {
        b.lemma_all_neg_filter_empty(pred);
        assert(b.filter(pred) =~= Seq::<ChunkKey>::empty());
        assert(a.filter(pred) + seq![k] =~= a.filter(pred).push(k));
        assert(a.filter(pred) + Seq::<ChunkKey>::empty() =~= a.filter(pred));
    } else {
        assert(a.filter(pred) + Seq::<ChunkKey>::empty() =~= a.filter(pred));
    }
}

/// Inserting a key after every key no farther than it, and before every key
/// farther than it, keeps a stably sorted sequence stably sorted.
proof fn lemma_insert_stays_sorted(
    t: Seq<ChunkKey>,
    s: Seq<ChunkKey>,
    p: int,
    k: ChunkKey,
    r: ChunkKey,
)
    requires
        stably_sorted_by_distance(t, s, r),
        0 <= p <= t.len(),
        p > 0 ==> distance_squared(t[p - 1], r) <= distance_squared(k, r),
        forall|q: int| p <= q < t.len() ==> distance_squared(#[trigger] t[q], r) > distance_squared(k, r),
    ensures
        stably_sorted_by_distance(t.insert(p, k), s.push(k), r),
{
    let u = t.insert(p, k);
    let dk = distance_squared(k, r);
    assert forall|i: int, j: int| 0 <= i < j < u.len() implies distance_squared(#[trigger] u[i], r)
        <= distance_squared(#[trigger] u[j], r) by {
        if i < p && j == p {
            if i < p - 1 {
                assert(distance_squared(t[i], r) <= distance_squared(t[p - 1], r));
            }
        } else if i < p && j > p {
            assert(distance_squared(t[i], r) <= distance_squared(t[j - 1], r));
        } else if i == p {
            assert(distance_squared(t[j - 1], r) > dk);
        } else if i > p {
            assert(distance_squared(t[i - 1], r) <= distance_squared(t[j - 1], r));
        }
    }
    assert forall|d: int| #[trigger] u.filter(at_distance(r, d)) == s.push(k).filter(
        at_distance(r, d),
    ) by {
        let pred = at_distance(r, d);
        if pred(k) {
            assert forall|q: int| p <= q < t.len() implies !pred(#[trigger] t[q]) by {}
        }
        lemma_insert_filter(t, p, k, pred);
        s.lemma_filter_push(k, pred);
        assert(t.filter(pred) == s.filter(pred));
    }
    vstd::seq_lib::to_multiset_build(s, k);
}

} // verus!
