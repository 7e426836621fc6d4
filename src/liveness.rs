//! Which chunks are alive (requested, with a placeholder object of the
//! host), and which hold data that changed since they were last meshed.
use crate::chunk::ChunkKey;
use crate::key_map::ChunkKeyMap;
use vstd::prelude::*;

verus! {

/// An opaque handle to the host's placeholder object of a chunk.
#[derive(Clone, Copy, Debug, PartialEq, Eq, Hash, Structural)]
pub struct Entity(pub u64);

/// The live chunks and their placeholder objects. A key is here from the
/// moment its placeholder is created until it is destroyed.
pub struct CurrentChunks {
    chunks: ChunkKeyMap<Entity>,
}

impl View for CurrentChunks {
    type V = Map<ChunkKey, Entity>;

    closed spec fn view(&self) -> Map<ChunkKey, Entity> {
        self.chunks@
    }
}

impl CurrentChunks {
    pub closed spec fn wf(&self) -> bool {
        self.chunks.wf()
    }

    pub fn new() -> (r: Self)
        ensures
            r.wf(),
            r@ == Map::<ChunkKey, Entity>::empty(),
    {
        CurrentChunks { chunks: ChunkKeyMap::new() }
    }

    /// Records `entity` as the placeholder of `key`, replacing any other.
    pub fn add(&mut self, key: ChunkKey, entity: Entity)
        requires
            old(self).wf(),
        ensures
            final(self).wf(),
            final(self)@ == old(self)@.insert(key, entity),
    {
        self.chunks.insert(key, entity);
    }

    /// Forgets `key`; returns its placeholder if it was live.
    pub fn remove(&mut self, key: ChunkKey) -> (r: Option<Entity>)
        requires
            old(self).wf(),
        ensures
            final(self).wf(),
            final(self)@ == old(self)@.remove(key),
            r == (if old(self)@.contains_key(key) {
                Some(old(self)@[key])
            } else {
                None
            }),
    {
        self.chunks.remove(key)
    }

    pub fn get_entity(&self, key: ChunkKey) -> (r: Option<Entity>)
        ensures
            r == (if self@.contains_key(key) {
                Some(self@[key])
            } else {
                None
            }),
    {
        match self.chunks.get(key) {
            Some(e) => Some(*e),
            None => None,
        }
    }

    pub fn contains(&self, key: ChunkKey) -> (r: bool)
        ensures
            r == self@.contains_key(key),
    {
        self.chunks.contains_key(key)
    }

    /// Whether `entity` is the placeholder of the live chunk `key`. A result
    /// computed for a chunk that was deleted, or created anew, since its
    /// task was dispatched fails this and is dropped.
    pub fn holds(&self, key: ChunkKey, entity: Entity) -> (r: bool)
        ensures
            r == (self@.contains_key(key) && self@[key] == entity),
    {
        match self.chunks.get(key) {
            Some(e) => *e == entity,
            None => false,
        }
    }

    /// The number of live chunks.
    pub fn len(&self) -> (r: usize)
        requires
            self.wf(),
        ensures
            r == self@.dom().len(),
    {
        self.chunks.len()
    }
}

/// `d` with `k` appended unless it already holds it.
pub open spec fn insert_key(d: Seq<ChunkKey>, k: ChunkKey) -> Seq<ChunkKey> {
    if d.contains(k) {
        d
    } else {
        d.push(k)
    }
}

/// The chunks whose stored data changed since they were last meshed, in the
/// order they became dirty, without repetition.
pub struct DirtyChunks {
    keys: Vec<ChunkKey>,
}

impl View for DirtyChunks {
    type V = Seq<ChunkKey>;

    closed spec fn view(&self) -> Seq<ChunkKey> {
        self.keys@
    }
}

impl DirtyChunks {
    pub closed spec fn wf(&self) -> bool {
        self.keys@.no_duplicates()
    }

    /// No key is dirty twice.
    pub proof fn lemma_no_duplicates(&self)
        requires
            self.wf(),
        ensures
            self@.no_duplicates(),
    {
    }

    pub fn new() -> (r: Self)
        ensures
            r.wf(),
            r@ == Seq::<ChunkKey>::empty(),
    {
        DirtyChunks { keys: Vec::new() }
    }

    /// Marks `key` dirty; returns whether it was clean before.
    pub fn insert(&mut self, key: ChunkKey) -> (r: bool)
        requires
            old(self).wf(),
        ensures
            final(self).wf(),
            final(self)@ == insert_key(old(self)@, key),
            r == !old(self)@.contains(key),
    {
        if self.contains(key) {
            false
        } else {
            self.keys.push(key);
            true
        }
    }

    /// Marks `key` clean; returns whether it was dirty. The other keys keep
    /// their order.
    pub fn remove(&mut self, key: ChunkKey) -> (r: bool)
        requires
            old(self).wf(),
        ensures
            final(self).wf(),
            final(self)@ == old(self)@.filter(|k: ChunkKey| k != key),
            final(self)@.to_set() == old(self)@.to_set().remove(key),
            r == old(self)@.contains(key),
    {
        let ghost s = self.keys@;
        let ghost pred = |k: ChunkKey| k != key;
        let mut i: usize = 0;
        while i < self.keys.len()
            invariant
                s == self.keys@,
                0 <= i <= s.len(),
                forall|j: int| 0 <= j < i ==> s[j] != key,
            ensures
                s == self.keys@,
                0 <= i <= s.len(),
                forall|j: int| 0 <= j < i ==> s[j] != key,
                i < s.len() ==> s[i as int] == key,
            decreases s.len() - i,
        {
            if self.keys[i] == key {
                break;
            }
            i = i + 1;
        }
        if i == self.keys.len() {
            proof {
                s.lemma_filter_eq_filter_alt(pred);
                assert forall|j: int| 0 <= j < s.len() implies pred(#[trigger] s[j]) by {}
                lemma_filter_all(s, pred);
                assert(s.to_set() =~= s.to_set().remove(key));
            }
            false
        } else {
            self.keys.remove(i);
            proof {
                let a = s.take(i as int);
                let b = s.skip(i as int + 1);
                assert(s =~= a + seq![key] + b);
                assert(self.keys@ =~= a + b);
                assert forall|j: int| 0 <= j < a.len() implies pred(#[trigger] a[j]) by {}
                assert forall|j: int| 0 <= j < b.len() implies pred(#[trigger] b[j]) by {
                    assert(s[i + 1 + j] == b[j]);
                }
                lemma_filter_all(a, pred);
                lemma_filter_all(b, pred);
                Seq::filter_distributes_over_add(a + seq![key], b, pred);
                Seq::filter_distributes_over_add(a, seq![key], pred);
                assert(seq![key] =~= Seq::<ChunkKey>::empty().push(key));
                Seq::<ChunkKey>::empty().lemma_filter_push(key, pred);
                assert(Seq::<ChunkKey>::empty().filter(pred) =~= Seq::<ChunkKey>::empty()) by {
                    reveal(Seq::filter);
                }
                assert(a + Seq::<ChunkKey>::empty() =~= a);
                assert(self.keys@.to_set() =~= s.to_set().remove(key)) by {
                    assert forall|k: ChunkKey| #[trigger] s.to_set().contains(k) && k != key implies self.keys@.contains(k) by {
                        let j = choose|j: int| 0 <= j < s.len() && s[j] == k;
                        if j < i {
                            assert(self.keys@[j] == k);
                        } else {
                            assert(j > i);
                            assert(self.keys@[j - 1] == k);
                        }
                    }
                    assert forall|k: ChunkKey| #[trigger] self.keys@.contains(k) implies s.to_set().contains(k) && k != key by {
                        let j = choose|j: int| 0 <= j < self.keys@.len() && self.keys@[j] == k;
                        if j < i {
                            assert(s[j] == k);
                        } else {
                            assert(s[j + 1] == k);
                        }
                    }
                }
            }
            true
        }
    }

    pub fn contains(&self, key: ChunkKey) -> (r: bool)
        ensures
            r == self@.contains(key),
    {
        let mut i: usize = 0;
        while i < self.keys.len()
            invariant
                0 <= i <= self.keys@.len(),
                forall|j: int| 0 <= j < i ==> self.keys@[j] != key,
            decreases self.keys@.len() - i,
        {
            if self.keys[i] == key {
                return true;
            }
            i = i + 1;
        }
        false
    }

    pub fn len(&self) -> (r: usize)
        ensures
            r == self@.len(),
    {
        self.keys.len()
    }

    /// The dirty keys, in order.
    pub fn keys(&self) -> (r: Vec<ChunkKey>)
        ensures
            r@ == self@,
    {
        let mut r: Vec<ChunkKey> = Vec::new();
        let mut i: usize = 0;
        while i < self.keys.len()
            invariant
                0 <= i <= self.keys@.len(),
                r@ == self.keys@.take(i as int),
            decreases self.keys@.len() - i,
        {
            r.push(self.keys[i]);
            i = i + 1;
            assert(r@ =~= self.keys@.take(i as int));
        }
        assert(self.keys@.take(i as int) =~= self.keys@);
        r
    }

    /// Keeps exactly `keys` dirty, in their order.
    pub(crate) fn replace_keys(&mut self, keys: Vec<ChunkKey>)
        requires
            keys@.no_duplicates(),
        ensures
            final(self).wf(),
            final(self)@ == keys@,
    {
        self.keys = keys;
    }

    pub fn is_empty(&self) -> (r: bool)
        ensures
            r == (self@.len() == 0),
    {
        self.keys.len() == 0
    }
}

/// Filtering with a predicate that every element meets changes nothing.
proof fn lemma_filter_all(s: Seq<ChunkKey>, pred: spec_fn(ChunkKey) -> bool)
    requires
        forall|j: int| 0 <= j < s.len() ==> pred(#[trigger] s[j]),
    ensures
        s.filter(pred) == s,
    decreases s.len(),
{
    reveal(Seq::filter);
    if s.len() > 0 {
        lemma_filter_all(s.drop_last(), pred);
        assert(s.drop_last().push(s.last()) =~= s);
    }
}

/// Filtering a sequence without repetition leaves one without repetition.
pub proof fn lemma_filter_no_duplicates(s: Seq<ChunkKey>, pred: spec_fn(ChunkKey) -> bool)
    requires
        s.no_duplicates(),
    ensures
        s.filter(pred).no_duplicates(),
    decreases s.len(),
{
    reveal(Seq::filter);
    if s.len() > 0 {
        let rest = s.drop_last();
        assert(rest.no_duplicates());
        lemma_filter_no_duplicates(rest, pred);
        if pred(s.last()) && rest.filter(pred).contains(s.last()) {
            rest.lemma_filter_contains_rev(pred, s.last());
            let j = choose|j: int| 0 <= j < rest.len() && rest[j] == s.last();
            assert(s[j] == s[s.len() - 1]);
        }
    }
}

} // verus!
