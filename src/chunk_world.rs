//! A plain store of chunks by chunk-space coordinate.
use crate::chunk::{Chunk, ChunkKey};
use crate::geometry::IVec3;
use crate::key_map::ChunkKeyMap;
use vstd::prelude::*;

verus! {

/// Chunks by chunk-space coordinate.
pub struct ChunkWorld {
    chunks: ChunkKeyMap<Chunk>,
}

impl View for ChunkWorld {
    type V = Map<IVec3, Chunk>;

    closed spec fn view(&self) -> Map<IVec3, Chunk> {
        Map::new(
            |c: IVec3| self.chunks@.contains_key(ChunkKey(c)),
            |c: IVec3| self.chunks@[ChunkKey(c)],
        )
    }
}

impl ChunkWorld {
    pub closed spec fn wf(&self) -> bool {
        self.chunks.wf()
    }

    pub fn new() -> (r: Self)
        ensures
            r.wf(),
            r@ == Map::<IVec3, Chunk>::empty(),
    {
        let r = ChunkWorld { chunks: ChunkKeyMap::new() };
        assert(r@ =~= Map::<IVec3, Chunk>::empty());
        r
    }

    /// Stores `chunk` at `coord`; returns the chunk it replaced.
    pub fn insert_chunk(&mut self, coord: IVec3, chunk: Chunk) -> (r: Option<Chunk>)
        requires
            old(self).wf(),
        ensures
            final(self).wf(),
            final(self)@ == old(self)@.insert(coord, chunk),
            r == (if old(self)@.contains_key(coord) {
                Some(old(self)@[coord])
            } else {
                None
            }),
    {
        let r = self.chunks.insert(ChunkKey(coord), chunk);
        assert(self@ =~= old(self)@.insert(coord, chunk));
        r
    }

    pub fn get_chunk(&self, coord: &IVec3) -> (r: Option<&Chunk>)
        ensures
            match r {
                Some(c) => self@.contains_key(*coord) && *c == self@[*coord],
                None => !self@.contains_key(*coord),
            },
    {
        self.chunks.get(ChunkKey(*coord))
    }
}

} // verus!
