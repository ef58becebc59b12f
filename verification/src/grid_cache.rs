use vstd::prelude::*;

use crate::grid::Grid;
use crate::math::{IVec2, UVec2};

verus! {

/// Chunks of a large grid, built on first use by `builder` and kept.
pub struct GridCache<T, F> {
    chunk_size: IVec2,
    chunks: Vec<(IVec2, Grid<T>)>,
    builder: F,
}

impl<T, F: Fn(Grid<T>) -> Grid<T>> GridCache<T, F> {
    pub closed spec fn spec_chunk_size(&self) -> IVec2 {
        self.chunk_size
    }

    pub closed spec fn spec_builder(&self) -> F {
        self.builder
    }

    /// The chunks built so far, by chunk position.
    pub closed spec fn cached(&self) -> Map<IVec2, Grid<T>> {
        Map::new(
            |p: IVec2| exists|i: int| 0 <= i < self.chunks@.len() && self.chunks@[i].0 == p,
            |p: IVec2| self.chunks@[choose|i: int| 0 <= i < self.chunks@.len() && self.chunks@[i].0 == p].1,
        )
    }

    /// Chunk positions are stored once each.
    pub closed spec fn wf(&self) -> bool {
        forall|i: int, j: int|
            0 <= i < j < self.chunks@.len() ==> #[trigger] self.chunks@[i].0 != #[trigger] self.chunks@[j].0
    }

    /// An empty cache of chunks of `chunk_size` cells.
    pub fn new(chunk_size: IVec2, builder: F) -> (r: GridCache<T, F>)
        ensures
            r.wf(),
            r.cached() == Map::<IVec2, Grid<T>>::empty(),
            r.spec_chunk_size() == chunk_size,
            r.spec_builder() == builder,
    {
        let r = GridCache { chunk_size, chunks: Vec::new(), builder };
        assert(r.cached() =~= Map::<IVec2, Grid<T>>::empty());
        r
    }

    /// The chunk at `chunk_pos`. On first use it is built: a grid of
    /// `chunk_size` default values whose origin is `chunk_pos * chunk_size`
    /// is handed to the builder, and what the builder returns is kept.
    pub fn get_chunk(&mut self, chunk_pos: IVec2) -> (r: &Grid<T>)
        where
            T: Default + Clone,
        requires
            old(self).wf(),
            0 <= old(self).spec_chunk_size().x < i32::MAX,
            0 <= old(self).spec_chunk_size().y < i32::MAX,
            old(self).spec_chunk_size().x * old(self).spec_chunk_size().y <= usize::MAX,
            i32::MIN <= chunk_pos.x * old(self).spec_chunk_size().x <= i32::MAX,
            i32::MIN <= chunk_pos.y * old(self).spec_chunk_size().y <= i32::MAX,
            forall|g: Grid<T>| #[trigger] old(self).spec_builder().requires((g,)),
        ensures
            final(self).wf(),
            final(self).spec_chunk_size() == old(self).spec_chunk_size(),
            final(self).spec_builder() == old(self).spec_builder(),
            final(self).cached().contains_key(chunk_pos),
            *r == final(self).cached()[chunk_pos],
            old(self).cached().contains_key(chunk_pos) ==> final(self).cached() == old(self).cached(),
            !old(self).cached().contains_key(chunk_pos) ==> {
                &&& final(self).cached() == old(self).cached().insert(chunk_pos, *r)
                &&& exists|g: Grid<T>|
                    {
                        &&& g.wf()
                        &&& g.spec_origin() == (IVec2 {
                            x: (chunk_pos.x * old(self).spec_chunk_size().x) as i32,
                            y: (chunk_pos.y * old(self).spec_chunk_size().y) as i32,
                        })
                        &&& g.spec_size() == (UVec2 {
                            x: old(self).spec_chunk_size().x as u32,
                            y: old(self).spec_chunk_size().y as u32,
                        })
                        &&& exists|d: T|
                            call_ensures(T::default, (), d) && forall|i: int|
                                0 <= i < g.contents().len() ==> cloned(d, #[trigger] g.contents()[i])
                        &&& old(self).spec_builder().ensures((g,), *r)
                    }
            },
    {
        let mut i: usize = 0;
        while i < self.chunks.len()
            invariant
                self.wf(),
                *self == *old(self),
                i <= self.chunks@.len(),
                forall|k: int| 0 <= k < i ==> self.chunks@[k].0 != chunk_pos,
            decreases self.chunks.len() - i,
        {
            if self.chunks[i].0 == chunk_pos {
                proof {
                    assert(self.cached().contains_key(chunk_pos));
                    let j = choose|j: int| 0 <= j < self.chunks@.len() && self.chunks@[j].0 == chunk_pos;
                    assert(j == i);
                }
                return &self.chunks[i].1;
            }
            i = i + 1;
        }
        let size = UVec2 { x: self.chunk_size.x as u32, y: self.chunk_size.y as u32 };
        let origin = IVec2 { x: chunk_pos.x * self.chunk_size.x, y: chunk_pos.y * self.chunk_size.y };
        let fresh = Grid::new_default(size).with_origin(origin);
        proof {
            assert(old(self).spec_builder().requires((fresh,)));
        }
        let built = (self.builder)(fresh);
        let ghost old_chunks = self.chunks@;
        self.chunks.push((chunk_pos, built));
        let n = self.chunks.len() - 1;
        proof {
            assert(self.cached().contains_key(chunk_pos)) by {
                assert(self.chunks@[n as int].0 == chunk_pos);
            }
            let j = choose|j: int| 0 <= j < self.chunks@.len() && self.chunks@[j].0 == chunk_pos;
            assert(j == n);
            assert(self.cached() =~= old(self).cached().insert(chunk_pos, built)) by {
                assert forall|p: IVec2| #[trigger] self.cached().contains_key(p) <==> old(self).cached().insert(
                    chunk_pos,
                    built,
                ).contains_key(p) by {
                    if old(self).cached().contains_key(p) {
                        let k = choose|k: int| 0 <= k < old_chunks.len() && old_chunks[k].0 == p;
                        assert(self.chunks@[k].0 == p);
                    }
                    if self.cached().contains_key(p) && p != chunk_pos {
                        let k = choose|k: int| 0 <= k < self.chunks@.len() && self.chunks@[k].0 == p;
                        assert(k < old_chunks.len());
                        assert(old_chunks[k].0 == p);
                    }
                }
                assert forall|p: IVec2| #[trigger] self.cached().contains_key(p) && p != chunk_pos implies self.cached()[p]
                    == old(self).cached()[p] by {
                    let k = choose|k: int| 0 <= k < self.chunks@.len() && self.chunks@[k].0 == p;
                    let k2 = choose|k2: int| 0 <= k2 < old_chunks.len() && old_chunks[k2].0 == p;
                    assert(self.chunks@[k2].0 == p);
                    assert(k == k2);
                }
            }
        }
        &self.chunks[n].1
    }
}

} // verus!
