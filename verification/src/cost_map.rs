//! The live cost grid of the whole map.
//!
//! A [`CostMap`] owns the square dense cost grid that the application
//! paints walls into between pathfinding requests; searches and tile
//! computations take their own snapshot of it when they begin.

use crate::field::{CellPos, Field, COORD_LIMIT};
use crate::flowfield::GRID_SIZE;
use vstd::prelude::*;

verus! {

/// The live map: its edge length in cells, how many tile-sized chunks
/// cover one edge, and the cost of every cell (1 free through 254 slow,
/// 255 impassable).
pub struct CostMap {
    pub size: usize,
    pub chunks_on_x: u32,
    pub cost: Field<u8>,
}

#[allow(dead_code)]
struct LocalCoordinate {
    chunk_x: u32,
    chunk_y: u32,
    local_x: u32,
    local_y: u32,
}

impl CostMap {
    /// The grid is square with edge `size` and the chunk count covers it.
    pub open spec fn wf(self) -> bool {
        &&& self.cost.wf()
        &&& self.cost.width == self.size
        &&& self.cost.height == self.size
        &&& self.size <= COORD_LIMIT
        &&& self.size * self.size <= usize::MAX
        &&& self.chunks_on_x as int == (self.size + GRID_SIZE - 1) as int / GRID_SIZE as int
    }

    /// A fresh map with every cell at cost 1.
    pub fn new(size: usize) -> (r: CostMap)
        requires
            size <= COORD_LIMIT,
            size * size <= usize::MAX,
        ensures
            r.wf(),
            r.size == size,
            forall|c: CellPos| r.cost.in_bounds(c) ==> #[trigger] r.cost.at(c) == 1,
    {
        let chunks_on_x = ((size + GRID_SIZE - 1) / GRID_SIZE) as u32;
        CostMap { size, chunks_on_x, cost: Field::new(1, size, size) }
    }

    /// Wipe every edit: every cell back to cost 1.
    pub fn reset(&mut self)
        requires
            old(self).wf(),
        ensures
            final(self).wf(),
            final(self).size == old(self).size,
            final(self).chunks_on_x == old(self).chunks_on_x,
            forall|c: CellPos|
                final(self).cost.in_bounds(c) ==> #[trigger] final(self).cost.at(c) == 1,
    {
        self.cost = Field::new(1, self.size, self.size);
    }

    /// Split a map coordinate into its chunk index and the offset inside
    /// that chunk.
    #[allow(dead_code)]
    fn xy_to_cxcy_lxly(&self, x: u32, y: u32) -> (r: LocalCoordinate)
        requires
            self.chunks_on_x >= 1,
        ensures
            r.chunk_x == x as int / self.chunks_on_x as int,
            r.chunk_y == y as int / self.chunks_on_x as int,
            r.local_x == x as int % self.chunks_on_x as int,
            r.local_y == y as int % self.chunks_on_x as int,
    {
        LocalCoordinate {
            chunk_x: x / self.chunks_on_x,
            chunk_y: y / self.chunks_on_x,
            local_x: x % self.chunks_on_x,
            local_y: y % self.chunks_on_x,
        }
    }
}

} // verus!
