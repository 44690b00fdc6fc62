//! Hierarchical stitcher: a coarse search routed over the whole map drives
//! per-tile field computation with boundary stitching.
//!
//! [`FullPathCompute`] is the outer state machine: it runs the incremental
//! search to completion, maps the coarse path to the sequence of tiles it
//! crosses (with an L-shaped detour replacing each direct diagonal tile
//! transition, and a one-tile halo for stitched continuity), then computes
//! one tile field per step, seeding each new tile's border from its
//! already-computed neighbors (the junction operation), and finally
//! recomputes every tile's direction field with its neighbor tiles
//! supplied, so directions point across tile seams.

use crate::astar::{AStarCompute, SearchResult};
use crate::field::{dist1, CellPos, Field, COORD_LIMIT};
use crate::flowfield::{
    composed_tiles_wf, tile_bounds, FlowField, FlowFieldState, GRID_SIZE, GRID_SIZE_MINUS,
    MAX_INTEGRATION, FLOW_NONE,
};
use vstd::prelude::*;

verus! {

/// Every cell of a cost grid carries a real cost: at least 1, where 255
/// doubles as the impassable marker.
pub open spec fn cost_positive(f: Field<u8>) -> bool {
    forall|m: int| 0 <= m < f.arr@.len() ==> 1 <= #[trigger] f.arr@[m]
}

/// All in-flight computations: flat searches begun by `begin_astar` and
/// hierarchical ones begun by `begin_full_path`.
pub struct PathComputer {
    pub astars: Vec<AStarCompute>,
    pub full_paths: Vec<FullPathCompute>,
}

/// One tile of the decomposition, identified by its column and row in the
/// tile grid. Tiles are spaced one cell less than their size apart, so
/// adjacent tiles share a one-cell border.
#[derive(Copy, Clone, Debug, PartialEq, Eq, Structural)]
pub struct Zone {
    pub zx: usize,
    pub zy: usize,
}

impl Zone {
    /// The tile indices are small enough that every derived cell range
    /// fits the machine integers.
    pub open spec fn zone_ok(self) -> bool {
        self.zx <= COORD_LIMIT && self.zy <= COORD_LIMIT
    }

    /// This tile's slot in the composed tile table.
    pub fn large_cell_pos(&self) -> (r: CellPos)
        ensures
            r.i == self.zx,
            r.j == self.zy,
    {
        CellPos { i: self.zx, j: self.zy }
    }

    /// First map column covered by this tile.
    pub fn min_i(&self) -> (r: usize)
        requires
            self.zone_ok(),
        ensures
            r == self.zx * GRID_SIZE_MINUS,
    {
        proof {
            assert(GRID_SIZE_MINUS == 7);
            assert(self.zx * GRID_SIZE_MINUS <= COORD_LIMIT * 7) by (nonlinear_arith)
                requires
                    self.zx <= COORD_LIMIT,
                    GRID_SIZE_MINUS == 7,
            ;
        }
        self.zx * GRID_SIZE_MINUS
    }

    /// First map row covered by this tile.
    pub fn min_j(&self) -> (r: usize)
        requires
            self.zone_ok(),
        ensures
            r == self.zy * GRID_SIZE_MINUS,
    {
        proof {
            assert(GRID_SIZE_MINUS == 7);
            assert(self.zy * GRID_SIZE_MINUS <= COORD_LIMIT * 7) by (nonlinear_arith)
                requires
                    self.zy <= COORD_LIMIT,
                    GRID_SIZE_MINUS == 7,
            ;
        }
        self.zy * GRID_SIZE_MINUS
    }

    /// Last map column covered by this tile (shared with the tile to its
    /// right).
    pub fn max_i(&self) -> (r: usize)
        requires
            self.zone_ok(),
        ensures
            r == (self.zx + 1) * GRID_SIZE_MINUS,
    {
        proof {
            assert(GRID_SIZE_MINUS == 7);
            assert((self.zx + 1) * GRID_SIZE_MINUS <= (COORD_LIMIT + 1) * 7) by (nonlinear_arith)
                requires
                    (self.zx + 1) <= COORD_LIMIT + 1,
                    GRID_SIZE_MINUS == 7,
            ;
        }
        (self.zx + 1) * GRID_SIZE_MINUS
    }

    /// Last map row covered by this tile (shared with the tile below).
    pub fn max_j(&self) -> (r: usize)
        requires
            self.zone_ok(),
        ensures
            r == (self.zy + 1) * GRID_SIZE_MINUS,
    {
        proof {
            assert(GRID_SIZE_MINUS == 7);
            assert((self.zy + 1) * GRID_SIZE_MINUS <= (COORD_LIMIT + 1) * 7) by (nonlinear_arith)
                requires
                    (self.zy + 1) <= COORD_LIMIT + 1,
                    GRID_SIZE_MINUS == 7,
            ;
        }
        (self.zy + 1) * GRID_SIZE_MINUS
    }
}

/// Two different tiles that touch along an edge or a corner.
pub open spec fn zone_adjacent(a: Zone, b: Zone) -> bool {
    dist1(a.zx as int, b.zx as int) <= 1 && dist1(a.zy as int, b.zy as int) <= 1 && a != b
}

/// Terminal outcome of a hierarchical computation: the sparse table of
/// computed tile fields, one optional slot per zone.
pub struct ComposedResult {
    pub computed: Field<Option<FlowField>>,
}

impl ComposedResult {
    /// The table is a real grid of well-formed tiles.
    pub open spec fn wf(self) -> bool {
        &&& self.computed.wf()
        &&& composed_tiles_wf(self.computed)
        &&& self.computed.width <= COORD_LIMIT
        &&& self.computed.height <= COORD_LIMIT
    }

    /// What `follow` answers for a map cell: the direction code stored at
    /// the cell's slot in its owning tile, decoded to a unit offset, or no
    /// movement where the tile is absent or holds no valid code.
    pub open spec fn spec_follow(self, global: CellPos) -> (int, int) {
        let zx = global.i as int / GRID_SIZE_MINUS as int;
        let zy = global.j as int / GRID_SIZE_MINUS as int;
        if zx < self.computed.width && zy < self.computed.height {
            match self.computed.at(CellPos { i: zx as usize, j: zy as usize }) {
                Some(t) => {
                    let d = t.flow.at(
                        CellPos {
                            i: (global.i as int % GRID_SIZE_MINUS as int) as usize,
                            j: (global.j as int % GRID_SIZE_MINUS as int) as usize,
                        },
                    ) as int;
                    if 0 <= d <= 8 {
                        (d % 3 - 1, d / 3 - 1)
                    } else {
                        (0, 0)
                    }
                },
                None => (0, 0),
            }
        } else {
            (0, 0)
        }
    }

    /// Direction guidance for an agent standing on `global`: locate the
    /// owning tile, read its direction code at the local cell, and decode
    /// it to a per-axis offset in -1..=1. Absent tiles and invalid codes
    /// read as no movement.
    pub fn follow(&self, global: &CellPos) -> (r: (i64, i64))
        requires
            self.wf(),
            global.i <= COORD_LIMIT,
            global.j <= COORD_LIMIT,
        ensures
            (r.0 as int, r.1 as int) == self.spec_follow(*global),
            -1 <= r.0 <= 1,
            -1 <= r.1 <= 1,
    {
        let zx = global.i / GRID_SIZE_MINUS;
        let zy = global.j / GRID_SIZE_MINUS;
        if zx < self.computed.width && zy < self.computed.height {
            let zc = CellPos { i: zx, j: zy };
            match self.computed.get_ref(&zc) {
                Some(tile) => {
                    let local = CellPos { i: global.i % GRID_SIZE_MINUS, j: global.j % GRID_SIZE_MINUS };
                    proof {
                        assert(composed_tiles_wf(self.computed));
                        assert(self.computed.at(zc) matches Some(t) && t.wf());
                        crate::field::lemma_row_major_bounds(
                            GRID_SIZE as int,
                            GRID_SIZE as int,
                            local.i as int,
                            local.j as int,
                        );
                    }
                    let d = tile.flow.get(&local);
                    if 0 <= d && d <= 8 {
                        ((d % 3) as i64 - 1, (d / 3) as i64 - 1)
                    } else {
                        (0, 0)
                    }
                },
                None => (0, 0),
            }
        } else {
            (0, 0)
        }
    }
}

/// A fresh tile table of the given dimensions with every slot empty.
fn new_tile_table(width: usize, height: usize) -> (r: Field<Option<FlowField>>)
    requires
        width * height <= usize::MAX,
    ensures
        r.wf(),
        r.width == width,
        r.height == height,
        forall|c: CellPos| r.in_bounds(c) ==> #[trigger] r.at(c) is None,
        composed_tiles_wf(r),
{
    let total = width * height;
    let mut v: Vec<Option<FlowField>> = Vec::new();
    let mut k: usize = 0;
    while k < total
        invariant
            k <= total,
            v@.len() == k,
            forall|m: int| 0 <= m < k ==> #[trigger] v@[m] is None,
        decreases total - k,
    {
        v.push(None);
        k = k + 1;
    }
    let r = Field { arr: v, width, height };
    proof {
        assert forall|c: CellPos| r.in_bounds(c) implies #[trigger] r.at(c) is None by {
            crate::field::lemma_row_major_bounds(
                width as int,
                height as int,
                c.i as int,
                c.j as int,
            );
        }
    }
    r
}

/// Whether a zone already occurs in a list of zones.
fn zones_contain(zones: &Vec<Zone>, zone: &Zone) -> (r: bool)
    ensures
        r == exists|k: int| 0 <= k < zones@.len() && #[trigger] zones@[k] == *zone,
{
    let mut k: usize = 0;
    while k < zones.len()
        invariant
            k <= zones@.len(),
            forall|m: int| 0 <= m < k ==> #[trigger] zones@[m] != *zone,
        decreases zones@.len() - k,
    {
        if zones[k].zx == zone.zx && zones[k].zy == zone.zy {
            proof {
                assert(zones@[k as int] == *zone);
            }
            return true;
        }
        k = k + 1;
    }
    false
}

/// Every zone in the list addresses a slot of a `zw` by `zh` tile table.
pub open spec fn zones_in(s: Seq<Zone>, zw: usize, zh: usize) -> bool {
    forall|k: int| 0 <= k < s.len() ==> (#[trigger] s[k]).zx < zw && s[k].zy < zh
}

/// Dimensions small enough that the tile table over this grid fits memory.
pub open spec fn full_dims_ok(cost: Field<u8>) -> bool {
    cost.width <= 0xFFFF && cost.height <= 0xFFFF
}

/// Map cell `(gi, gj)` lies inside zone `z`'s 8-by-8 tile window.
pub open spec fn in_zone_range(z: Zone, gi: int, gj: int) -> bool {
    &&& z.zx * GRID_SIZE_MINUS <= gi <= z.zx * GRID_SIZE_MINUS + GRID_SIZE_MINUS
    &&& z.zy * GRID_SIZE_MINUS <= gj <= z.zy * GRID_SIZE_MINUS + GRID_SIZE_MINUS
}

/// Cell `c` of the tile being seeded holds, right now, the integration
/// value that some adjacent present tile stores for the same map cell.
pub open spec fn junction_matched(
    computed: Field<Option<FlowField>>,
    next_zone: Zone,
    cur: FlowField,
    c: CellPos,
) -> bool {
    &&& tile_bounds(c)
    &&& exists|z: Zone, q: CellPos|
        #![trigger zone_adjacent(z, next_zone), tile_bounds(q)]
        {
            &&& zone_adjacent(z, next_zone)
            &&& z.zx < computed.width
            &&& z.zy < computed.height
            &&& tile_bounds(q)
            &&& match computed.at(CellPos { i: z.zx, j: z.zy }) {
                Some(t) => t.integration.at(q) == cur.integration.at(c),
                None => false,
            }
            &&& z.zx * GRID_SIZE_MINUS + q.i == next_zone.zx * GRID_SIZE_MINUS + c.i
            &&& z.zy * GRID_SIZE_MINUS + q.j == next_zone.zy * GRID_SIZE_MINUS + c.j
        }
}

/// Every cell of `cur` that differs from `pre` was copied from the
/// matching border cell (same map cell, by the overlapping tile layout) of
/// an adjacent tile already present in the composed table.
pub open spec fn junction_sourced(
    computed: Field<Option<FlowField>>,
    next_zone: Zone,
    pre: FlowField,
    cur: FlowField,
) -> bool {
    forall|c: CellPos|
        tile_bounds(c) && #[trigger] cur.integration.at(c) != pre.integration.at(c) ==> exists|
            z: Zone,
            q: CellPos,
        |
            #![trigger zone_adjacent(z, next_zone), tile_bounds(q)]
            {
                &&& zone_adjacent(z, next_zone)
                &&& z.zx < computed.width
                &&& z.zy < computed.height
                &&& tile_bounds(q)
                &&& match computed.at(CellPos { i: z.zx, j: z.zy }) {
                    Some(t) => t.integration.at(q) == cur.integration.at(c),
                    None => false,
                }
                &&& z.zx * GRID_SIZE_MINUS + q.i == next_zone.zx * GRID_SIZE_MINUS + c.i
                &&& z.zy * GRID_SIZE_MINUS + q.j == next_zone.zy * GRID_SIZE_MINUS + c.j
            }
}

/// The hierarchical computation: run the coarse search to completion, map
/// its path to the tiles crossed, compute one tile field per step with
/// junction seeding, then derive every tile's direction field with its
/// neighbors supplied. *FlowFieldComputed* is terminal and idempotent.
pub enum FullPathCompute {
    Astar(AStarCompute),
    AstarDoneFieldFinding { astar: SearchResult },
    ComputingFlowFields {
        astar: SearchResult,
        zone_to_visit: Vec<Zone>,
        computing_zone: Zone,
        computed: Field<Option<FlowField>>,
    },
    FlowFieldComputed(ComposedResult),
}

impl FullPathCompute {
    /// Well-formedness of the whole state machine.
    pub open spec fn wf(self) -> bool {
        match self {
            FullPathCompute::Astar(a) => {
                &&& a.wf()
                &&& a.search_inv()
                &&& !(a is Unreachable)
                &&& cost_positive(a.spec_cost())
                &&& full_dims_ok(a.spec_cost())
            },
            FullPathCompute::AstarDoneFieldFinding { astar } => {
                &&& astar.wf()
                &&& cost_positive(astar.cost)
                &&& full_dims_ok(astar.cost)
            },
            FullPathCompute::ComputingFlowFields { astar, zone_to_visit, computing_zone, computed } => {
                &&& astar.wf()
                &&& cost_positive(astar.cost)
                &&& full_dims_ok(astar.cost)
                &&& computed.wf()
                &&& composed_tiles_wf(computed)
                &&& computed.width == astar.cost.width / GRID_SIZE_MINUS + 1
                &&& computed.height == astar.cost.height / GRID_SIZE_MINUS + 1
                &&& computed.width <= COORD_LIMIT
                &&& computed.height <= COORD_LIMIT
                &&& computing_zone.zx < computed.width
                &&& computing_zone.zy < computed.height
                &&& match computed.at(CellPos { i: computing_zone.zx, j: computing_zone.zy }) {
                    Some(t) => (t.state is Ready ==> t.to_visit@.len() == 0) && (
                    t.state is ComputingFlow ==> t.to_visit@.len() == 0),
                    None => false,
                }
                &&& forall|c: CellPos|
                    computed.in_bounds(c) && c != (CellPos {
                        i: computing_zone.zx,
                        j: computing_zone.zy,
                    }) ==> match #[trigger] computed.at(c) {
                        Some(t) => t.state is Ready && t.to_visit@.len() == 0,
                        None => true,
                    }
                &&& zones_in(zone_to_visit@, computed.width, computed.height)
            },
            FullPathCompute::FlowFieldComputed(r) => r.wf(),
        }
    }

    /// Coarse rank of the outer state machine: drops at every phase
    /// transition.
    pub open spec fn stage_rank(self) -> int {
        match self {
            FullPathCompute::Astar(..) => 3,
            FullPathCompute::AstarDoneFieldFinding { .. } => 2,
            FullPathCompute::ComputingFlowFields { .. } => 1,
            FullPathCompute::FlowFieldComputed(..) => 0,
        }
    }

    /// Remaining work of the inner coarse search, 0 outside that phase.
    pub open spec fn search_measure(self) -> int {
        match self {
            FullPathCompute::Astar(a) => a.measure(),
            _ => 0,
        }
    }

    /// Tiles still queued for computation, 0 outside that phase.
    pub open spec fn queue_len(self) -> int {
        match self {
            FullPathCompute::ComputingFlowFields { zone_to_visit, .. } => zone_to_visit@.len() as int,
            _ => 0,
        }
    }

    /// Phase rank of the tile currently being computed, 0 outside that
    /// phase.
    pub open spec fn tile_rank(self) -> int {
        match self {
            FullPathCompute::ComputingFlowFields { computing_zone, computed, .. } => match computed.at(
                CellPos { i: computing_zone.zx, j: computing_zone.zy },
            ) {
                Some(t) => crate::flowfield::phase_rank(t.state),
                None => 0,
            },
            _ => 0,
        }
    }

    /// Remaining relaxation work of the tile currently being computed, 0
    /// outside that phase.
    pub open spec fn tile_relax(self) -> int {
        match self {
            FullPathCompute::ComputingFlowFields { computing_zone, computed, .. } => match computed.at(
                CellPos { i: computing_zone.zx, j: computing_zone.zy },
            ) {
                Some(t) => t.relax_measure(),
                None => 0,
            },
            _ => 0,
        }
    }

    /// The window of the global cost grid covered by `zone`, remapped to
    /// tile-local coordinates; cells beyond the map edge are filled with the
    /// wall cost 255.
    fn zone_global_cost_to_local_cost(zone: &Zone, global_cost: &Field<u8>) -> (r: Field<u8>)
        requires
            global_cost.wf(),
            cost_positive(*global_cost),
            zone.zone_ok(),
        ensures
            r.wf(),
            r.width == GRID_SIZE,
            r.height == GRID_SIZE,
            cost_positive(r),
            forall|c: CellPos|
                tile_bounds(c) ==> #[trigger] r.at(c) == (if zone.zx * GRID_SIZE_MINUS + c.i
                    < global_cost.width && zone.zy * GRID_SIZE_MINUS + c.j < global_cost.height {
                    global_cost.at(
                        CellPos {
                            i: (zone.zx * GRID_SIZE_MINUS + c.i) as usize,
                            j: (zone.zy * GRID_SIZE_MINUS + c.j) as usize,
                        },
                    )
                } else {
                    255u8
                }),
    {
        let min_i = zone.min_i();
        let min_j = zone.min_j();
        let mut computing_field: Field<u8> = Field::new(255, GRID_SIZE, GRID_SIZE);
        let mut li: usize = 0;
        while li < GRID_SIZE
            invariant
                global_cost.wf(),
                cost_positive(*global_cost),
                min_i == zone.zx * GRID_SIZE_MINUS,
                min_j == zone.zy * GRID_SIZE_MINUS,
                min_i + GRID_SIZE <= usize::MAX,
                min_j + GRID_SIZE <= usize::MAX,
                li <= GRID_SIZE,
                computing_field.wf(),
                computing_field.width == GRID_SIZE,
                computing_field.height == GRID_SIZE,
                cost_positive(computing_field),
                forall|c: CellPos|
                    tile_bounds(c) && (c.i < li) ==> #[trigger] computing_field.at(c) == (if min_i
                        + c.i < global_cost.width && min_j + c.j < global_cost.height {
                        global_cost.at(
                            CellPos { i: (min_i + c.i) as usize, j: (min_j + c.j) as usize },
                        )
                    } else {
                        255u8
                    }),
                forall|c: CellPos|
                    tile_bounds(c) && (c.i >= li) ==> #[trigger] computing_field.at(c) == 255u8,
            decreases GRID_SIZE - li,
        {
            let mut lj: usize = 0;
            while lj < GRID_SIZE
                invariant
                    global_cost.wf(),
                    cost_positive(*global_cost),
                    min_i == zone.zx * GRID_SIZE_MINUS,
                    min_j == zone.zy * GRID_SIZE_MINUS,
                    min_i + GRID_SIZE <= usize::MAX,
                    min_j + GRID_SIZE <= usize::MAX,
                    li < GRID_SIZE,
                    lj <= GRID_SIZE,
                    computing_field.wf(),
                    computing_field.width == GRID_SIZE,
                    computing_field.height == GRID_SIZE,
                    cost_positive(computing_field),
                    forall|c: CellPos|
                        tile_bounds(c) && (c.i < li || (c.i == li && c.j < lj))
                            ==> #[trigger] computing_field.at(c) == (if min_i + c.i < global_cost.width
                            && min_j + c.j < global_cost.height {
                            global_cost.at(
                                CellPos { i: (min_i + c.i) as usize, j: (min_j + c.j) as usize },
                            )
                        } else {
                            255u8
                        }),
                    forall|c: CellPos|
                        tile_bounds(c) && (c.i > li || (c.i == li && c.j >= lj))
                            ==> #[trigger] computing_field.at(c) == 255u8,
                decreases GRID_SIZE - lj,
            {
                let gi = min_i + li;
                let gj = min_j + lj;
                if gi < global_cost.width && gj < global_cost.height {
                    let gpos = CellPos { i: gi, j: gj };
                    proof {
                        crate::field::lemma_row_major_bounds(
                            global_cost.width as int,
                            global_cost.height as int,
                            gi as int,
                            gj as int,
                        );
                    }
                    let v = global_cost.get(&gpos);
                    proof {
                        assert(1 <= v);
                    }
                    computing_field.set(&CellPos { i: li, j: lj }, v);
                }
                lj = lj + 1;
            }
            li = li + 1;
        }
        computing_field
    }

    /// Copy one border cell of an already-computed neighbor tile into the
    /// tile being seeded, and queue it for relaxation.
    fn junction_copy(
        next: &mut FlowField,
        last_ff: &FlowField,
        local_last: CellPos,
        local_next: CellPos,
        Ghost(computed): Ghost<Field<Option<FlowField>>>,
        Ghost(last_zone): Ghost<Zone>,
        Ghost(next_zone): Ghost<Zone>,
        Ghost(pre0): Ghost<FlowField>,
    )
        requires
            old(next).wf(),
            last_ff.wf(),
            tile_bounds(local_last),
            tile_bounds(local_next),
            junction_sourced(computed, next_zone, pre0, *old(next)),
            old(next).cost == pre0.cost,
            zone_adjacent(last_zone, next_zone),
            last_zone.zx < computed.width,
            last_zone.zy < computed.height,
            computed.at(CellPos { i: last_zone.zx, j: last_zone.zy }) matches Some(t) && t
                == *last_ff,
            last_zone.zx * GRID_SIZE_MINUS + local_last.i == next_zone.zx * GRID_SIZE_MINUS
                + local_next.i,
            last_zone.zy * GRID_SIZE_MINUS + local_last.j == next_zone.zy * GRID_SIZE_MINUS
                + local_next.j,
        ensures
            final(next).wf(),
            final(next).cost == old(next).cost,
            final(next).flow == old(next).flow,
            final(next).objective == old(next).objective,
            final(next).skip_flow == old(next).skip_flow,
            final(next).state is ComputingIntegration,
            junction_sourced(computed, next_zone, pre0, *final(next)),
            junction_matched(computed, next_zone, *final(next), local_next),
            final(next).to_visit@.contains(local_next),
            forall|c: CellPos|
                #[trigger] junction_matched(computed, next_zone, *old(next), c)
                    ==> junction_matched(computed, next_zone, *final(next), c),
            forall|c: CellPos|
                old(next).to_visit@.contains(c) ==> #[trigger] final(next).to_visit@.contains(c),
    {
        proof {
            crate::field::lemma_row_major_bounds(
                GRID_SIZE as int,
                GRID_SIZE as int,
                local_last.i as int,
                local_last.j as int,
            );
            crate::field::lemma_row_major_bounds(
                GRID_SIZE as int,
                GRID_SIZE as int,
                local_next.i as int,
                local_next.j as int,
            );
        }
        let ghost pre = *next;
        let v = last_ff.integration.get(&local_last);
        next.integration.set(&local_next, v);
        next.to_visit.push(local_next);
        next.state = FlowFieldState::ComputingIntegration;
        proof {
            assert(next.to_visit@.last() == local_next);
            assert(next.to_visit@.contains(local_next));
            assert forall|c: CellPos|
                pre.to_visit@.contains(c) implies #[trigger] next.to_visit@.contains(c) by {
                let k0 = choose|k: int| 0 <= k < pre.to_visit@.len() && pre.to_visit@[k] == c;
                assert(next.to_visit@[k0] == c);
            }
            assert(next.integration.at(local_next) == v);
            assert(junction_matched(computed, next_zone, *next, local_next));
            assert forall|c: CellPos|
                #[trigger] junction_matched(computed, next_zone, pre, c) implies junction_matched(
                    computed,
                    next_zone,
                    *next,
                    c,
                ) by {
                if c != local_next {
                    assert(next.integration.at(c) == pre.integration.at(c));
                    let (z0, q0) = choose|z: Zone, q: CellPos|
                        #![trigger zone_adjacent(z, next_zone), tile_bounds(q)]
                        {
                            &&& zone_adjacent(z, next_zone)
                            &&& z.zx < computed.width
                            &&& z.zy < computed.height
                            &&& tile_bounds(q)
                            &&& match computed.at(CellPos { i: z.zx, j: z.zy }) {
                                Some(t) => t.integration.at(q) == pre.integration.at(c),
                                None => false,
                            }
                            &&& z.zx * GRID_SIZE_MINUS + q.i == next_zone.zx * GRID_SIZE_MINUS
                                + c.i
                            &&& z.zy * GRID_SIZE_MINUS + q.j == next_zone.zy * GRID_SIZE_MINUS
                                + c.j
                        };
                    assert(zone_adjacent(z0, next_zone) && tile_bounds(q0));
                }
            }
            assert forall|c: CellPos|
                tile_bounds(c) && #[trigger] next.integration.at(c) != pre0.integration.at(
                    c,
                ) implies exists|z: Zone, q: CellPos|
                #![trigger zone_adjacent(z, next_zone), tile_bounds(q)]
                {
                    &&& zone_adjacent(z, next_zone)
                    &&& z.zx < computed.width
                    &&& z.zy < computed.height
                    &&& tile_bounds(q)
                    &&& match computed.at(CellPos { i: z.zx, j: z.zy }) {
                        Some(t) => t.integration.at(q) == next.integration.at(c),
                        None => false,
                    }
                    &&& z.zx * GRID_SIZE_MINUS + q.i == next_zone.zx * GRID_SIZE_MINUS + c.i
                    &&& z.zy * GRID_SIZE_MINUS + q.j == next_zone.zy * GRID_SIZE_MINUS + c.j
                } by {
                if c == local_next {
                    assert(zone_adjacent(last_zone, next_zone));
                    assert(next.integration.at(c) == v);
                    assert({
                        &&& zone_adjacent(last_zone, next_zone)
                        &&& last_zone.zx < computed.width
                        &&& last_zone.zy < computed.height
                        &&& tile_bounds(local_last)
                        &&& match computed.at(CellPos { i: last_zone.zx, j: last_zone.zy }) {
                            Some(t) => t.integration.at(local_last) == next.integration.at(c),
                            None => false,
                        }
                        &&& last_zone.zx * GRID_SIZE_MINUS + local_last.i == next_zone.zx
                            * GRID_SIZE_MINUS + c.i
                        &&& last_zone.zy * GRID_SIZE_MINUS + local_last.j == next_zone.zy
                            * GRID_SIZE_MINUS + c.j
                    });
                } else {
                    assert(next.integration.at(c) == pre.integration.at(c));
                }
            }
        }
    }


    /// Copy one whole shared column from an adjacent computed tile on the
    /// same tile row: afterwards every cell of column `next_i` holds a
    /// present neighbor's value for its map cell and sits on the frontier.
    #[verifier::rlimit(100)]
    #[verifier::spinoff_prover]
    fn junction_copy_column(
        next: &mut FlowField,
        last_ff: &FlowField,
        last_i: usize,
        next_i: usize,
        Ghost(computed): Ghost<Field<Option<FlowField>>>,
        Ghost(last_zone): Ghost<Zone>,
        Ghost(next_zone): Ghost<Zone>,
        Ghost(pre0): Ghost<FlowField>,
    )
        requires
            old(next).wf(),
            last_ff.wf(),
            last_i < GRID_SIZE,
            next_i < GRID_SIZE,
            junction_sourced(computed, next_zone, pre0, *old(next)),
            old(next).cost == pre0.cost,
            zone_adjacent(last_zone, next_zone),
            last_zone.zx < computed.width,
            last_zone.zy < computed.height,
            computed.at(CellPos { i: last_zone.zx, j: last_zone.zy }) matches Some(t) && t
                == *last_ff,
            last_zone.zx * GRID_SIZE_MINUS + last_i == next_zone.zx * GRID_SIZE_MINUS + next_i,
            last_zone.zy == next_zone.zy,
        ensures
            final(next).wf(),
            final(next).cost == old(next).cost,
            final(next).flow == old(next).flow,
            final(next).objective == old(next).objective,
            final(next).skip_flow == old(next).skip_flow,
            final(next).state is ComputingIntegration,
            junction_sourced(computed, next_zone, pre0, *final(next)),
            forall|c: CellPos|
                tile_bounds(c) && c.i == next_i ==> #[trigger] junction_matched(
                    computed,
                    next_zone,
                    *final(next),
                    c,
                ) && final(next).to_visit@.contains(c),
            forall|c: CellPos|
                #[trigger] junction_matched(computed, next_zone, *old(next), c)
                    ==> junction_matched(computed, next_zone, *final(next), c),
            forall|c: CellPos|
                old(next).to_visit@.contains(c) ==> #[trigger] final(next).to_visit@.contains(c),
    {
        let mut t: usize = 0;
        while t < GRID_SIZE
            invariant
                next.wf(),
                last_ff.wf(),
                last_i < GRID_SIZE,
                next_i < GRID_SIZE,
                next.cost == old(next).cost,
                next.flow == old(next).flow,
                next.objective == old(next).objective,
                next.skip_flow == old(next).skip_flow,
                t == 0 || next.state is ComputingIntegration,
                t <= GRID_SIZE,
                junction_sourced(computed, next_zone, pre0, *next),
                next.cost == pre0.cost,
                zone_adjacent(last_zone, next_zone),
                last_zone.zx < computed.width,
                last_zone.zy < computed.height,
                computed.at(CellPos { i: last_zone.zx, j: last_zone.zy }) matches Some(ff) && ff
                    == *last_ff,
                last_zone.zx * GRID_SIZE_MINUS + last_i == next_zone.zx * GRID_SIZE_MINUS + next_i,
                last_zone.zy == next_zone.zy,
                forall|tt: int|
                    0 <= tt < t ==> #[trigger] junction_matched(
                        computed,
                        next_zone,
                        *next,
                        CellPos { i: next_i, j: tt as usize },
                    ) && next.to_visit@.contains(CellPos { i: next_i, j: tt as usize }),
                forall|c: CellPos|
                    #[trigger] junction_matched(computed, next_zone, *old(next), c)
                        ==> junction_matched(computed, next_zone, *next, c),
                forall|c: CellPos|
                    old(next).to_visit@.contains(c) ==> #[trigger] next.to_visit@.contains(c),
            decreases GRID_SIZE - t,
        {
            let ghost pre_copy = *next;
            Self::junction_copy(
                next,
                last_ff,
                CellPos { i: last_i, j: t },
                CellPos { i: next_i, j: t },
                Ghost(computed),
                Ghost(last_zone),
                Ghost(next_zone),
                Ghost(pre0),
            );
            proof {
                assert forall|tt: int| 0 <= tt < t + 1 implies #[trigger] junction_matched(
                    computed,
                    next_zone,
                    *next,
                    CellPos { i: next_i, j: tt as usize },
                ) && next.to_visit@.contains(CellPos { i: next_i, j: tt as usize }) by {
                    if tt < t {
                        assert(junction_matched(computed, next_zone, pre_copy, CellPos { i: next_i, j: tt as usize }));
                    } else {
                        assert(CellPos { i: next_i, j: tt as usize } == CellPos { i: next_i, j: t });
                        assert(junction_matched(computed, next_zone, *next, CellPos { i: next_i, j: t }));
                        assert(next.to_visit@.contains(CellPos { i: next_i, j: t }));
                    }
                }
                assert forall|c: CellPos|
                    #[trigger] junction_matched(computed, next_zone, *old(next), c) implies junction_matched(
                    computed,
                    next_zone,
                    *next,
                    c,
                ) by {
                    assert(junction_matched(computed, next_zone, pre_copy, c));
                }
                assert forall|c: CellPos|
                    old(next).to_visit@.contains(c) implies #[trigger] next.to_visit@.contains(
                    c,
                ) by {
                    assert(pre_copy.to_visit@.contains(c));
                }
            }
            t = t + 1;
        }
        proof {
            assert forall|c: CellPos|
                tile_bounds(c) && c.i == next_i implies #[trigger] junction_matched(
                computed,
                next_zone,
                *next,
                c,
            ) && next.to_visit@.contains(c) by {
                let tt0: int = c.j as int;
                assert(0 <= tt0 < 8 && tt0 as usize == c.j);
                assert(junction_matched(computed, next_zone, *next, CellPos { i: next_i, j: tt0 as usize }));
                assert(next.to_visit@.contains(CellPos { i: next_i, j: tt0 as usize }));
            }
        }
    }

    /// Copy one whole shared row from an adjacent computed tile in the
    /// same tile column, the row counterpart of `junction_copy_column`.
    #[verifier::rlimit(100)]
    #[verifier::spinoff_prover]
    fn junction_copy_row(
        next: &mut FlowField,
        last_ff: &FlowField,
        last_j: usize,
        next_j: usize,
        Ghost(computed): Ghost<Field<Option<FlowField>>>,
        Ghost(last_zone): Ghost<Zone>,
        Ghost(next_zone): Ghost<Zone>,
        Ghost(pre0): Ghost<FlowField>,
    )
        requires
            old(next).wf(),
            last_ff.wf(),
            last_j < GRID_SIZE,
            next_j < GRID_SIZE,
            junction_sourced(computed, next_zone, pre0, *old(next)),
            old(next).cost == pre0.cost,
            zone_adjacent(last_zone, next_zone),
            last_zone.zx < computed.width,
            last_zone.zy < computed.height,
            computed.at(CellPos { i: last_zone.zx, j: last_zone.zy }) matches Some(t) && t
                == *last_ff,
            last_zone.zy * GRID_SIZE_MINUS + last_j == next_zone.zy * GRID_SIZE_MINUS + next_j,
            last_zone.zx == next_zone.zx,
        ensures
            final(next).wf(),
            final(next).cost == old(next).cost,
            final(next).flow == old(next).flow,
            final(next).objective == old(next).objective,
            final(next).skip_flow == old(next).skip_flow,
            final(next).state is ComputingIntegration,
            junction_sourced(computed, next_zone, pre0, *final(next)),
            forall|c: CellPos|
                tile_bounds(c) && c.j == next_j ==> #[trigger] junction_matched(
                    computed,
                    next_zone,
                    *final(next),
                    c,
                ) && final(next).to_visit@.contains(c),
            forall|c: CellPos|
                #[trigger] junction_matched(computed, next_zone, *old(next), c)
                    ==> junction_matched(computed, next_zone, *final(next), c),
            forall|c: CellPos|
                old(next).to_visit@.contains(c) ==> #[trigger] final(next).to_visit@.contains(c),
    {
        let mut t: usize = 0;
        while t < GRID_SIZE
            invariant
                next.wf(),
                last_ff.wf(),
                last_j < GRID_SIZE,
                next_j < GRID_SIZE,
                next.cost == old(next).cost,
                next.flow == old(next).flow,
                next.objective == old(next).objective,
                next.skip_flow == old(next).skip_flow,
                t == 0 || next.state is ComputingIntegration,
                t <= GRID_SIZE,
                junction_sourced(computed, next_zone, pre0, *next),
                next.cost == pre0.cost,
                zone_adjacent(last_zone, next_zone),
                last_zone.zx < computed.width,
                last_zone.zy < computed.height,
                computed.at(CellPos { i: last_zone.zx, j: last_zone.zy }) matches Some(ff) && ff
                    == *last_ff,
                last_zone.zy * GRID_SIZE_MINUS + last_j == next_zone.zy * GRID_SIZE_MINUS + next_j,
                last_zone.zx == next_zone.zx,
                forall|tt: int|
                    0 <= tt < t ==> #[trigger] junction_matched(
                        computed,
                        next_zone,
                        *next,
                        CellPos { i: tt as usize, j: next_j },
                    ) && next.to_visit@.contains(CellPos { i: tt as usize, j: next_j }),
                forall|c: CellPos|
                    #[trigger] junction_matched(computed, next_zone, *old(next), c)
                        ==> junction_matched(computed, next_zone, *next, c),
                forall|c: CellPos|
                    old(next).to_visit@.contains(c) ==> #[trigger] next.to_visit@.contains(c),
            decreases GRID_SIZE - t,
        {
            let ghost pre_copy = *next;
            Self::junction_copy(
                next,
                last_ff,
                CellPos { i: t, j: last_j },
                CellPos { i: t, j: next_j },
                Ghost(computed),
                Ghost(last_zone),
                Ghost(next_zone),
                Ghost(pre0),
            );
            proof {
                assert forall|tt: int| 0 <= tt < t + 1 implies #[trigger] junction_matched(
                    computed,
                    next_zone,
                    *next,
                    CellPos { i: tt as usize, j: next_j },
                ) && next.to_visit@.contains(CellPos { i: tt as usize, j: next_j }) by {
                    if tt < t {
                        assert(junction_matched(computed, next_zone, pre_copy, CellPos { i: tt as usize, j: next_j }));
                    } else {
                        assert(CellPos { i: tt as usize, j: next_j } == CellPos { i: t, j: next_j });
                        assert(junction_matched(computed, next_zone, *next, CellPos { i: t, j: next_j }));
                        assert(next.to_visit@.contains(CellPos { i: t, j: next_j }));
                    }
                }
                assert forall|c: CellPos|
                    #[trigger] junction_matched(computed, next_zone, *old(next), c) implies junction_matched(
                    computed,
                    next_zone,
                    *next,
                    c,
                ) by {
                    assert(junction_matched(computed, next_zone, pre_copy, c));
                }
                assert forall|c: CellPos|
                    old(next).to_visit@.contains(c) implies #[trigger] next.to_visit@.contains(
                    c,
                ) by {
                    assert(pre_copy.to_visit@.contains(c));
                }
            }
            t = t + 1;
        }
        proof {
            assert forall|c: CellPos|
                tile_bounds(c) && c.j == next_j implies #[trigger] junction_matched(
                computed,
                next_zone,
                *next,
                c,
            ) && next.to_visit@.contains(c) by {
                let tt0: int = c.i as int;
                assert(0 <= tt0 < 8 && tt0 as usize == c.i);
                assert(junction_matched(computed, next_zone, *next, CellPos { i: tt0 as usize, j: next_j }));
                assert(next.to_visit@.contains(CellPos { i: tt0 as usize, j: next_j }));
            }
        }
    }

    /// The junction operation: for each adjacent tile already present in
    /// the composed table, copy its integration values along the shared
    /// border into the matching border cells of `next` and seed them into
    /// `next`'s frontier, so the stitched field is continuous across the
    /// seam. Every changed cell holds the value of the same map cell in
    /// some computed neighbor, and every shared border cell with a present
    /// neighbor is copied and queued.
    #[verifier::rlimit(100)]
    #[verifier::spinoff_prover]
    fn compute_junction(
        computed: &Field<Option<FlowField>>,
        next_zone: &Zone,
        next: &mut FlowField,
    )
        requires
            computed.wf(),
            composed_tiles_wf(*computed),
            old(next).wf(),
            next_zone.zx < computed.width,
            next_zone.zy < computed.height,
            computed.width <= COORD_LIMIT,
            computed.height <= COORD_LIMIT,
        ensures
            final(next).wf(),
            final(next).cost == old(next).cost,
            final(next).flow == old(next).flow,
            final(next).objective == old(next).objective,
            final(next).skip_flow == old(next).skip_flow,
            final(next).state == old(next).state || final(next).state is ComputingIntegration,
            final(next).state is ComputingIntegration || final(next).to_visit == old(
                next,
            ).to_visit,
            junction_sourced(*computed, *next_zone, *old(next), *final(next)),
            forall|z: Zone, c: CellPos|
                zone_adjacent(z, *next_zone) && z.zx < computed.width && z.zy < computed.height
                    && #[trigger] computed.at(CellPos { i: z.zx, j: z.zy }) is Some
                    && #[trigger] tile_bounds(c) && in_zone_range(
                    z,
                    next_zone.zx * GRID_SIZE_MINUS + c.i,
                    next_zone.zy * GRID_SIZE_MINUS + c.j,
                ) ==> junction_matched(*computed, *next_zone, *final(next), c) && final(next).to_visit@.contains(c),
    {
        let ghost pre0 = *next;
        let mut dzi: usize = 0;
        while dzi < 3
            invariant
                computed.wf(),
                composed_tiles_wf(*computed),
                next.wf(),
                next.cost == pre0.cost,
                next.flow == pre0.flow,
                next.objective == pre0.objective,
                next.skip_flow == pre0.skip_flow,
                next.state == pre0.state || next.state is ComputingIntegration,
                next.state is ComputingIntegration || next.to_visit == pre0.to_visit,
                next_zone.zx < computed.width,
                next_zone.zy < computed.height,
                computed.width <= COORD_LIMIT,
                computed.height <= COORD_LIMIT,
                dzi <= 3,
                junction_sourced(*computed, *next_zone, pre0, *next),
                forall|z: Zone, c: CellPos|
                    zone_adjacent(z, *next_zone) && z.zx < computed.width && z.zy
                        < computed.height && #[trigger] computed.at(
                        CellPos { i: z.zx, j: z.zy },
                    ) is Some && #[trigger] tile_bounds(c) && in_zone_range(
                        z,
                        next_zone.zx * GRID_SIZE_MINUS + c.i,
                        next_zone.zy * GRID_SIZE_MINUS + c.j,
                    ) && z.zx + 1 < next_zone.zx + dzi ==> junction_matched(
                        *computed,
                        *next_zone,
                        *next,
                        c,
                    ) && next.to_visit@.contains(c),
            decreases 3 - dzi,
        {
            let mut dzj: usize = 0;
            while dzj < 3
                invariant
                    computed.wf(),
                    composed_tiles_wf(*computed),
                    next.wf(),
                    next.cost == pre0.cost,
                    next.flow == pre0.flow,
                    next.objective == pre0.objective,
                    next.skip_flow == pre0.skip_flow,
                    next.state == pre0.state || next.state is ComputingIntegration,
                    next.state is ComputingIntegration || next.to_visit == pre0.to_visit,
                    next_zone.zx < computed.width,
                    next_zone.zy < computed.height,
                    computed.width <= COORD_LIMIT,
                    computed.height <= COORD_LIMIT,
                    dzi < 3,
                    dzj <= 3,
                    junction_sourced(*computed, *next_zone, pre0, *next),
                    forall|z: Zone, c: CellPos|
                        zone_adjacent(z, *next_zone) && z.zx < computed.width && z.zy
                            < computed.height && #[trigger] computed.at(
                            CellPos { i: z.zx, j: z.zy },
                        ) is Some && #[trigger] tile_bounds(c) && in_zone_range(
                            z,
                            next_zone.zx * GRID_SIZE_MINUS + c.i,
                            next_zone.zy * GRID_SIZE_MINUS + c.j,
                        ) && (z.zx + 1 < next_zone.zx + dzi || (z.zx + 1 == next_zone.zx + dzi
                            && z.zy + 1 < next_zone.zy + dzj)) ==> junction_matched(
                            *computed,
                            *next_zone,
                            *next,
                            c,
                        ) && next.to_visit@.contains(c),
                decreases 3 - dzj,
            {
                if dzi == 1 && dzj == 1 {
                    dzj = dzj + 1;
                    continue ;
                }
                let zx_plus = next_zone.zx + dzi;
                let zy_plus = next_zone.zy + dzj;
                if zx_plus >= 1 && zx_plus - 1 < computed.width && zy_plus >= 1 && zy_plus - 1
                    < computed.height {
                    let last_zone = Zone { zx: zx_plus - 1, zy: zy_plus - 1 };
                    let zc = CellPos { i: last_zone.zx, j: last_zone.zy };
                    match computed.get_ref(&zc) {
                        Some(last_ff) => {
                            proof {
                                assert(computed.at(zc) matches Some(t) && t.wf());
                                assert(zone_adjacent(last_zone, *next_zone));
                            }
                            if dzi == 0 && dzj == 1 {
                                // neighbor to the left: its last column is this
                                // tile's first column
                                Self::junction_copy_column(
                                    next,
                                    last_ff,
                                    GRID_SIZE_MINUS,
                                    0,
                                    Ghost(*computed),
                                    Ghost(last_zone),
                                    Ghost(*next_zone),
                                    Ghost(pre0),
                                );
                                proof {
                                    assert forall|z: Zone, c: CellPos|
                                        zone_adjacent(z, *next_zone) && z.zx < computed.width
                                            && z.zy < computed.height && #[trigger] computed.at(
                                            CellPos { i: z.zx, j: z.zy },
                                        ) is Some && #[trigger] tile_bounds(c) && in_zone_range(
                                            z,
                                            next_zone.zx * GRID_SIZE_MINUS + c.i,
                                            next_zone.zy * GRID_SIZE_MINUS + c.j,
                                        ) && z.zx + 1 == next_zone.zx + dzi && z.zy + 1
                                            == next_zone.zy + dzj implies junction_matched(
                                        *computed,
                                        *next_zone,
                                        *next,
                                        c,
                                    ) && next.to_visit@.contains(c) by {
                                        assert(z == last_zone);
                                        assert(c.i == 0);
                                        assert(c == CellPos { i: 0, j: c.j });
                                        assert(junction_matched(
                                            *computed,
                                            *next_zone,
                                            *next,
                                            CellPos { i: 0, j: c.j },
                                        ));
                                        assert(next.to_visit@.contains(CellPos { i: 0, j: c.j }));
                                    }
                                }
                            } else if dzi == 2 && dzj == 1 {
                                // neighbor to the right: its first column is
                                // this tile's last column
                                Self::junction_copy_column(
                                    next,
                                    last_ff,
                                    0,
                                    GRID_SIZE_MINUS,
                                    Ghost(*computed),
                                    Ghost(last_zone),
                                    Ghost(*next_zone),
                                    Ghost(pre0),
                                );
                                proof {
                                    assert forall|z: Zone, c: CellPos|
                                        zone_adjacent(z, *next_zone) && z.zx < computed.width
                                            && z.zy < computed.height && #[trigger] computed.at(
                                            CellPos { i: z.zx, j: z.zy },
                                        ) is Some && #[trigger] tile_bounds(c) && in_zone_range(
                                            z,
                                            next_zone.zx * GRID_SIZE_MINUS + c.i,
                                            next_zone.zy * GRID_SIZE_MINUS + c.j,
                                        ) && z.zx + 1 == next_zone.zx + dzi && z.zy + 1
                                            == next_zone.zy + dzj implies junction_matched(
                                        *computed,
                                        *next_zone,
                                        *next,
                                        c,
                                    ) && next.to_visit@.contains(c) by {
                                        assert(z == last_zone);
                                        assert(c.i == GRID_SIZE_MINUS);
                                        assert(c == CellPos { i: GRID_SIZE_MINUS, j: c.j });
                                        assert(junction_matched(
                                            *computed,
                                            *next_zone,
                                            *next,
                                            CellPos { i: GRID_SIZE_MINUS, j: c.j },
                                        ));
                                        assert(next.to_visit@.contains(CellPos { i: GRID_SIZE_MINUS, j: c.j }));
                                    }
                                }
                            } else if dzi == 1 && dzj == 0 {
                                // neighbor above: its last row is this tile's
                                // first row
                                Self::junction_copy_row(
                                    next,
                                    last_ff,
                                    GRID_SIZE_MINUS,
                                    0,
                                    Ghost(*computed),
                                    Ghost(last_zone),
                                    Ghost(*next_zone),
                                    Ghost(pre0),
                                );
                                proof {
                                    assert forall|z: Zone, c: CellPos|
                                        zone_adjacent(z, *next_zone) && z.zx < computed.width
                                            && z.zy < computed.height && #[trigger] computed.at(
                                            CellPos { i: z.zx, j: z.zy },
                                        ) is Some && #[trigger] tile_bounds(c) && in_zone_range(
                                            z,
                                            next_zone.zx * GRID_SIZE_MINUS + c.i,
                                            next_zone.zy * GRID_SIZE_MINUS + c.j,
                                        ) && z.zx + 1 == next_zone.zx + dzi && z.zy + 1
                                            == next_zone.zy + dzj implies junction_matched(
                                        *computed,
                                        *next_zone,
                                        *next,
                                        c,
                                    ) && next.to_visit@.contains(c) by {
                                        assert(z == last_zone);
                                        assert(c.j == 0);
                                        assert(c == CellPos { i: c.i, j: 0 });
                                        assert(junction_matched(
                                            *computed,
                                            *next_zone,
                                            *next,
                                            CellPos { i: c.i, j: 0 },
                                        ));
                                        assert(next.to_visit@.contains(CellPos { i: c.i, j: 0 }));
                                    }
                                }
                            } else if dzi == 1 && dzj == 2 {
                                // neighbor below: its first row is this tile's
                                // last row
                                Self::junction_copy_row(
                                    next,
                                    last_ff,
                                    0,
                                    GRID_SIZE_MINUS,
                                    Ghost(*computed),
                                    Ghost(last_zone),
                                    Ghost(*next_zone),
                                    Ghost(pre0),
                                );
                                proof {
                                    assert forall|z: Zone, c: CellPos|
                                        zone_adjacent(z, *next_zone) && z.zx < computed.width
                                            && z.zy < computed.height && #[trigger] computed.at(
                                            CellPos { i: z.zx, j: z.zy },
                                        ) is Some && #[trigger] tile_bounds(c) && in_zone_range(
                                            z,
                                            next_zone.zx * GRID_SIZE_MINUS + c.i,
                                            next_zone.zy * GRID_SIZE_MINUS + c.j,
                                        ) && z.zx + 1 == next_zone.zx + dzi && z.zy + 1
                                            == next_zone.zy + dzj implies junction_matched(
                                        *computed,
                                        *next_zone,
                                        *next,
                                        c,
                                    ) && next.to_visit@.contains(c) by {
                                        assert(z == last_zone);
                                        assert(c.j == GRID_SIZE_MINUS);
                                        assert(c == CellPos { i: c.i, j: GRID_SIZE_MINUS });
                                        assert(junction_matched(
                                            *computed,
                                            *next_zone,
                                            *next,
                                            CellPos { i: c.i, j: GRID_SIZE_MINUS },
                                        ));
                                        assert(next.to_visit@.contains(CellPos { i: c.i, j: GRID_SIZE_MINUS }));
                                    }
                                }
                            } else if dzi == 0 && dzj == 0 {
                                // corner neighbor up-left: one shared cell
                                Self::junction_copy(
                                    next,
                                    last_ff,
                                    CellPos { i: GRID_SIZE_MINUS, j: GRID_SIZE_MINUS },
                                    CellPos { i: 0, j: 0 },
                                    Ghost(*computed),
                                    Ghost(last_zone),
                                    Ghost(*next_zone),
                                    Ghost(pre0),
                                );
                                proof {
                                    assert forall|z: Zone, c: CellPos|
                                        zone_adjacent(z, *next_zone) && z.zx < computed.width
                                            && z.zy < computed.height && #[trigger] computed.at(
                                            CellPos { i: z.zx, j: z.zy },
                                        ) is Some && #[trigger] tile_bounds(c) && in_zone_range(
                                            z,
                                            next_zone.zx * GRID_SIZE_MINUS + c.i,
                                            next_zone.zy * GRID_SIZE_MINUS + c.j,
                                        ) && z.zx + 1 == next_zone.zx + dzi && z.zy + 1
                                            == next_zone.zy + dzj implies junction_matched(
                                        *computed,
                                        *next_zone,
                                        *next,
                                        c,
                                    ) && next.to_visit@.contains(c) by {
                                        assert(z == last_zone);
                                        assert(c.i == 0);
                                        assert(c.j == 0);
                                        assert(c == CellPos { i: 0, j: 0 });
                                        assert(junction_matched(
                                            *computed,
                                            *next_zone,
                                            *next,
                                            CellPos { i: 0, j: 0 },
                                        ));
                                        assert(next.to_visit@.contains(CellPos { i: 0, j: 0 }));
                                    }
                                }
                            } else if dzi == 2 && dzj == 0 {
                                // corner neighbor up-right
                                Self::junction_copy(
                                    next,
                                    last_ff,
                                    CellPos { i: 0, j: GRID_SIZE_MINUS },
                                    CellPos { i: GRID_SIZE_MINUS, j: 0 },
                                    Ghost(*computed),
                                    Ghost(last_zone),
                                    Ghost(*next_zone),
                                    Ghost(pre0),
                                );
                                proof {
                                    assert forall|z: Zone, c: CellPos|
                                        zone_adjacent(z, *next_zone) && z.zx < computed.width
                                            && z.zy < computed.height && #[trigger] computed.at(
                                            CellPos { i: z.zx, j: z.zy },
                                        ) is Some && #[trigger] tile_bounds(c) && in_zone_range(
                                            z,
                                            next_zone.zx * GRID_SIZE_MINUS + c.i,
                                            next_zone.zy * GRID_SIZE_MINUS + c.j,
                                        ) && z.zx + 1 == next_zone.zx + dzi && z.zy + 1
                                            == next_zone.zy + dzj implies junction_matched(
                                        *computed,
                                        *next_zone,
                                        *next,
                                        c,
                                    ) && next.to_visit@.contains(c) by {
                                        assert(z == last_zone);
                                        assert(c.i == GRID_SIZE_MINUS);
                                        assert(c.j == 0);
                                        assert(c == CellPos { i: GRID_SIZE_MINUS, j: 0 });
                                        assert(junction_matched(
                                            *computed,
                                            *next_zone,
                                            *next,
                                            CellPos { i: GRID_SIZE_MINUS, j: 0 },
                                        ));
                                        assert(next.to_visit@.contains(CellPos { i: GRID_SIZE_MINUS, j: 0 }));
                                    }
                                }
                            } else if dzi == 0 && dzj == 2 {
                                // corner neighbor down-left
                                Self::junction_copy(
                                    next,
                                    last_ff,
                                    CellPos { i: GRID_SIZE_MINUS, j: 0 },
                                    CellPos { i: 0, j: GRID_SIZE_MINUS },
                                    Ghost(*computed),
                                    Ghost(last_zone),
                                    Ghost(*next_zone),
                                    Ghost(pre0),
                                );
                                proof {
                                    assert forall|z: Zone, c: CellPos|
                                        zone_adjacent(z, *next_zone) && z.zx < computed.width
                                            && z.zy < computed.height && #[trigger] computed.at(
                                            CellPos { i: z.zx, j: z.zy },
                                        ) is Some && #[trigger] tile_bounds(c) && in_zone_range(
                                            z,
                                            next_zone.zx * GRID_SIZE_MINUS + c.i,
                                            next_zone.zy * GRID_SIZE_MINUS + c.j,
                                        ) && z.zx + 1 == next_zone.zx + dzi && z.zy + 1
                                            == next_zone.zy + dzj implies junction_matched(
                                        *computed,
                                        *next_zone,
                                        *next,
                                        c,
                                    ) && next.to_visit@.contains(c) by {
                                        assert(z == last_zone);
                                        assert(c.i == 0);
                                        assert(c.j == GRID_SIZE_MINUS);
                                        assert(c == CellPos { i: 0, j: GRID_SIZE_MINUS });
                                        assert(junction_matched(
                                            *computed,
                                            *next_zone,
                                            *next,
                                            CellPos { i: 0, j: GRID_SIZE_MINUS },
                                        ));
                                        assert(next.to_visit@.contains(CellPos { i: 0, j: GRID_SIZE_MINUS }));
                                    }
                                }
                            } else {
                                // corner neighbor down-right
                                Self::junction_copy(
                                    next,
                                    last_ff,
                                    CellPos { i: 0, j: 0 },
                                    CellPos { i: GRID_SIZE_MINUS, j: GRID_SIZE_MINUS },
                                    Ghost(*computed),
                                    Ghost(last_zone),
                                    Ghost(*next_zone),
                                    Ghost(pre0),
                                );
                                proof {
                                    assert forall|z: Zone, c: CellPos|
                                        zone_adjacent(z, *next_zone) && z.zx < computed.width
                                            && z.zy < computed.height && #[trigger] computed.at(
                                            CellPos { i: z.zx, j: z.zy },
                                        ) is Some && #[trigger] tile_bounds(c) && in_zone_range(
                                            z,
                                            next_zone.zx * GRID_SIZE_MINUS + c.i,
                                            next_zone.zy * GRID_SIZE_MINUS + c.j,
                                        ) && z.zx + 1 == next_zone.zx + dzi && z.zy + 1
                                            == next_zone.zy + dzj implies junction_matched(
                                        *computed,
                                        *next_zone,
                                        *next,
                                        c,
                                    ) && next.to_visit@.contains(c) by {
                                        assert(z == last_zone);
                                        assert(c.i == GRID_SIZE_MINUS);
                                        assert(c.j == GRID_SIZE_MINUS);
                                        assert(c == CellPos { i: GRID_SIZE_MINUS, j: GRID_SIZE_MINUS });
                                        assert(junction_matched(
                                            *computed,
                                            *next_zone,
                                            *next,
                                            CellPos { i: GRID_SIZE_MINUS, j: GRID_SIZE_MINUS },
                                        ));
                                        assert(next.to_visit@.contains(CellPos { i: GRID_SIZE_MINUS, j: GRID_SIZE_MINUS }));
                                    }
                                }
                            }
                        },
                        None => {},
                    }
                }
                dzj = dzj + 1;
            }
            dzi = dzi + 1;
        }
    }

}

/// A map cell's zone index stays inside the tile table built for its map.
proof fn lemma_zone_of_cell(i: int, w: int)
    requires
        0 <= i < w,
    ensures
        i / 7 < w / 7 + 1,
{
    vstd::arithmetic::div_mod::lemma_div_is_ordered(i, w - 1, 7);
    vstd::arithmetic::div_mod::lemma_div_is_ordered(w - 1, w, 7);
}

impl FullPathCompute {
    /// Perform one bounded unit of work. While the coarse search runs,
    /// step it once; once it is done, map its path to the ordered,
    /// deduplicated tile sequence (L-shaped detours instead of diagonal
    /// tile transitions, a one-tile halo, queued forward and backward);
    /// then compute one queued tile per step with junction seeding; once
    /// the queue drains, recompute every tile's directions with its
    /// neighbor tiles supplied and finish. The terminal state is returned
    /// unchanged.
    pub fn step(self) -> (r: Self)
        requires
            self.wf(),
        ensures
            r.wf(),
            self is FlowFieldComputed ==> r == self,
            self is Astar ==> (r is Astar || r is AstarDoneFieldFinding),
            self is AstarDoneFieldFinding ==> r is ComputingFlowFields,
            self is ComputingFlowFields ==> (r is ComputingFlowFields || r is FlowFieldComputed),
            self matches FullPathCompute::Astar(a) ==> (r matches
                FullPathCompute::AstarDoneFieldFinding { astar } ==> astar.cost == a.spec_cost()
                && astar.from == a.spec_from() && astar.to == a.spec_to()),
            self matches FullPathCompute::AstarDoneFieldFinding { astar } ==> (r matches
                FullPathCompute::ComputingFlowFields { astar: a2, .. } ==> a2 == astar),
            self matches FullPathCompute::AstarDoneFieldFinding { astar } ==> (r matches
                FullPathCompute::ComputingFlowFields {
                    computing_zone,
                    zone_to_visit,
                    computed,
                    ..
                } ==> {
                &&& computing_zone.zx == astar.to.i / GRID_SIZE_MINUS
                &&& computing_zone.zy == astar.to.j / GRID_SIZE_MINUS
                &&& (forall|k: int|
                    0 <= k < astar.path@.len() ==> zone_to_visit@.contains(
                        Zone {
                            zx: (#[trigger] astar.path@[k]).i / GRID_SIZE_MINUS,
                            zy: astar.path@[k].j / GRID_SIZE_MINUS,
                        },
                    ))
                &&& match computed.at(CellPos { i: computing_zone.zx, j: computing_zone.zy }) {
                    Some(t) => {
                        &&& t.objective == (CellPos {
                            i: astar.to.i % GRID_SIZE_MINUS,
                            j: astar.to.j % GRID_SIZE_MINUS,
                        })
                        &&& t.state is Created
                        &&& t.skip_flow
                        &&& t.to_visit@.len() == 0
                        &&& (forall|c: CellPos|
                            tile_bounds(c) ==> #[trigger] t.integration.at(c) == MAX_INTEGRATION)
                        &&& (forall|c: CellPos|
                            tile_bounds(c) ==> #[trigger] t.flow.at(c) == FLOW_NONE)
                        &&& (forall|c: CellPos|
                            tile_bounds(c) ==> #[trigger] t.cost.at(c) == (if computing_zone.zx
                                * GRID_SIZE_MINUS + c.i < astar.cost.width && computing_zone.zy
                                * GRID_SIZE_MINUS + c.j < astar.cost.height {
                                astar.cost.at(
                                    CellPos {
                                        i: (computing_zone.zx * GRID_SIZE_MINUS + c.i) as usize,
                                        j: (computing_zone.zy * GRID_SIZE_MINUS + c.j) as usize,
                                    },
                                )
                            } else {
                                255u8
                            }))
                    },
                    None => false,
                }
                &&& (forall|c: CellPos|
                    computed.in_bounds(c) && c != (CellPos {
                        i: computing_zone.zx,
                        j: computing_zone.zy,
                    }) ==> (#[trigger] computed.at(c)) is None)
            }),
            self matches FullPathCompute::ComputingFlowFields { astar: a1, .. } ==> (r matches
                FullPathCompute::ComputingFlowFields { astar: a2, .. } ==> a2 == a1),
            self matches FullPathCompute::ComputingFlowFields { astar, .. } ==> (r matches
                FullPathCompute::FlowFieldComputed(res) ==> res.computed.width == (
                astar.cost.width as int) / (GRID_SIZE_MINUS as int) + 1 && res.computed.height == (
                astar.cost.height as int) / (GRID_SIZE_MINUS as int) + 1),
            (self is Astar && r is Astar) ==> r.search_measure() < self.search_measure(),
            self matches FullPathCompute::Astar(a) ==> (r matches FullPathCompute::Astar(a2)
                ==> a2.spec_from() == a.spec_from() && a2.spec_to() == a.spec_to()
                && a2.spec_cost() == a.spec_cost()),
            (self is ComputingFlowFields && r is ComputingFlowFields) ==> (r.queue_len()
                < self.queue_len() || (r.queue_len() == self.queue_len() && (r.tile_rank()
                < self.tile_rank() || (r.tile_rank() == self.tile_rank() && r.tile_relax()
                < self.tile_relax())))),
            self matches FullPathCompute::ComputingFlowFields {
                zone_to_visit,
                computed: pre_table,
                ..
            } ==> (r matches FullPathCompute::FlowFieldComputed(res) ==> {
                &&& zone_to_visit@.len() == 0
                &&& forall|c: CellPos|
                    res.computed.in_bounds(c) ==> ((#[trigger] res.computed.at(c)) is Some
                        <==> pre_table.at(c) is Some)
                &&& forall|c: CellPos|
                    res.computed.in_bounds(c) ==> match #[trigger] res.computed.at(c) {
                        Some(t) => t.state is Ready && t.to_visit@.len() == 0
                            && crate::flowfield::flow_derived_with_neighbors(t),
                        None => true,
                    }
            }),
    {
        match self {
            FullPathCompute::Astar(astar_compute) => {
                let stepped = astar_compute.step();
                match stepped {
                    AStarCompute::Computed(result) => FullPathCompute::AstarDoneFieldFinding {
                        astar: result,
                    },
                    other => FullPathCompute::Astar(other),
                }
            },
            FullPathCompute::AstarDoneFieldFinding { astar } => {
                proof {
                    crate::astar::lemma_path_endpoints(astar);
                    astar.lemma_path_in_bounds();
                    assert(GRID_SIZE_MINUS == 7);
                }
                let w = astar.cost.width;
                let h = astar.cost.height;
                let zw = w / GRID_SIZE_MINUS + 1;
                let zh = h / GRID_SIZE_MINUS + 1;
                proof {
                    vstd::arithmetic::div_mod::lemma_div_is_ordered(
                        w as int,
                        COORD_LIMIT as int,
                        7,
                    );
                    vstd::arithmetic::div_mod::lemma_div_is_ordered(w as int, 0xFFFF, 7);
                    vstd::arithmetic::div_mod::lemma_div_is_ordered(
                        h as int,
                        COORD_LIMIT as int,
                        7,
                    );
                    vstd::arithmetic::div_mod::lemma_div_is_ordered(h as int, 0xFFFF, 7);
                    assert(zw <= 9363 && zh <= 9363);
                    assert(zw * zh <= 9363 * 9363) by (nonlinear_arith)
                        requires
                            1 <= zw <= 9363,
                            1 <= zh <= 9363,
                    ;
                }
                let mut zone_traversed_vec: Vec<Zone> = Vec::new();
                let mut pi: usize = 0;
                while pi < astar.path.len()
                    invariant
                        astar.wf(),
                        w == astar.cost.width,
                        h == astar.cost.height,
                        zw == w as int / 7 + 1,
                        zh == h as int / 7 + 1,
                        forall|k: int|
                            0 <= k < astar.path@.len() ==> astar.cost.in_bounds(
                                #[trigger] astar.path@[k],
                            ),
                        pi <= astar.path@.len(),
                        zones_in(zone_traversed_vec@, zw, zh),
                        pi > 0 ==> zone_traversed_vec@.len() >= 1,
                        pi > 0 ==> zone_traversed_vec@.last() == (Zone {
                            zx: astar.path@[pi - 1].i / GRID_SIZE_MINUS,
                            zy: astar.path@[pi - 1].j / GRID_SIZE_MINUS,
                        }),
                        forall|k: int|
                            0 <= k < pi ==> zone_traversed_vec@.contains(
                                Zone {
                                    zx: (#[trigger] astar.path@[k]).i / GRID_SIZE_MINUS,
                                    zy: astar.path@[k].j / GRID_SIZE_MINUS,
                                },
                            ),
                    decreases astar.path@.len() - pi,
                {
                    let node = astar.path[pi];
                    proof {
                        lemma_zone_of_cell(node.i as int, w as int);
                        lemma_zone_of_cell(node.j as int, h as int);
                    }
                    let zone = Zone { zx: node.i / GRID_SIZE_MINUS, zy: node.j / GRID_SIZE_MINUS };
                    let ghost trav_pre = zone_traversed_vec@;
                    if zone_traversed_vec.len() == 0 {
                        zone_traversed_vec.push(zone);
                    } else {
                        let last = zone_traversed_vec[zone_traversed_vec.len() - 1];
                        if !(last.zx == zone.zx && last.zy == zone.zy) {
                            // direct diagonal tile transitions are not
                            // allowed: route through an L-shaped detour
                            if last.zx != zone.zx && last.zy != zone.zy {
                                zone_traversed_vec.push(Zone { zx: last.zx, zy: zone.zy });
                            }
                            zone_traversed_vec.push(zone);
                        }
                    }
                    proof {
                        assert(zone_traversed_vec@.contains(zone)) by {
                            if zone_traversed_vec@.last() == zone {
                                assert(zone_traversed_vec@[zone_traversed_vec@.len() - 1] == zone);
                            }
                        }
                        assert forall|k: int|
                            0 <= k < pi + 1 implies zone_traversed_vec@.contains(
                            Zone {
                                zx: (#[trigger] astar.path@[k]).i / GRID_SIZE_MINUS,
                                zy: astar.path@[k].j / GRID_SIZE_MINUS,
                            },
                        ) by {
                            let z = Zone {
                                zx: astar.path@[k].i / GRID_SIZE_MINUS,
                                zy: astar.path@[k].j / GRID_SIZE_MINUS,
                            };
                            if k < pi {
                                let m0 = choose|m: int|
                                    0 <= m < trav_pre.len() && trav_pre[m] == z;
                                assert(zone_traversed_vec@[m0] == z);
                            } else {
                                assert(z == zone);
                            }
                        }
                    }
                    pi = pi + 1;
                }
                // one-tile halo of orthogonally adjacent zones, for
                // stitched continuity at the field edges
                let mut with_grow: Vec<Zone> = Vec::new();
                let mut zi: usize = 0;
                while zi < zone_traversed_vec.len()
                    invariant
                        zi <= zone_traversed_vec@.len(),
                        zw <= COORD_LIMIT,
                        zh <= COORD_LIMIT,
                        zones_in(zone_traversed_vec@, zw, zh),
                        zones_in(with_grow@, zw, zh),
                    decreases zone_traversed_vec@.len() - zi,
                {
                    let zone = zone_traversed_vec[zi];
                    let mut di: usize = 0;
                    while di < 3
                        invariant
                            zi < zone_traversed_vec@.len(),
                            di <= 3,
                            zw <= COORD_LIMIT,
                            zh <= COORD_LIMIT,
                            zones_in(zone_traversed_vec@, zw, zh),
                            zones_in(with_grow@, zw, zh),
                            zone == zone_traversed_vec@[zi as int],
                        decreases 3 - di,
                    {
                        let mut dj: usize = 0;
                        while dj < 3
                            invariant
                                zi < zone_traversed_vec@.len(),
                                di < 3,
                                dj <= 3,
                                zw <= COORD_LIMIT,
                                zh <= COORD_LIMIT,
                                zones_in(zone_traversed_vec@, zw, zh),
                                zones_in(with_grow@, zw, zh),
                                zone == zone_traversed_vec@[zi as int],
                            decreases 3 - dj,
                        {
                            let zxp = zone.zx + di;
                            let zyp = zone.zy + dj;
                            if zxp >= 1 && zxp - 1 < zw && zyp >= 1 && zyp - 1 < zh {
                                let new_zone = Zone { zx: zxp - 1, zy: zyp - 1 };
                                if !zones_contain(&zone_traversed_vec, &new_zone) {
                                    with_grow.push(new_zone);
                                }
                            }
                            dj = dj + 1;
                        }
                        di = di + 1;
                    }
                    zi = zi + 1;
                }
                // queue the crossed tiles in both directions, so stitching
                // holds regardless of approach
                let ghost halo_snap = with_grow@;
                let ghost traversed_snap = zone_traversed_vec@;
                with_grow.append(&mut zone_traversed_vec);
                let mut queue: Vec<Zone> = Vec::new();
                let n = with_grow.len();
                let mut k: usize = n;
                while k > 0
                    invariant
                        k <= n,
                        n == with_grow@.len(),
                        zones_in(with_grow@, zw, zh),
                        zones_in(queue@, zw, zh),
                        queue@.len() == n - k,
                        forall|m: int|
                            0 <= m < queue@.len() ==> #[trigger] queue@[m] == with_grow@[n - 1
                                - m],
                    decreases k,
                {
                    k = k - 1;
                    let z = with_grow[k];
                    queue.push(z);
                }
                let mut k2: usize = 0;
                while k2 < n
                    invariant
                        k2 <= n,
                        n == with_grow@.len(),
                        zones_in(with_grow@, zw, zh),
                        zones_in(queue@, zw, zh),
                        queue@.len() == n + k2,
                        forall|m: int|
                            0 <= m < n ==> #[trigger] queue@[m] == with_grow@[n - 1 - m],
                        forall|m: int|
                            0 <= m < k2 ==> #[trigger] queue@[n + m] == with_grow@[m],
                    decreases n - k2,
                {
                    let z = with_grow[k2];
                    queue.push(z);
                    k2 = k2 + 1;
                }
                let ghost queue_full = queue@;
                let first_zone = match queue.pop() {
                    Some(z) => z,
                    None => vstd::pervasive::unreached(),
                };
                proof {
                    assert(with_grow@ == halo_snap + traversed_snap);
                    assert(traversed_snap.len() >= 1);
                    assert(with_grow@.last() == traversed_snap.last());
                    assert(first_zone == queue_full.last());
                    assert(queue_full[n + (n - 1)] == with_grow@[n - 1]);
                    assert(first_zone == with_grow@[n - 1]);
                    assert(first_zone == with_grow@.last());
                    assert(first_zone == (Zone {
                        zx: astar.to.i / GRID_SIZE_MINUS,
                        zy: astar.to.j / GRID_SIZE_MINUS,
                    }));
                    assert forall|kk: int|
                        0 <= kk < astar.path@.len() implies queue@.contains(
                        Zone {
                            zx: (#[trigger] astar.path@[kk]).i / GRID_SIZE_MINUS,
                            zy: astar.path@[kk].j / GRID_SIZE_MINUS,
                        },
                    ) by {
                        let z = Zone {
                            zx: astar.path@[kk].i / GRID_SIZE_MINUS,
                            zy: astar.path@[kk].j / GRID_SIZE_MINUS,
                        };
                        let m0 = choose|m: int|
                            0 <= m < traversed_snap.len() && #[trigger] traversed_snap[m] == z;
                        assert(with_grow@[halo_snap.len() + m0] == z);
                        let mq: int = n - 1 - (halo_snap.len() + m0);
                        assert(queue_full[mq] == z);
                        assert(0 <= mq < queue@.len());
                        assert(queue@[mq] == z);
                    }
                }
                let local_cost = Self::zone_global_cost_to_local_cost(&first_zone, &astar.cost);
                let objective = CellPos {
                    i: astar.to.i % GRID_SIZE_MINUS,
                    j: astar.to.j % GRID_SIZE_MINUS,
                };
                let computing_field = FlowField {
                    objective,
                    cost: local_cost,
                    integration: Field::new(MAX_INTEGRATION, GRID_SIZE, GRID_SIZE),
                    flow: Field::new(FLOW_NONE, GRID_SIZE, GRID_SIZE),
                    to_visit: Vec::new(),
                    state: FlowFieldState::Created,
                    skip_flow: true,
                };
                let mut computed = new_tile_table(zw, zh);
                let fz_cell = first_zone.large_cell_pos();
                proof {
                    crate::field::lemma_row_major_bounds(
                        zw as int,
                        zh as int,
                        fz_cell.i as int,
                        fz_cell.j as int,
                    );
                }
                let ghost table_pre = computed;
                let _ = computed.replace_at(&fz_cell, Some(computing_field));
                proof {
                    assert forall|c: CellPos| computed.in_bounds(c) implies match #[trigger] computed.at(
                        c,
                    ) {
                        Some(t) => t.wf(),
                        None => true,
                    } by {
                        if c != fz_cell {
                            assert(computed.at(c) == table_pre.at(c));
                        }
                    }
                    assert forall|c: CellPos|
                        computed.in_bounds(c) && c != fz_cell implies match #[trigger] computed.at(
                        c,
                    ) {
                        Some(t) => t.state is Ready && t.to_visit@.len() == 0,
                        None => true,
                    } by {
                        assert(computed.at(c) == table_pre.at(c));
                    }
                }
                FullPathCompute::ComputingFlowFields {
                    astar,
                    zone_to_visit: queue,
                    computing_zone: first_zone,
                    computed,
                }
            },
            FullPathCompute::ComputingFlowFields {
                astar,
                mut zone_to_visit,
                computing_zone,
                mut computed,
            } => {
                let czc = computing_zone.large_cell_pos();
                proof {
                    crate::field::lemma_row_major_bounds(
                        computed.width as int,
                        computed.height as int,
                        czc.i as int,
                        czc.j as int,
                    );
                }
                let ghost table0 = computed;
                let taken = computed.replace_at(&czc, None);
                let mut tile = match taken {
                    Some(t) => t,
                    None => vstd::pervasive::unreached(),
                };
                let done = tile.step();
                let ghost table1 = computed;
                let _ = computed.replace_at(&czc, Some(tile));
                proof {
                    assert forall|c: CellPos| computed.in_bounds(c) implies match #[trigger] computed.at(
                        c,
                    ) {
                        Some(t) => t.wf(),
                        None => true,
                    } by {
                        if c != czc {
                            assert(computed.at(c) == table1.at(c));
                            assert(table1.at(c) == table0.at(c));
                        }
                    }
                    assert forall|c: CellPos|
                        computed.in_bounds(c) && c != czc implies match #[trigger] computed.at(c) {
                        Some(t) => t.state is Ready && t.to_visit@.len() == 0,
                        None => true,
                    } by {
                        assert(computed.at(c) == table1.at(c));
                        assert(table1.at(c) == table0.at(c));
                    }
                    assert(computed.at(czc) == Some(tile));
                    assert(tile.state is Ready ==> tile.to_visit@.len() == 0);
                    assert(tile.state is ComputingFlow ==> tile.to_visit@.len() == 0);
                }
                if !done {
                    FullPathCompute::ComputingFlowFields {
                        astar,
                        zone_to_visit,
                        computing_zone,
                        computed,
                    }
                } else {
                    if zone_to_visit.len() == 0 {
                        // final pass: derive every computed tile's
                        // directions with its neighbor tiles supplied
                        proof {
                            assert forall|c: CellPos|
                                computed.in_bounds(c) implies ((#[trigger] computed.at(c)) is Some
                                <==> table0.at(c) is Some) by {
                                if c != czc {
                                    assert(computed.at(c) == table1.at(c));
                                    assert(table1.at(c) == table0.at(c));
                                }
                            }
                        }
                        let total = computed.arr.len();
                        let mut idx: usize = 0;
                        while idx < total
                            invariant
                                computed.wf(),
                                composed_tiles_wf(computed),
                                computed.width == astar.cost.width as int / 7 + 1,
                                computed.height == astar.cost.height as int / 7 + 1,
                                computed.width <= COORD_LIMIT,
                                computed.height <= COORD_LIMIT,
                                total == computed.arr@.len(),
                                idx <= total,
                                forall|c: CellPos|
                                    computed.in_bounds(c) ==> ((#[trigger] computed.at(c)) is Some
                                        <==> table0.at(c) is Some),
                                forall|c: CellPos|
                                    computed.in_bounds(c) ==> match #[trigger] computed.at(c) {
                                        Some(t) => t.state is Ready && t.to_visit@.len() == 0,
                                        None => true,
                                    },
                                forall|c: CellPos|
                                    computed.in_bounds(c) && c.i + c.j * computed.width
                                        < idx ==> match #[trigger] computed.at(c) {
                                        Some(t) => crate::flowfield::flow_derived_with_neighbors(
                                            t,
                                        ),
                                        None => true,
                                    },
                            decreases total - idx,
                        {
                            proof {
                                assert(computed.width >= 1);
                                assert((idx as int) / (computed.width as int) < (computed.height as int))
                                    by (nonlinear_arith)
                                    requires
                                        0 <= idx < computed.width * computed.height,
                                        computed.width >= 1,
                                        computed.height >= 1,
                                ;
                            }
                            let zx = idx % computed.width;
                            let zy = idx / computed.width;
                            let cellz = CellPos { i: zx, j: zy };
                            proof {
                                crate::field::lemma_row_major_bounds(
                                    computed.width as int,
                                    computed.height as int,
                                    zx as int,
                                    zy as int,
                                );
                            }
                            let ghost pass_pre = computed;
                            let slot = computed.replace_at(&cellz, None);
                            proof {
                                assert forall|c: CellPos| computed.in_bounds(c) implies match #[trigger] computed.at(
                                    c,
                                ) {
                                    Some(t) => t.wf(),
                                    None => true,
                                } by {
                                    if c != cellz {
                                        assert(computed.at(c) == pass_pre.at(c));
                                    }
                                }
                            }
                            match slot {
                                Some(mut me) => {
                                    me.step_flow_with_neighbors(&computed, zx, zy);
                                    let ghost mid = computed;
                                    let _ = computed.replace_at(&cellz, Some(me));
                                    proof {
                                        assert forall|c: CellPos|
                                            computed.in_bounds(c) implies match #[trigger] computed.at(
                                            c,
                                        ) {
                                            Some(t) => t.wf(),
                                            None => true,
                                        } by {
                                            if c != cellz {
                                                assert(computed.at(c) == mid.at(c));
                                                assert(mid.at(c) == pass_pre.at(c));
                                            }
                                        }
                                        assert forall|c: CellPos|
                                            computed.in_bounds(c) && c.i + c.j * computed.width
                                                < idx + 1 implies match #[trigger] computed.at(c) {
                                            Some(t) => crate::flowfield::flow_derived_with_neighbors(
                                                t,
                                            ),
                                            None => true,
                                        } by {
                                            crate::field::lemma_row_major_bounds(
                                                computed.width as int,
                                                computed.height as int,
                                                c.i as int,
                                                c.j as int,
                                            );
                                            vstd::arithmetic::div_mod::lemma_fundamental_div_mod(
                                                idx as int,
                                                computed.width as int,
                                            );
                                            assert((idx as int) == (computed.width as int) * ((
                                            idx as int) / (computed.width as int)) + ((idx as int)
                                                % (computed.width as int)));
                                            assert(cellz.j as int == (idx as int) / (
                                            computed.width as int));
                                            assert(cellz.i as int == (idx as int) % (
                                            computed.width as int));
                                            assert(cellz.i + cellz.j * computed.width == idx)
                                                by (nonlinear_arith)
                                                requires
                                                    cellz.i as int == (idx as int) % (
                                                    computed.width as int),
                                                    cellz.j as int == (idx as int) / (
                                                    computed.width as int),
                                                    (idx as int) == (computed.width as int) * ((
                                                    idx as int) / (computed.width as int)) + ((
                                                    idx as int) % (computed.width as int)),
                                            ;
                                            if c == cellz {
                                                assert(computed.at(c) == Some(me));
                                            } else {
                                                if c.i + c.j * computed.width == cellz.i + cellz.j
                                                    * computed.width {
                                                    crate::field::lemma_row_major_injective(
                                                        computed.width as int,
                                                        c.i as int,
                                                        c.j as int,
                                                        cellz.i as int,
                                                        cellz.j as int,
                                                    );
                                                }
                                                assert(c.i + c.j * computed.width < idx);
                                                assert(computed.at(c) == mid.at(c));
                                                assert(mid.at(c) == pass_pre.at(c));
                                            }
                                        }
                                    }
                                },
                                None => {
                                    proof {
                                        assert forall|c: CellPos|
                                            computed.in_bounds(c) && c.i + c.j * computed.width
                                                < idx + 1 implies match #[trigger] computed.at(c) {
                                            Some(t) => crate::flowfield::flow_derived_with_neighbors(
                                                t,
                                            ),
                                            None => true,
                                        } by {
                                            crate::field::lemma_row_major_bounds(
                                                computed.width as int,
                                                computed.height as int,
                                                c.i as int,
                                                c.j as int,
                                            );
                                            vstd::arithmetic::div_mod::lemma_fundamental_div_mod(
                                                idx as int,
                                                computed.width as int,
                                            );
                                            assert((idx as int) == (computed.width as int) * ((
                                            idx as int) / (computed.width as int)) + ((idx as int)
                                                % (computed.width as int)));
                                            assert(cellz.j as int == (idx as int) / (
                                            computed.width as int));
                                            assert(cellz.i as int == (idx as int) % (
                                            computed.width as int));
                                            assert(cellz.i + cellz.j * computed.width == idx)
                                                by (nonlinear_arith)
                                                requires
                                                    cellz.i as int == (idx as int) % (
                                                    computed.width as int),
                                                    cellz.j as int == (idx as int) / (
                                                    computed.width as int),
                                                    (idx as int) == (computed.width as int) * ((
                                                    idx as int) / (computed.width as int)) + ((
                                                    idx as int) % (computed.width as int)),
                                            ;
                                            if c == cellz {
                                                assert(computed.at(c) is None);
                                            } else {
                                                if c.i + c.j * computed.width == cellz.i + cellz.j
                                                    * computed.width {
                                                    crate::field::lemma_row_major_injective(
                                                        computed.width as int,
                                                        c.i as int,
                                                        c.j as int,
                                                        cellz.i as int,
                                                        cellz.j as int,
                                                    );
                                                }
                                                assert(c.i + c.j * computed.width < idx);
                                                assert(computed.at(c) == pass_pre.at(c));
                                            }
                                        }
                                    }
                                },
                            }
                            idx = idx + 1;
                        }
                        proof {
                            assert forall|c: CellPos| computed.in_bounds(c) implies match #[trigger] computed.at(
                                c,
                            ) {
                                Some(t) => crate::flowfield::flow_derived_with_neighbors(t),
                                None => true,
                            } by {
                                crate::field::lemma_row_major_bounds(
                                    computed.width as int,
                                    computed.height as int,
                                    c.i as int,
                                    c.j as int,
                                );
                            }
                        }
                        FullPathCompute::FlowFieldComputed(ComposedResult { computed })
                    } else {
                        let next_zone = match zone_to_visit.pop() {
                            Some(z) => z,
                            None => vstd::pervasive::unreached(),
                        };
                        let nzc = next_zone.large_cell_pos();
                        proof {
                            crate::field::lemma_row_major_bounds(
                                computed.width as int,
                                computed.height as int,
                                nzc.i as int,
                                nzc.j as int,
                            );
                            vstd::arithmetic::div_mod::lemma_div_is_ordered(
                                astar.cost.width as int,
                                COORD_LIMIT as int,
                                7,
                            );
                            vstd::arithmetic::div_mod::lemma_div_is_ordered(
                                astar.cost.height as int,
                                COORD_LIMIT as int,
                                7,
                            );
                        }
                        let ghost table2 = computed;
                        let existing = computed.replace_at(&nzc, None);
                        proof {
                            assert forall|c: CellPos| computed.in_bounds(c) implies match #[trigger] computed.at(
                                c,
                            ) {
                                Some(t) => t.wf(),
                                None => true,
                            } by {
                                if c != nzc {
                                    assert(computed.at(c) == table2.at(c));
                                }
                            }
                        }
                        let mut next_ff = match existing {
                            Some(ff) => ff,
                            None => FlowField {
                                objective: CellPos::new(),
                                cost: Self::zone_global_cost_to_local_cost(&next_zone, &astar.cost),
                                integration: Field::new(MAX_INTEGRATION, GRID_SIZE, GRID_SIZE),
                                flow: Field::new(FLOW_NONE, GRID_SIZE, GRID_SIZE),
                                to_visit: Vec::new(),
                                state: FlowFieldState::ComputingIntegration,
                                skip_flow: true,
                            },
                        };
                        Self::compute_junction(&computed, &next_zone, &mut next_ff);
                        let ghost table3 = computed;
                        let _ = computed.replace_at(&nzc, Some(next_ff));
                        proof {
                            assert forall|c: CellPos| computed.in_bounds(c) implies match #[trigger] computed.at(
                                c,
                            ) {
                                Some(t) => t.wf(),
                                None => true,
                            } by {
                                if c != nzc {
                                    assert(computed.at(c) == table3.at(c));
                                }
                            }
                            assert forall|c: CellPos|
                                computed.in_bounds(c) && c != nzc implies match #[trigger] computed.at(
                                c,
                            ) {
                                Some(t) => t.state is Ready && t.to_visit@.len() == 0,
                                None => true,
                            } by {
                                assert(computed.at(c) == table3.at(c));
                            }
                            assert(computed.at(nzc) == Some(next_ff));
                            assert(next_ff.state is Ready ==> next_ff.to_visit@.len() == 0);
                            assert(next_ff.state is ComputingFlow ==> next_ff.to_visit@.len()
                                == 0);
                        }
                        FullPathCompute::ComputingFlowFields {
                            astar,
                            zone_to_visit,
                            computing_zone: next_zone,
                            computed,
                        }
                    }
                }
            },
            done_state @ FullPathCompute::FlowFieldComputed(..) => done_state,
        }
    }

    /// Run the hierarchical computation to completion. Every phase makes
    /// strictly decreasing progress: the coarse search shrinks its work
    /// measure and can never fail (a wall is a weight, not a barrier), the
    /// tile queue only drains, and within one tile each step lowers the
    /// phase or the remaining relaxation work, so the run ends in the
    /// *FlowFieldComputed* state after finitely many steps.
    pub fn run_to_completion(self) -> (r: Self)
        requires
            self.wf(),
        ensures
            r.wf(),
            r is FlowFieldComputed,
    {
        let mut s = self;
        loop
            invariant
                s.wf(),
            ensures
                s.wf(),
                s is FlowFieldComputed,
            decreases
                    s.stage_rank(),
                    s.search_measure(),
                    s.queue_len(),
                    s.tile_rank(),
                    s.tile_relax(),
        {
            match &s {
                FullPathCompute::FlowFieldComputed(..) => {
                    break ;
                },
                _ => {},
            }
            proof {
                Self::lemma_measure_nonneg(s);
            }
            s = s.step();
            proof {
                Self::lemma_measure_nonneg(s);
            }
        }
        s
    }

    /// All components of the progress measure are non-negative for a
    /// well-formed state.
    proof fn lemma_measure_nonneg(s: FullPathCompute)
        requires
            s.wf(),
        ensures
            s.stage_rank() >= 0,
            s.search_measure() >= 0,
            s.queue_len() >= 0,
            s.tile_rank() >= 0,
            s.tile_relax() >= 0,
    {
        match s {
            FullPathCompute::Astar(a) => {
                match a {
                    AStarCompute::Computing { nodes_state, .. } => {
                        crate::astar::lemma_counts_bounds(nodes_state.arr@);
                    },
                    _ => {},
                }
            },
            FullPathCompute::ComputingFlowFields { computing_zone, computed, .. } => {
                match computed.at(CellPos { i: computing_zone.zx, j: computing_zone.zy }) {
                    Some(t) => {
                        crate::flowfield::lemma_sum_nonneg(t.integration.arr@);
                    },
                    None => {},
                }
            },
            _ => {},
        }
    }

    /// Step a hierarchical computation held behind a mutable reference,
    /// leaving the updated state in place; it makes the same transition as
    /// `step` and restates its contract clause for clause.
    pub fn step_replace(s: &mut FullPathCompute)
        requires
            old(s).wf(),
        ensures
            final(s).wf(),
            (*old(s)) is FlowFieldComputed ==> *final(s) == *old(s),
            (*old(s)) is Astar ==> ((*final(s)) is Astar || (*final(s)) is AstarDoneFieldFinding),
            (*old(s)) is AstarDoneFieldFinding ==> (*final(s)) is ComputingFlowFields,
            (*old(s)) is ComputingFlowFields ==> ((*final(s)) is ComputingFlowFields || (*final(s)) is FlowFieldComputed),
            *old(s) matches FullPathCompute::Astar(a) ==> (*final(s) matches
                FullPathCompute::AstarDoneFieldFinding { astar } ==> astar.cost == a.spec_cost()
                && astar.from == a.spec_from() && astar.to == a.spec_to()),
            *old(s) matches FullPathCompute::AstarDoneFieldFinding { astar } ==> (*final(s) matches
                FullPathCompute::ComputingFlowFields { astar: a2, .. } ==> a2 == astar),
            *old(s) matches FullPathCompute::AstarDoneFieldFinding { astar } ==> (*final(s) matches
                FullPathCompute::ComputingFlowFields {
                    computing_zone,
                    zone_to_visit,
                    computed,
                    ..
                } ==> {
                &&& computing_zone.zx == astar.to.i / GRID_SIZE_MINUS
                &&& computing_zone.zy == astar.to.j / GRID_SIZE_MINUS
                &&& (forall|k: int|
                    0 <= k < astar.path@.len() ==> zone_to_visit@.contains(
                        Zone {
                            zx: (#[trigger] astar.path@[k]).i / GRID_SIZE_MINUS,
                            zy: astar.path@[k].j / GRID_SIZE_MINUS,
                        },
                    ))
                &&& match computed.at(CellPos { i: computing_zone.zx, j: computing_zone.zy }) {
                    Some(t) => {
                        &&& t.objective == (CellPos {
                            i: astar.to.i % GRID_SIZE_MINUS,
                            j: astar.to.j % GRID_SIZE_MINUS,
                        })
                        &&& t.state is Created
                        &&& t.skip_flow
                        &&& t.to_visit@.len() == 0
                        &&& (forall|c: CellPos|
                            tile_bounds(c) ==> #[trigger] t.integration.at(c) == MAX_INTEGRATION)
                        &&& (forall|c: CellPos|
                            tile_bounds(c) ==> #[trigger] t.flow.at(c) == FLOW_NONE)
                        &&& (forall|c: CellPos|
                            tile_bounds(c) ==> #[trigger] t.cost.at(c) == (if computing_zone.zx
                                * GRID_SIZE_MINUS + c.i < astar.cost.width && computing_zone.zy
                                * GRID_SIZE_MINUS + c.j < astar.cost.height {
                                astar.cost.at(
                                    CellPos {
                                        i: (computing_zone.zx * GRID_SIZE_MINUS + c.i) as usize,
                                        j: (computing_zone.zy * GRID_SIZE_MINUS + c.j) as usize,
                                    },
                                )
                            } else {
                                255u8
                            }))
                    },
                    None => false,
                }
                &&& (forall|c: CellPos|
                    computed.in_bounds(c) && c != (CellPos {
                        i: computing_zone.zx,
                        j: computing_zone.zy,
                    }) ==> (#[trigger] computed.at(c)) is None)
            }),
            *old(s) matches FullPathCompute::ComputingFlowFields { astar: a1, .. } ==> (*final(s) matches
                FullPathCompute::ComputingFlowFields { astar: a2, .. } ==> a2 == a1),
            *old(s) matches FullPathCompute::ComputingFlowFields { astar, .. } ==> (*final(s) matches
                FullPathCompute::FlowFieldComputed(res) ==> res.computed.width == (
                astar.cost.width as int) / (GRID_SIZE_MINUS as int) + 1 && res.computed.height == (
                astar.cost.height as int) / (GRID_SIZE_MINUS as int) + 1),
            ((*old(s)) is Astar && (*final(s)) is Astar) ==> final(s).search_measure() < old(s).search_measure(),
            *old(s) matches FullPathCompute::Astar(a) ==> (*final(s) matches FullPathCompute::Astar(a2)
                ==> a2.spec_from() == a.spec_from() && a2.spec_to() == a.spec_to()
                && a2.spec_cost() == a.spec_cost()),
            ((*old(s)) is ComputingFlowFields && (*final(s)) is ComputingFlowFields) ==> (final(s).queue_len()
                < old(s).queue_len() || (final(s).queue_len() == old(s).queue_len() && (final(s).tile_rank()
                < old(s).tile_rank() || (final(s).tile_rank() == old(s).tile_rank() && final(s).tile_relax()
                < old(s).tile_relax())))),
            *old(s) matches FullPathCompute::ComputingFlowFields {
                zone_to_visit,
                computed: pre_table,
                ..
            } ==> (*final(s) matches FullPathCompute::FlowFieldComputed(res) ==> {
                &&& zone_to_visit@.len() == 0
                &&& forall|c: CellPos|
                    res.computed.in_bounds(c) ==> ((#[trigger] res.computed.at(c)) is Some
                        <==> pre_table.at(c) is Some)
                &&& forall|c: CellPos|
                    res.computed.in_bounds(c) ==> match #[trigger] res.computed.at(c) {
                        Some(t) => t.state is Ready && t.to_visit@.len() == 0
                            && crate::flowfield::flow_derived_with_neighbors(t),
                        None => true,
                    }
            }),
    {
        let mut tmp = FullPathCompute::Astar(
            AStarCompute::InitialData {
                from: CellPos::new(),
                to: CellPos::new(),
                cost: Field::new(1u8, 1, 1),
            },
        );
        core::mem::swap(s, &mut tmp);
        *s = tmp.step();
    }
}

/// The searches of the queued hierarchical computations that are still in
/// their coarse-search phase, in queue order.
pub open spec fn inner_astars(s: Seq<FullPathCompute>) -> Seq<AStarCompute>
    decreases s.len(),
{
    if s.len() == 0 {
        Seq::empty()
    } else {
        inner_astars(s.drop_last()) + (match s.last() {
            FullPathCompute::Astar(a) => seq![a],
            _ => Seq::empty(),
        })
    }
}

/// Extending the prefix by one element appends that element's
/// contribution.
proof fn lemma_inner_astars_take_step(s: Seq<FullPathCompute>, k: int)
    requires
        0 <= k < s.len(),
    ensures
        inner_astars(s.take(k + 1)) == inner_astars(s.take(k)) + (match s[k] {
            FullPathCompute::Astar(a) => seq![a],
            _ => Seq::empty(),
        }),
{
    assert(s.take(k + 1).drop_last() =~= s.take(k));
    assert(s.take(k + 1).last() == s[k]);
}

impl PathComputer {
    /// Every in-flight computation is well-formed.
    pub open spec fn wf(self) -> bool {
        &&& forall|k: int| 0 <= k < self.astars@.len() ==> (#[trigger] self.astars@[k]).wf()
        &&& forall|k: int|
            0 <= k < self.full_paths@.len() ==> (#[trigger] self.full_paths@[k]).wf()
    }

    /// No computations in flight.
    pub fn new() -> (r: Self)
        ensures
            r.wf(),
            r.astars@.len() == 0,
            r.full_paths@.len() == 0,
    {
        PathComputer { astars: Vec::new(), full_paths: Vec::new() }
    }

    /// Queue a flat search over `cost` from `from` to `to`.
    pub fn begin_astar(&mut self, from: CellPos, to: CellPos, cost: Field<u8>)
        requires
            old(self).wf(),
            AStarCompute::grid_ok(cost, from, to),
        ensures
            final(self).wf(),
            final(self).full_paths == old(self).full_paths,
            final(self).astars@.len() == old(self).astars@.len() + 1,
            final(self).astars@.last() == (AStarCompute::InitialData { from, to, cost }),
            forall|k: int|
                0 <= k < old(self).astars@.len() ==> final(self).astars@[k] == old(
                    self,
                ).astars@[k],
    {
        self.astars.push(AStarCompute::InitialData { from, to, cost });
    }

    /// Queue a hierarchical computation over `cost` from `from` to `to`.
    pub fn begin_full_path(&mut self, from: CellPos, to: CellPos, cost: Field<u8>)
        requires
            old(self).wf(),
            AStarCompute::grid_ok(cost, from, to),
            cost_positive(cost),
            full_dims_ok(cost),
        ensures
            final(self).wf(),
            final(self).astars == old(self).astars,
            final(self).full_paths@.len() == old(self).full_paths@.len() + 1,
            final(self).full_paths@.last() == FullPathCompute::Astar(
                AStarCompute::InitialData { from, to, cost },
            ),
            forall|k: int|
                0 <= k < old(self).full_paths@.len() ==> final(self).full_paths@[k] == old(
                    self,
                ).full_paths@[k],
    {
        self.full_paths.push(
            FullPathCompute::Astar(AStarCompute::InitialData { from, to, cost }),
        );
    }

    /// Every search in flight: the flat ones in order, followed exactly by
    /// the searches of the hierarchical computations still in their
    /// coarse-search phase, in queue order.
    pub fn all_astars(&self) -> (r: Vec<&AStarCompute>)
        ensures
            r@.len() == self.astars@.len() + inner_astars(self.full_paths@).len(),
            forall|k: int|
                0 <= k < self.astars@.len() ==> *(#[trigger] r@[k]) == self.astars@[k],
            forall|m: int|
                0 <= m < inner_astars(self.full_paths@).len() ==> *(#[trigger] r@[self.astars@.len()
                    + m]) == inner_astars(self.full_paths@)[m],
    {
        let mut refs: Vec<&AStarCompute> = Vec::new();
        let mut k: usize = 0;
        while k < self.astars.len()
            invariant
                k <= self.astars@.len(),
                refs@.len() == k,
                forall|m: int| 0 <= m < k ==> *(#[trigger] refs@[m]) == self.astars@[m],
            decreases self.astars@.len() - k,
        {
            refs.push(&self.astars[k]);
            k = k + 1;
        }
        let mut k2: usize = 0;
        proof {
            assert(self.full_paths@.take(0) =~= Seq::<FullPathCompute>::empty());
        }
        while k2 < self.full_paths.len()
            invariant
                k2 <= self.full_paths@.len(),
                refs@.len() >= self.astars@.len(),
                refs@.len() == self.astars@.len() + inner_astars(
                    self.full_paths@.take(k2 as int),
                ).len(),
                forall|m: int|
                    0 <= m < self.astars@.len() ==> *(#[trigger] refs@[m]) == self.astars@[m],
                forall|m: int|
                    0 <= m < inner_astars(self.full_paths@.take(k2 as int)).len() ==> *(
                    #[trigger] refs@[self.astars@.len() + m]) == inner_astars(
                        self.full_paths@.take(k2 as int),
                    )[m],
            decreases self.full_paths@.len() - k2,
        {
            proof {
                lemma_inner_astars_take_step(self.full_paths@, k2 as int);
            }
            match &self.full_paths[k2] {
                FullPathCompute::Astar(a) => {
                    refs.push(a);
                },
                _ => {},
            }
            k2 = k2 + 1;
        }
        proof {
            assert(self.full_paths@.take(self.full_paths@.len() as int) =~= self.full_paths@);
        }
        refs
    }
}

} // verus!
