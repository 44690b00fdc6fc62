//! Per-tile scalar integration field and derived direction field.
//!
//! A [`FlowField`] owns a fixed-size cost tile, an integration grid (the
//! minimum accumulated cost from each cell to an objective cell, with a
//! saturating "unreached" sentinel), a direction grid of 9 codes (8 compass
//! directions plus "no movement"), and a frontier of cells awaiting
//! relaxation. It progresses as a state machine: *Created* seeds the
//! objective, *ComputingIntegration* relaxes one whole frontier per step
//! until no cell improves, *ComputingFlow* derives the direction grid in a
//! single pass, and *Ready* is terminal and idempotent.

use crate::field::{
    adjacent, edge_cost, lemma_adjacent_is_candidate, lemma_code_decode, nth_neighbor,
    nth_neighbor_exec, CellPos, Field,
};
use vstd::prelude::*;

verus! {

/// Width and height of one tile.
pub const GRID_SIZE: usize = 8;

/// Tile stride in the hierarchical decomposition: adjacent tiles overlap by
/// one cell row or column, so a tile advances the map by one less than its
/// size.
pub const GRID_SIZE_MINUS: usize = GRID_SIZE - 1;

/// Number of cells in one tile.
pub const CELLS: usize = GRID_SIZE * GRID_SIZE;

/// Sentinel integration value meaning "not reached": large enough that no
/// relaxation result may reach it, small enough that adding one more edge
/// cannot overflow.
pub const MAX_INTEGRATION: i32 = 0x3fff_ffff;

/// Direction code meaning "no movement": the center of the 3-by-3 code
/// block.
pub const FLOW_NONE: i8 = 4;

/// `c` is a cell of a tile.
pub open spec fn tile_bounds(c: CellPos) -> bool {
    c.i < GRID_SIZE && c.j < GRID_SIZE
}

/// Direction code `d` names the neighbor `q` of `c`: the code packs a
/// column offset (`d % 3 - 1`) and a row offset (`d / 3 - 1`).
pub open spec fn flow_points_to(c: CellPos, d: int, q: CellPos) -> bool {
    q.i as int == c.i as int + d % 3 - 1 && q.j as int == c.j as int + d / 3 - 1
}

/// Sum of an integration array, the potential that every relaxation
/// strictly lowers.
pub open spec fn sum_i32(s: Seq<i32>) -> int
    decreases s.len(),
{
    if s.len() == 0 {
        0
    } else {
        sum_i32(s.drop_last()) + s.last()
    }
}

/// How one update moves the sum.
pub proof fn lemma_sum_update(s: Seq<i32>, i: int, v: i32)
    requires
        0 <= i < s.len(),
    ensures
        sum_i32(s.update(i, v)) == sum_i32(s) - s[i] + v,
    decreases s.len(),
{
    let s2 = s.update(i, v);
    if i == s.len() - 1 {
        assert(s2.drop_last() =~= s.drop_last());
    } else {
        lemma_sum_update(s.drop_last(), i, v);
        assert(s2.drop_last() =~= s.drop_last().update(i, v));
        assert(s2.last() == s.last());
    }
}

/// A sum of non-negative entries is non-negative.
pub proof fn lemma_sum_nonneg(s: Seq<i32>)
    requires
        forall|m: int| 0 <= m < s.len() ==> 0 <= #[trigger] s[m],
    ensures
        sum_i32(s) >= 0,
    decreases s.len(),
{
    if s.len() > 0 {
        lemma_sum_nonneg(s.drop_last());
    }
}

/// Phase of the tile computation.
#[derive(Copy, Clone, Debug, PartialEq, Eq, Structural)]
pub enum FlowFieldState {
    Created,
    ComputingIntegration,
    ComputingFlow,
    Ready,
}

/// Rank of a phase: strictly drops at every phase transition, which is what
/// makes a run to *Ready* terminate.
pub open spec fn phase_rank(s: FlowFieldState) -> int {
    match s {
        FlowFieldState::Created => 3,
        FlowFieldState::ComputingIntegration => 2,
        FlowFieldState::ComputingFlow => 1,
        FlowFieldState::Ready => 0,
    }
}

/// The value a cell `v` offers its neighbor `c` in one relaxation: `v`'s
/// integration plus `c`'s cost times the octile edge cost.
pub open spec fn relax_candidate(pre: FlowField, v: CellPos, c: CellPos) -> int {
    pre.integration.at(v) + (pre.cost.at(c) as int) * edge_cost(v, c)
}

/// Every cell of the swept frontier has offered each passable in-tile
/// neighbor its candidate: afterwards the neighbor holds at most that
/// candidate. This obliges the sweep to relax; it may not discard the
/// frontier.
pub open spec fn sweep_progress(pre: FlowField, post: FlowField) -> bool {
    forall|k: int, c: CellPos|
        0 <= k < pre.to_visit@.len() && tile_bounds(c) && adjacent(#[trigger] pre.to_visit@[k], c)
            && pre.cost.at(c) != 255 && relax_candidate(pre, pre.to_visit@[k], c)
            < MAX_INTEGRATION ==> #[trigger] post.integration.at(c) <= relax_candidate(
            pre,
            pre.to_visit@[k],
            c,
        )
}

/// Every cell the sweep changed was strictly lowered, is passable and
/// below the sentinel, and holds a value justified by some neighbor: at
/// least that neighbor's value plus the exact edge payment into the cell.
pub open spec fn sweep_sourced(pre: FlowField, post: FlowField) -> bool {
    forall|c: CellPos|
        tile_bounds(c) && #[trigger] post.integration.at(c) != pre.integration.at(c) ==> {
            &&& pre.cost.at(c) != 255
            &&& post.integration.at(c) < pre.integration.at(c)
            &&& post.integration.at(c) < MAX_INTEGRATION
            &&& exists|v: CellPos|
                tile_bounds(v) && adjacent(c, v) && post.integration.at(c)
                    >= #[trigger] post.integration.at(v) + (pre.cost.at(c) as int) * edge_cost(
                        v,
                        c,
                    )
        }
}

/// Every "violated edge" — a passable neighbor that a reached cell could
/// still improve — starts at a frontier cell. Relaxation maintains this,
/// so once the frontier is empty no cell can improve any neighbor.
pub open spec fn frontier_covers(f: FlowField) -> bool {
    forall|v: CellPos, c: CellPos|
        tile_bounds(v) && tile_bounds(c) && adjacent(v, c) && f.cost.at(c) != 255 && (
        #[trigger] f.integration.at(v)) + (f.cost.at(c) as int) * edge_cost(v, c)
            < MAX_INTEGRATION && f.integration.at(v) + (f.cost.at(c) as int) * edge_cost(v, c) < (
        #[trigger] f.integration.at(c)) ==> f.to_visit@.contains(v)
}

/// The relaxation fixed point: no cell could lower any passable neighbor
/// below the sentinel. Together with `sweep_sourced` and integration 0 at
/// the objective, this characterizes the converged distance field.
pub open spec fn relaxation_stable(f: FlowField) -> bool {
    forall|v: CellPos, c: CellPos|
        tile_bounds(v) && tile_bounds(c) && adjacent(v, c) && f.cost.at(c) != 255 && (
        #[trigger] f.integration.at(v)) + (f.cost.at(c) as int) * edge_cost(v, c)
            < MAX_INTEGRATION ==> (#[trigger] f.integration.at(c)) <= f.integration.at(v) + (
        f.cost.at(c) as int) * edge_cost(v, c)
}

/// One tile's cost snapshot, integration field, direction field, objective,
/// frontier and phase.
pub struct FlowField {
    pub cost: Field<u8>,
    pub integration: Field<i32>,
    pub flow: Field<i8>,
    pub objective: CellPos,
    pub to_visit: Vec<CellPos>,
    pub state: FlowFieldState,
    pub skip_flow: bool,
}

impl FlowField {
    /// Structural invariant: the three grids are full tiles, costs are at
    /// least 1 (255 marks a wall), integration values lie between 0 and the
    /// sentinel, and the frontier holds tile cells.
    pub open spec fn wf(self) -> bool {
        &&& self.cost.wf() && self.cost.width == GRID_SIZE && self.cost.height == GRID_SIZE
        &&& self.integration.wf() && self.integration.width == GRID_SIZE
            && self.integration.height == GRID_SIZE
        &&& self.flow.wf() && self.flow.width == GRID_SIZE && self.flow.height == GRID_SIZE
        &&& tile_bounds(self.objective)
        &&& forall|m: int| 0 <= m < self.cost.arr@.len() ==> 1 <= #[trigger] self.cost.arr@[m]
        &&& forall|m: int|
            0 <= m < self.integration.arr@.len() ==> 0 <= #[trigger] self.integration.arr@[m]
                <= MAX_INTEGRATION
        &&& forall|k: int| 0 <= k < self.to_visit@.len() ==> tile_bounds(#[trigger] self.to_visit@[k])
    }

    /// The objective cell has integration 0.
    pub open spec fn objective_zeroed(self) -> bool {
        self.integration.at(self.objective) == 0
    }

    /// Every reached cell other than the objective has a strictly smaller
    /// neighbor inside the tile. This holds of a tile whose integration
    /// grew from its own objective alone; boundary stitching seeds values
    /// whose smaller neighbor lives in an adjacent tile instead.
    pub open spec fn locally_sourced(self) -> bool {
        forall|c: CellPos|
            tile_bounds(c) && #[trigger] self.integration.at(c) < MAX_INTEGRATION && c
                != self.objective ==> exists|d: CellPos|
                tile_bounds(d) && adjacent(c, d) && #[trigger] self.integration.at(d)
                    < self.integration.at(c)
    }

    /// The direction stored at `c` is a valid code; if it names a neighbor,
    /// that neighbor has strictly smaller integration and no in-tile
    /// neighbor has a smaller one still (the strictly smallest neighbor is
    /// selected), and if it is "no movement", no in-tile neighbor improves
    /// on the cell itself.
    pub open spec fn flow_ok_at(self, c: CellPos) -> bool {
        let d = self.flow.at(c) as int;
        &&& 0 <= d <= 8
        &&& d != 4 ==> exists|q: CellPos|
            {
                &&& tile_bounds(q)
                &&& #[trigger] flow_points_to(c, d, q)
                &&& self.integration.at(q) < self.integration.at(c)
                &&& forall|q2: CellPos|
                    tile_bounds(q2) && adjacent(c, q2) ==> #[trigger] self.integration.at(q2)
                        >= self.integration.at(q)
            }
        &&& d == 4 ==> forall|q: CellPos|
            tile_bounds(q) && adjacent(c, q) ==> #[trigger] self.integration.at(q)
                >= self.integration.at(c)
    }

    /// The whole direction grid is derived from the integration grid.
    pub open spec fn flow_consistent(self) -> bool {
        forall|c: CellPos| tile_bounds(c) ==> #[trigger] self.flow_ok_at(c)
    }

    /// Remaining relaxation work: every frontier sweep that still improves
    /// a cell strictly lowers it.
    pub open spec fn relax_measure(self) -> int {
        sum_i32(self.integration.arr@) + self.to_visit@.len()
    }

    /// A fresh tile: uniform cost 1, integration saturated, directions "no
    /// movement", empty frontier, phase *Created*.
    pub fn new(objective: CellPos) -> (r: FlowField)
        requires
            tile_bounds(objective),
        ensures
            r.wf(),
            r.objective == objective,
            r.state is Created,
            r.skip_flow == false,
            r.to_visit@.len() == 0,
            forall|c: CellPos| tile_bounds(c) ==> #[trigger] r.cost.at(c) == 1,
            forall|c: CellPos| tile_bounds(c) ==> #[trigger] r.integration.at(c) == MAX_INTEGRATION,
            forall|c: CellPos| tile_bounds(c) ==> #[trigger] r.flow.at(c) == FLOW_NONE,
    {
        FlowField {
            cost: Field::new(1, GRID_SIZE, GRID_SIZE),
            integration: Field::new(MAX_INTEGRATION, GRID_SIZE, GRID_SIZE),
            flow: Field::new(FLOW_NONE, GRID_SIZE, GRID_SIZE),
            objective,
            to_visit: Vec::new(),
            state: FlowFieldState::Created,
            skip_flow: false,
        }
    }

    /// Discard the cost snapshot for a uniform one and return to *Created*,
    /// keeping the objective.
    pub fn reset(&mut self)
        requires
            old(self).wf(),
        ensures
            final(self).wf(),
            final(self).state is Created,
            final(self).objective == old(self).objective,
            final(self).skip_flow == old(self).skip_flow,
            final(self).integration == old(self).integration,
            final(self).flow == old(self).flow,
            final(self).to_visit == old(self).to_visit,
            forall|c: CellPos| tile_bounds(c) ==> #[trigger] final(self).cost.at(c) == 1,
    {
        self.cost = Field::new(1, GRID_SIZE, GRID_SIZE);
        self.state = FlowFieldState::Created;
    }

    /// Move the objective and restart the computation, performing one step
    /// at once so the field is never left stale between calls.
    pub fn set_objective(&mut self, objective: CellPos)
        requires
            old(self).wf(),
            tile_bounds(objective),
        ensures
            final(self).wf(),
            final(self).objective == objective,
            final(self).state is ComputingIntegration,
            final(self).objective_zeroed(),
            final(self).locally_sourced(),
            final(self).to_visit@ == seq![objective],
            final(self).cost == old(self).cost,
            final(self).skip_flow == old(self).skip_flow,
            final(self).flow == old(self).flow,
            frontier_covers(*final(self)),
            forall|c: CellPos|
                tile_bounds(c) && c != objective ==> #[trigger] final(self).integration.at(c)
                    == MAX_INTEGRATION,
    {
        self.objective = objective;
        self.state = FlowFieldState::Created;
        self.step();
    }

    /// Perform one bounded unit of work and report whether the tile is
    /// *Ready*. From *Created*, seed the integration grid and the frontier;
    /// from *ComputingIntegration*, relax the whole current frontier and
    /// advance once it stays empty; from *ComputingFlow*, derive the
    /// direction grid; at *Ready*, do nothing.
    pub fn step(&mut self) -> (done: bool)
        requires
            old(self).wf(),
        ensures
            final(self).wf(),
            final(self).cost == old(self).cost,
            final(self).objective == old(self).objective,
            final(self).skip_flow == old(self).skip_flow,
            done == (final(self).state is Ready),
            match old(self).state {
                FlowFieldState::Created => {
                    &&& final(self).state is ComputingIntegration
                    &&& final(self).objective_zeroed()
                    &&& final(self).locally_sourced()
                    &&& final(self).to_visit@ =~= seq![old(self).objective]
                    &&& final(self).flow == old(self).flow
                    &&& frontier_covers(*final(self))
                    &&& forall|c: CellPos|
                        tile_bounds(c) && c != old(self).objective
                            ==> #[trigger] final(self).integration.at(c) == MAX_INTEGRATION
                },
                FlowFieldState::ComputingIntegration => {
                    &&& (final(self).state is ComputingIntegration <==> final(self).to_visit@.len() > 0)
                    &&& (final(self).to_visit@.len() == 0 ==> final(self).state == (
                    if old(self).skip_flow {
                        FlowFieldState::Ready
                    } else {
                        FlowFieldState::ComputingFlow
                    }))
                    &&& final(self).flow == old(self).flow
                    &&& forall|m: int|
                        0 <= m < final(self).integration.arr@.len()
                            ==> #[trigger] final(self).integration.arr@[m] <= old(self).integration.arr@[m]
                    &&& (old(self).objective_zeroed() ==> final(self).objective_zeroed())
                    &&& (old(self).locally_sourced() ==> final(self).locally_sourced())
                    &&& (old(self).to_visit@.len() > 0 ==> final(self).relax_measure() < old(self).relax_measure())
                    &&& (old(self).to_visit@.len() == 0 ==> final(self).to_visit@.len() == 0)
                    &&& forall|c: CellPos|
                        tile_bounds(c) && old(self).cost.at(c) == 255
                            ==> final(self).integration.at(c) == old(self).integration.at(c)
                    &&& sweep_progress(*old(self), *final(self))
                    &&& sweep_sourced(*old(self), *final(self))
                    &&& (forall|k: int|
                        0 <= k < final(self).to_visit@.len() ==> final(self).integration.at(
                            #[trigger] final(self).to_visit@[k],
                        ) < old(self).integration.at(final(self).to_visit@[k]))
                    &&& (forall|c: CellPos|
                        tile_bounds(c) && #[trigger] final(self).integration.at(c) != old(
                            self,
                        ).integration.at(c) ==> final(self).to_visit@.contains(c))
                    &&& (frontier_covers(*old(self)) ==> frontier_covers(*final(self)))
                },
                FlowFieldState::ComputingFlow => {
                    &&& final(self).state is Ready
                    &&& final(self).integration == old(self).integration
                    &&& final(self).to_visit == old(self).to_visit
                    &&& final(self).flow_consistent()
                    &&& (old(self).objective_zeroed() ==> final(self).objective_zeroed())
                    &&& (old(self).locally_sourced() ==> final(self).locally_sourced())
                },
                FlowFieldState::Ready => *final(self) == *old(self),
            },
    {
        match self.state {
            FlowFieldState::Created => {
                self.integration = Field::new(MAX_INTEGRATION, GRID_SIZE, GRID_SIZE);
                self.integration.set(&self.objective, 0);
                let mut seed: Vec<CellPos> = Vec::new();
                seed.push(self.objective);
                self.to_visit = seed;
                self.state = FlowFieldState::ComputingIntegration;
                proof {
                    assert(self.to_visit@[0] == self.objective);
                    assert(self.to_visit@.contains(self.objective));
                    assert forall|v: CellPos, c: CellPos|
                        tile_bounds(v) && tile_bounds(c) && adjacent(v, c) && self.cost.at(c)
                            != 255 && (#[trigger] self.integration.at(v)) + (
                        self.cost.at(c) as int) * edge_cost(v, c) < MAX_INTEGRATION
                            && self.integration.at(v) + (self.cost.at(c) as int) * edge_cost(v, c)
                            < (#[trigger] self.integration.at(c)) implies self.to_visit@.contains(
                        v,
                    ) by {
                        crate::field::lemma_row_major_bounds(
                            GRID_SIZE as int,
                            GRID_SIZE as int,
                            v.i as int,
                            v.j as int,
                        );
                        if v != self.objective {
                            assert(self.integration.at(v) == MAX_INTEGRATION);
                        }
                    }
                }
            },
            FlowFieldState::ComputingIntegration => {
                self.step_integration();
                if self.to_visit.is_empty() {
                    self.state = if self.skip_flow {
                        FlowFieldState::Ready
                    } else {
                        FlowFieldState::ComputingFlow
                    };
                }
            },
            FlowFieldState::ComputingFlow => {
                self.step_flow();
            },
            FlowFieldState::Ready => {},
        }
        self.state == FlowFieldState::Ready
    }

    /// Run the step machine until the tile is *Ready*. A tile started from
    /// *Created* ends with the objective at 0 and every reached cell backed
    /// by a strictly smaller neighbor; unless the flow pass is skipped, the
    /// direction grid is consistent with the integration grid.
    pub fn run_to_ready(&mut self)
        requires
            old(self).wf(),
        ensures
            final(self).wf(),
            final(self).state is Ready,
            final(self).cost == old(self).cost,
            final(self).objective == old(self).objective,
            final(self).skip_flow == old(self).skip_flow,
            old(self).state is Created ==> final(self).objective_zeroed() && final(self).locally_sourced(),
            (old(self).state is Created && !old(self).skip_flow) ==> final(self).flow_consistent(),
            old(self).state is Created ==> (forall|c: CellPos|
                tile_bounds(c) && c != old(self).objective && final(self).cost.at(c) == 255
                    ==> final(self).integration.at(c) == MAX_INTEGRATION),
            old(self).state is Created ==> relaxation_stable(*final(self)),
            old(self).state is Created ==> final(self).to_visit@.len() == 0,
            (old(self).state is ComputingIntegration && frontier_covers(*old(self))) ==> (
            relaxation_stable(*final(self)) && final(self).to_visit@.len() == 0),
            old(self).state is ComputingIntegration ==> ((old(self).objective_zeroed() ==> final(self).objective_zeroed()) && (old(self).locally_sourced() ==> final(self).locally_sourced())),
    {
        proof {
            lemma_sum_nonneg(self.integration.arr@);
        }
        loop
            invariant
                self.wf(),
                self.cost == old(self).cost,
                self.objective == old(self).objective,
                self.skip_flow == old(self).skip_flow,
                old(self).state is Created ==> (self.state is Created || (self.objective_zeroed()
                    && self.locally_sourced())),
                (old(self).state is Created && !old(self).skip_flow && self.state is Ready)
                    ==> self.flow_consistent(),
                old(self).state is Created ==> (self.state is Created || (forall|c: CellPos|
                    tile_bounds(c) && c != old(self).objective && self.cost.at(c) == 255
                        ==> self.integration.at(c) == MAX_INTEGRATION)),
                old(self).state is Created ==> (self.state is Created || frontier_covers(*self)),
                old(self).state is Created ==> (self.state is Created || (
                self.state is ComputingIntegration || self.to_visit@.len() == 0)),
                (old(self).state is ComputingIntegration && frontier_covers(*old(self)))
                    ==> frontier_covers(*self),
                (old(self).state is ComputingIntegration && frontier_covers(*old(self))) ==> (
                self.state is ComputingIntegration || self.to_visit@.len() == 0),
                old(self).state is ComputingIntegration ==> ((old(self).objective_zeroed()
                    ==> self.objective_zeroed()) && (old(self).locally_sourced()
                    ==> self.locally_sourced())),
            ensures
                self.wf(),
                self.cost == old(self).cost,
                self.objective == old(self).objective,
                self.skip_flow == old(self).skip_flow,
                self.state is Ready,
                old(self).state is Created ==> (self.objective_zeroed()
                    && self.locally_sourced()),
                (old(self).state is Created && !old(self).skip_flow)
                    ==> self.flow_consistent(),
                old(self).state is Created ==> (forall|c: CellPos|
                    tile_bounds(c) && c != old(self).objective && self.cost.at(c) == 255
                        ==> self.integration.at(c) == MAX_INTEGRATION),
                old(self).state is Created ==> frontier_covers(*self) && self.to_visit@.len()
                    == 0 && relaxation_stable(*self),
                (old(self).state is ComputingIntegration && frontier_covers(*old(self))) ==> (
                frontier_covers(*self) && self.to_visit@.len() == 0 && relaxation_stable(*self)),
                old(self).state is ComputingIntegration ==> ((old(self).objective_zeroed()
                    ==> self.objective_zeroed()) && (old(self).locally_sourced()
                    ==> self.locally_sourced())),
            decreases phase_rank(self.state), self.relax_measure(),
        {
            let done = self.step();
            proof {
                lemma_sum_nonneg(self.integration.arr@);
            }
            if done {
                break ;
            }
        }
    }

    /// Relax the whole current frontier once: for each frontier cell,
    /// offer `integration + cost x distance` to each passable neighbor
    /// (cost 255 is a hard wall and is never relaxed into); a neighbor
    /// that improves and stays below the sentinel is updated and joins the
    /// next frontier.
    #[verifier::rlimit(100)]
    fn step_integration(&mut self)
        requires
            old(self).wf(),
        ensures
            final(self).wf(),
            final(self).cost == old(self).cost,
            final(self).flow == old(self).flow,
            final(self).objective == old(self).objective,
            final(self).state == old(self).state,
            final(self).skip_flow == old(self).skip_flow,
            forall|m: int|
                0 <= m < final(self).integration.arr@.len()
                    ==> #[trigger] final(self).integration.arr@[m] <= old(self).integration.arr@[m],
            old(self).objective_zeroed() ==> final(self).objective_zeroed(),
            old(self).locally_sourced() ==> final(self).locally_sourced(),
            sum_i32(final(self).integration.arr@) + final(self).to_visit@.len() <= sum_i32(
                old(self).integration.arr@,
            ),
            old(self).to_visit@.len() == 0 ==> final(self).to_visit@.len() == 0 && final(self).integration == old(self).integration,
            forall|c: CellPos|
                tile_bounds(c) && old(self).cost.at(c) == 255 ==> final(self).integration.at(c)
                    == old(self).integration.at(c),
            sweep_progress(*old(self), *final(self)),
            sweep_sourced(*old(self), *final(self)),
            forall|k: int|
                0 <= k < final(self).to_visit@.len() ==> final(self).integration.at(
                    #[trigger] final(self).to_visit@[k],
                ) < old(self).integration.at(final(self).to_visit@[k]),
            forall|c: CellPos|
                tile_bounds(c) && #[trigger] final(self).integration.at(c) != old(
                    self,
                ).integration.at(c) ==> final(self).to_visit@.contains(c),
            frontier_covers(*old(self)) ==> frontier_covers(*final(self)),
    {
        let mut visits: Vec<CellPos> = Vec::new();
        core::mem::swap(&mut self.to_visit, &mut visits);
        let ghost s0 = sum_i32(old(self).integration.arr@);
        let mut vi: usize = 0;
        while vi < visits.len()
            invariant
                self.wf(),
                self.cost == old(self).cost,
                self.flow == old(self).flow,
                self.objective == old(self).objective,
                self.state == old(self).state,
                self.skip_flow == old(self).skip_flow,
                vi <= visits@.len(),
                forall|k: int| 0 <= k < visits@.len() ==> tile_bounds(#[trigger] visits@[k]),
                old(self).to_visit@.len() == 0 ==> self.to_visit@.len() == 0
                    && self.integration == old(self).integration,
                visits@.len() == old(self).to_visit@.len(),
                forall|c: CellPos|
                    tile_bounds(c) && old(self).cost.at(c) == 255 ==> self.integration.at(c)
                        == old(self).integration.at(c),
                forall|m: int|
                    0 <= m < self.integration.arr@.len() ==> #[trigger] self.integration.arr@[m]
                        <= old(self).integration.arr@[m],
                old(self).objective_zeroed() ==> self.objective_zeroed(),
                old(self).locally_sourced() ==> self.locally_sourced(),
                sum_i32(self.integration.arr@) + self.to_visit@.len() <= s0,
                visits@ == old(self).to_visit@,
                forall|k: int, c: CellPos|
                    0 <= k < vi && tile_bounds(c) && adjacent(#[trigger] visits@[k], c) && old(
                        self,
                    ).cost.at(c) != 255 && relax_candidate(*old(self), visits@[k], c)
                        < MAX_INTEGRATION ==> #[trigger] self.integration.at(c) <= relax_candidate(
                        *old(self),
                        visits@[k],
                        c,
                    ),
                sweep_sourced(*old(self), *self),
                forall|k: int|
                    0 <= k < self.to_visit@.len() ==> self.integration.at(
                        #[trigger] self.to_visit@[k],
                    ) < old(self).integration.at(self.to_visit@[k]),
                forall|c: CellPos|
                    tile_bounds(c) && #[trigger] self.integration.at(c) != old(
                        self,
                    ).integration.at(c) ==> self.to_visit@.contains(c),
                frontier_covers(*old(self)) ==> (forall|v: CellPos, c: CellPos|
                    tile_bounds(v) && tile_bounds(c) && adjacent(v, c) && self.cost.at(c) != 255
                        && (#[trigger] self.integration.at(v)) + (self.cost.at(c) as int)
                        * edge_cost(v, c) < MAX_INTEGRATION && self.integration.at(v) + (
                    self.cost.at(c) as int) * edge_cost(v, c) < (
                    #[trigger] self.integration.at(c)) ==> self.to_visit@.contains(v) || (exists|
                        kk: int,
                    |
                        vi <= kk < visits@.len() && visits@[kk] == v)),
            decreases visits@.len() - vi,
        {
            let visit = visits[vi];
            let neighbors = self.cost.neighbors_with_distance(&visit);
            let current_integration = self.integration.get(&visit);
            proof {
                crate::field::lemma_row_major_bounds(
                    GRID_SIZE as int,
                    GRID_SIZE as int,
                    visit.i as int,
                    visit.j as int,
                );
            }
            let mut k: usize = 0;
            while k < neighbors.len()
                invariant
                    self.wf(),
                    self.cost == old(self).cost,
                    self.flow == old(self).flow,
                    self.objective == old(self).objective,
                    self.state == old(self).state,
                    self.skip_flow == old(self).skip_flow,
                    k <= neighbors@.len(),
                    tile_bounds(visit),
                    visit == visits@[vi as int],
                    vi < visits@.len(),
                    visits@ == old(self).to_visit@,
                    crate::field::neighbors_sound(neighbors@, visit, GRID_SIZE, GRID_SIZE),
                    crate::field::neighbors_complete(neighbors@, visit, GRID_SIZE, GRID_SIZE),
                    self.integration.at(visit) == current_integration,
                    0 <= current_integration <= MAX_INTEGRATION,
                    current_integration <= old(self).integration.at(visit),
                    forall|k2: int, c: CellPos|
                        0 <= k2 < vi && tile_bounds(c) && adjacent(#[trigger] visits@[k2], c)
                            && old(self).cost.at(c) != 255 && relax_candidate(
                            *old(self),
                            visits@[k2],
                            c,
                        ) < MAX_INTEGRATION ==> #[trigger] self.integration.at(c)
                            <= relax_candidate(*old(self), visits@[k2], c),
                    forall|t: int|
                        0 <= t < k && old(self).cost.at((#[trigger] neighbors@[t]).0) != 255
                            && relax_candidate(*old(self), visit, neighbors@[t].0)
                            < MAX_INTEGRATION ==> self.integration.at(neighbors@[t].0)
                            <= relax_candidate(*old(self), visit, neighbors@[t].0),
                    sweep_sourced(*old(self), *self),
                    forall|k2: int|
                        0 <= k2 < self.to_visit@.len() ==> self.integration.at(
                            #[trigger] self.to_visit@[k2],
                        ) < old(self).integration.at(self.to_visit@[k2]),
                    forall|c: CellPos|
                        tile_bounds(c) && #[trigger] self.integration.at(c) != old(
                            self,
                        ).integration.at(c) ==> self.to_visit@.contains(c),
                    forall|m: int|
                        0 <= m < self.integration.arr@.len() ==> #[trigger] self.integration.arr@[m]
                            <= old(self).integration.arr@[m],
                    old(self).objective_zeroed() ==> self.objective_zeroed(),
                    old(self).locally_sourced() ==> self.locally_sourced(),
                    sum_i32(self.integration.arr@) + self.to_visit@.len() <= s0,
                    forall|c: CellPos|
                        tile_bounds(c) && old(self).cost.at(c) == 255 ==> self.integration.at(c)
                            == old(self).integration.at(c),
                decreases neighbors@.len() - k,
            {
                let (neighbor, distance) = neighbors[k];
                proof {
                    crate::field::lemma_row_major_bounds(
                        GRID_SIZE as int,
                        GRID_SIZE as int,
                        neighbor.i as int,
                        neighbor.j as int,
                    );
                }
                let cost_of_neighbor = self.cost.get(&neighbor);
                if cost_of_neighbor == 255 {
                    // hard wall: never relaxed into
                } else {
                    let old_integration = self.integration.get(&neighbor);
                    proof {
                        assert(distance == 10 || distance == 14);
                        assert(1 <= cost_of_neighbor <= 254);
                        assert(10 <= (cost_of_neighbor as i32) * (distance as i32) <= 254 * 14)
                            by (nonlinear_arith)
                            requires
                                1 <= cost_of_neighbor <= 254,
                                10 <= distance <= 14,
                        ;
                    }
                    let new_integration = current_integration + (cost_of_neighbor as i32) * (
                    distance as i32);
                    if new_integration < MAX_INTEGRATION && new_integration < old_integration {
                        let ghost pre = *self;
                        self.integration.set(&neighbor, new_integration);
                        self.to_visit.push(neighbor);
                        proof {
                            lemma_sum_update(
                                pre.integration.arr@,
                                pre.integration.index_spec(neighbor),
                                new_integration,
                            );
                            assert(self.to_visit@.last() == neighbor);
                            assert(self.to_visit@.contains(neighbor));
                            assert forall|c: CellPos|
                                tile_bounds(c) && #[trigger] self.integration.at(c) != old(
                                    self,
                                ).integration.at(c) implies self.to_visit@.contains(c) by {
                                if c != neighbor {
                                    assert(pre.integration.at(c) == self.integration.at(c));
                                    let k0 = choose|k2: int|
                                        0 <= k2 < pre.to_visit@.len() && #[trigger] pre.to_visit@[k2]
                                            == c;
                                    assert(self.to_visit@[k0] == c);
                                }
                            }
                            assert forall|c: CellPos|
                                tile_bounds(c) && self.integration.at(c) != pre.integration.at(
                                    c,
                                ) implies c == neighbor by {}
                            if old(self).locally_sourced() {
                                assert forall|c: CellPos|
                                    tile_bounds(c) && #[trigger] self.integration.at(c)
                                        < MAX_INTEGRATION && c != self.objective implies exists|
                                    d: CellPos,
                                |
                                    tile_bounds(d) && adjacent(c, d)
                                        && #[trigger] self.integration.at(d)
                                        < self.integration.at(c) by {
                                    if c == neighbor {
                                        assert(adjacent(neighbor, visit));
                                        assert(self.integration.at(visit)
                                            < self.integration.at(neighbor));
                                    } else {
                                        assert(pre.integration.at(c) == self.integration.at(c));
                                        let d0 = choose|d: CellPos|
                                            tile_bounds(d) && adjacent(c, d)
                                                && #[trigger] pre.integration.at(d)
                                                < pre.integration.at(c);
                                        assert(self.integration.at(d0) <= pre.integration.at(d0));
                                    }
                                }
                            }
                        }
                    }
                }
                k = k + 1;
            }
            vi = vi + 1;
        }
    }

    /// Derive the direction grid from the integration grid in one pass and
    /// transition to *Ready*: each cell points at its strictly smallest
    /// neighbor, or stores "no movement" when no neighbor improves on the
    /// cell itself.
    fn step_flow(&mut self)
        requires
            old(self).wf(),
        ensures
            final(self).wf(),
            final(self).cost == old(self).cost,
            final(self).integration == old(self).integration,
            final(self).objective == old(self).objective,
            final(self).to_visit == old(self).to_visit,
            final(self).state is Ready,
            final(self).skip_flow == old(self).skip_flow,
            final(self).flow_consistent(),
    {
        self.state = FlowFieldState::Ready;
        let mut i: usize = 0;
        while i < GRID_SIZE
            invariant
                self.wf(),
                self.cost == old(self).cost,
                self.integration == old(self).integration,
                self.objective == old(self).objective,
                self.to_visit == old(self).to_visit,
                self.state is Ready,
                self.skip_flow == old(self).skip_flow,
                i <= GRID_SIZE,
                forall|c: CellPos|
                    tile_bounds(c) && (c.i < i) ==> #[trigger] self.flow_ok_at(c),
            decreases GRID_SIZE - i,
        {
            let mut j: usize = 0;
            while j < GRID_SIZE
                invariant
                    self.wf(),
                    self.cost == old(self).cost,
                    self.integration == old(self).integration,
                    self.objective == old(self).objective,
                    self.to_visit == old(self).to_visit,
                    self.state is Ready,
                    self.skip_flow == old(self).skip_flow,
                    i < GRID_SIZE,
                    j <= GRID_SIZE,
                    forall|c: CellPos|
                        tile_bounds(c) && (c.i < i || (c.i == i && c.j < j))
                            ==> #[trigger] self.flow_ok_at(c),
                decreases GRID_SIZE - j,
            {
                let cell = CellPos { i, j };
                let dir = self.pick_direction(&cell);
                let ghost pre = *self;
                self.flow.set(&cell, dir);
                proof {
                    assert forall|c: CellPos|
                        tile_bounds(c) && (c.i < i || (c.i == i && c.j < j + 1)) implies #[trigger] self.flow_ok_at(
                        c,
                    ) by {
                        crate::field::lemma_row_major_bounds(
                            GRID_SIZE as int,
                            GRID_SIZE as int,
                            c.i as int,
                            c.j as int,
                        );
                        if c == cell {
                            assert(self.flow.at(c) == dir);
                            if dir != 4 {
                                let q0 = choose|q: CellPos|
                                    {
                                        &&& tile_bounds(q)
                                        &&& #[trigger] flow_points_to(c, dir as int, q)
                                        &&& pre.integration.at(q) < pre.integration.at(c)
                                        &&& forall|q2: CellPos|
                                            tile_bounds(q2) && adjacent(c, q2)
                                                ==> #[trigger] pre.integration.at(q2)
                                                >= pre.integration.at(q)
                                    };
                                assert(tile_bounds(q0));
                                assert(flow_points_to(c, dir as int, q0));
                                assert(self.integration.at(q0) < self.integration.at(c));
                                assert forall|q2: CellPos|
                                    tile_bounds(q2) && adjacent(c, q2) implies #[trigger] self.integration.at(
                                    q2,
                                ) >= self.integration.at(q0) by {
                                    assert(pre.integration.at(q2) >= pre.integration.at(q0));
                                }
                                assert(exists|q: CellPos|
                                    {
                                        &&& tile_bounds(q)
                                        &&& #[trigger] flow_points_to(
                                            c,
                                            self.flow.at(c) as int,
                                            q,
                                        )
                                        &&& self.integration.at(q) < self.integration.at(c)
                                        &&& forall|q2: CellPos|
                                            tile_bounds(q2) && adjacent(c, q2)
                                                ==> #[trigger] self.integration.at(q2)
                                                >= self.integration.at(q)
                                    });
                            }
                            assert(self.flow_ok_at(c));
                        } else {
                            assert(self.flow.at(c) == pre.flow.at(c));
                            assert(pre.flow_ok_at(c));
                        }
                    }
                }
                j = j + 1;
            }
            i = i + 1;
        }
    }

    /// Scan the 8 neighbors of `cell` and encode the offset of the one
    /// with the strictly smallest integration, or "no movement" when none
    /// improves.
    fn pick_direction(&self, cell: &CellPos) -> (dir: i8)
        requires
            self.wf(),
            tile_bounds(*cell),
        ensures
            0 <= dir <= 8,
            dir != 4 ==> exists|q: CellPos|
                {
                    &&& tile_bounds(q)
                    &&& #[trigger] flow_points_to(*cell, dir as int, q)
                    &&& self.integration.at(q) < self.integration.at(*cell)
                    &&& forall|q2: CellPos|
                        tile_bounds(q2) && adjacent(*cell, q2) ==> #[trigger] self.integration.at(
                            q2,
                        ) >= self.integration.at(q)
                },
            dir == 4 ==> forall|q: CellPos|
                tile_bounds(q) && adjacent(*cell, q) ==> #[trigger] self.integration.at(q)
                    >= self.integration.at(*cell),
    {
        proof {
            crate::field::lemma_row_major_bounds(
                GRID_SIZE as int,
                GRID_SIZE as int,
                cell.i as int,
                cell.j as int,
            );
        }
        let own = self.integration.get(cell);
        let mut lowest = own;
        let mut dir: i8 = FLOW_NONE;
        let mut t: usize = 0;
        while t < 8
            invariant
                self.wf(),
                tile_bounds(*cell),
                t <= 8,
                own == self.integration.at(*cell),
                lowest <= own,
                dir == 4 ==> lowest == own,
                0 <= dir <= 8,
                dir != 4 ==> exists|q: CellPos|
                    tile_bounds(q) && #[trigger] flow_points_to(*cell, dir as int, q)
                        && self.integration.at(q) == lowest && lowest < own,
                forall|tp: int|
                    0 <= tp < t ==> match #[trigger] nth_neighbor(*cell, GRID_SIZE, GRID_SIZE, tp) {
                        Some(c) => self.integration.at(c.0) >= lowest,
                        None => true,
                    },
            decreases 8 - t,
        {
            let candidate = nth_neighbor_exec(cell.i, cell.j, GRID_SIZE, GRID_SIZE, t);
            match candidate {
                Some((q, _d)) => {
                    proof {
                        crate::field::lemma_row_major_bounds(
                            GRID_SIZE as int,
                            GRID_SIZE as int,
                            q.i as int,
                            q.j as int,
                        );
                    }
                    let current = self.integration.get(&q);
                    if current < lowest {
                        lowest = current;
                        let code_i = q.i + 1 - cell.i;
                        let code_j = q.j + 1 - cell.j;
                        dir = (code_i + code_j * 3) as i8;
                        proof {
                            lemma_code_decode(code_i as int, code_j as int);
                            assert(flow_points_to(*cell, dir as int, q));
                        }
                    }
                },
                None => {},
            }
            t = t + 1;
        }
        proof {
            assert forall|q: CellPos|
                tile_bounds(q) && adjacent(*cell, q) implies #[trigger] self.integration.at(q)
                >= lowest by {
                lemma_adjacent_is_candidate(*cell, GRID_SIZE, GRID_SIZE, q);
                let t0 = choose|tp: int|
                    0 <= tp < 8 && #[trigger] nth_neighbor(*cell, GRID_SIZE, GRID_SIZE, tp)
                        == Some((q, edge_cost(*cell, q) as i8));
            }
        }
        dir
    }
}

/// All tiles present in a composed tile table are well-formed.
pub open spec fn composed_tiles_wf(f: Field<Option<FlowField>>) -> bool {
    forall|c: CellPos|
        f.in_bounds(c) ==> match #[trigger] f.at(c) {
            Some(t) => t.wf(),
            None => true,
        }
}

/// `c` lies strictly inside the tile: all 8 of its neighbors are tile
/// cells.
pub open spec fn tile_interior(c: CellPos) -> bool {
    1 <= c.i < GRID_SIZE_MINUS && 1 <= c.j < GRID_SIZE_MINUS
}

/// The direction grid was derived against the neighbor tiles: every cell
/// holds a valid code, interior cells carry the full single-tile
/// guarantee, and a "no movement" cell has no improving in-tile neighbor.
pub open spec fn flow_derived_with_neighbors(t: FlowField) -> bool {
    &&& forall|q: CellPos| tile_bounds(q) ==> 0 <= #[trigger] t.flow.at(q) <= 8
    &&& forall|q: CellPos| tile_interior(q) ==> #[trigger] t.flow_ok_at(q)
    &&& forall|q: CellPos|
        tile_bounds(q) && #[trigger] t.flow.at(q) == 4 ==> (forall|q2: CellPos|
            tile_bounds(q2) && adjacent(q, q2) ==> #[trigger] t.integration.at(q2)
                >= t.integration.at(q))
}

impl FlowField {
    /// Recompute the direction grid with the up-to-8 adjacent tiles of the
    /// composed table supplied, so that a border cell's direction may point
    /// across the tile seam at a cell of a neighboring tile. `zx`, `zy` is
    /// this tile's own slot in the table; a missing neighbor simply
    /// contributes no candidate for its side. Cells strictly inside the
    /// tile see only their own tile and keep the single-tile guarantee.
    pub fn step_flow_with_neighbors(
        &mut self,
        computed: &Field<Option<FlowField>>,
        zx: usize,
        zy: usize,
    )
        requires
            old(self).wf(),
            computed.wf(),
            composed_tiles_wf(*computed),
            computed.width <= crate::field::COORD_LIMIT,
            computed.height <= crate::field::COORD_LIMIT,
            zx < computed.width,
            zy < computed.height,
        ensures
            final(self).wf(),
            final(self).cost == old(self).cost,
            final(self).integration == old(self).integration,
            final(self).objective == old(self).objective,
            final(self).to_visit == old(self).to_visit,
            final(self).state == old(self).state,
            final(self).skip_flow == old(self).skip_flow,
            forall|c: CellPos| tile_bounds(c) ==> 0 <= #[trigger] final(self).flow.at(c) <= 8,
            forall|c: CellPos| tile_interior(c) ==> #[trigger] final(self).flow_ok_at(c),
            forall|c: CellPos|
                tile_bounds(c) && #[trigger] final(self).flow.at(c) == 4 ==> (forall|q: CellPos|
                    tile_bounds(q) && adjacent(c, q) ==> #[trigger] final(self).integration.at(q)
                        >= final(self).integration.at(c)),
            flow_derived_with_neighbors(*final(self)),
    {
        let mut i: usize = 0;
        while i < GRID_SIZE
            invariant
                self.wf(),
                self.cost == old(self).cost,
                self.integration == old(self).integration,
                self.objective == old(self).objective,
                self.to_visit == old(self).to_visit,
                self.state == old(self).state,
                self.skip_flow == old(self).skip_flow,
                computed.wf(),
                composed_tiles_wf(*computed),
                computed.width <= crate::field::COORD_LIMIT,
                computed.height <= crate::field::COORD_LIMIT,
                zx < computed.width,
                zy < computed.height,
                i <= GRID_SIZE,
                forall|c: CellPos|
                    tile_bounds(c) && c.i < i ==> 0 <= #[trigger] self.flow.at(c) <= 8,
                forall|c: CellPos|
                    tile_interior(c) && c.i < i ==> #[trigger] self.flow_ok_at(c),
                forall|c: CellPos|
                    tile_bounds(c) && c.i < i && #[trigger] self.flow.at(c) == 4 ==> (forall|
                        q: CellPos,
                    |
                        tile_bounds(q) && adjacent(c, q) ==> #[trigger] self.integration.at(q)
                            >= self.integration.at(c)),
            decreases GRID_SIZE - i,
        {
            let mut j: usize = 0;
            while j < GRID_SIZE
                invariant
                    self.wf(),
                    self.cost == old(self).cost,
                    self.integration == old(self).integration,
                    self.objective == old(self).objective,
                    self.to_visit == old(self).to_visit,
                    self.state == old(self).state,
                    self.skip_flow == old(self).skip_flow,
                    computed.wf(),
                    composed_tiles_wf(*computed),
                    computed.width <= crate::field::COORD_LIMIT,
                    computed.height <= crate::field::COORD_LIMIT,
                    zx < computed.width,
                    zy < computed.height,
                    i < GRID_SIZE,
                    j <= GRID_SIZE,
                    forall|c: CellPos|
                        tile_bounds(c) && (c.i < i || (c.i == i && c.j < j)) ==> 0
                            <= #[trigger] self.flow.at(c) <= 8,
                    forall|c: CellPos|
                        tile_interior(c) && (c.i < i || (c.i == i && c.j < j))
                            ==> #[trigger] self.flow_ok_at(c),
                    forall|c: CellPos|
                        tile_bounds(c) && (c.i < i || (c.i == i && c.j < j))
                            && #[trigger] self.flow.at(c) == 4 ==> (forall|q: CellPos|
                            tile_bounds(q) && adjacent(c, q) ==> #[trigger] self.integration.at(q)
                                >= self.integration.at(c)),
                decreases GRID_SIZE - j,
            {
                let cell = CellPos { i, j };
                let dir = self.pick_direction_with_neighbors(&cell, computed, zx, zy);
                let ghost pre = *self;
                self.flow.set(&cell, dir);
                proof {
                    assert forall|c: CellPos|
                        tile_bounds(c) && (c.i < i || (c.i == i && c.j < j + 1)) implies 0
                        <= #[trigger] self.flow.at(c) <= 8 by {
                        crate::field::lemma_row_major_bounds(
                            GRID_SIZE as int,
                            GRID_SIZE as int,
                            c.i as int,
                            c.j as int,
                        );
                        if c != cell {
                            assert(self.flow.at(c) == pre.flow.at(c));
                        }
                    }
                    assert forall|c: CellPos|
                        tile_interior(c) && (c.i < i || (c.i == i && c.j < j + 1)) implies #[trigger] self.flow_ok_at(
                        c,
                    ) by {
                        crate::field::lemma_row_major_bounds(
                            GRID_SIZE as int,
                            GRID_SIZE as int,
                            c.i as int,
                            c.j as int,
                        );
                        if c == cell {
                            assert(self.flow.at(c) == dir);
                            if dir != 4 {
                                let q0 = choose|q: CellPos|
                                    {
                                        &&& tile_bounds(q)
                                        &&& #[trigger] flow_points_to(c, dir as int, q)
                                        &&& pre.integration.at(q) < pre.integration.at(c)
                                        &&& forall|q2: CellPos|
                                            tile_bounds(q2) && adjacent(c, q2)
                                                ==> #[trigger] pre.integration.at(q2)
                                                >= pre.integration.at(q)
                                    };
                                assert forall|q2: CellPos|
                                    tile_bounds(q2) && adjacent(c, q2) implies #[trigger] self.integration.at(
                                    q2,
                                ) >= self.integration.at(q0) by {
                                    assert(pre.integration.at(q2) >= pre.integration.at(q0));
                                }
                            }
                            assert(self.flow_ok_at(c));
                        } else {
                            assert(self.flow.at(c) == pre.flow.at(c));
                            assert(pre.flow_ok_at(c));
                        }
                    }
                    assert forall|c: CellPos|
                        tile_bounds(c) && (c.i < i || (c.i == i && c.j < j + 1))
                            && #[trigger] self.flow.at(c) == 4 implies (forall|q: CellPos|
                        tile_bounds(q) && adjacent(c, q) ==> #[trigger] self.integration.at(q)
                            >= self.integration.at(c)) by {
                        crate::field::lemma_row_major_bounds(
                            GRID_SIZE as int,
                            GRID_SIZE as int,
                            c.i as int,
                            c.j as int,
                        );
                        if c != cell {
                            assert(self.flow.at(c) == pre.flow.at(c));
                        }
                    }
                }
                j = j + 1;
            }
            i = i + 1;
        }
    }

    /// Scan the 8 neighbors of `cell`, looking across the tile seam into
    /// the supplied composed table where an offset leaves this tile, and
    /// encode the offset of the strictly smallest value found.
    fn pick_direction_with_neighbors(
        &self,
        cell: &CellPos,
        computed: &Field<Option<FlowField>>,
        zx: usize,
        zy: usize,
    ) -> (dir: i8)
        requires
            self.wf(),
            tile_bounds(*cell),
            computed.wf(),
            composed_tiles_wf(*computed),
            computed.width <= crate::field::COORD_LIMIT,
            computed.height <= crate::field::COORD_LIMIT,
            zx < computed.width,
            zy < computed.height,
        ensures
            0 <= dir <= 8,
            tile_interior(*cell) ==> (dir != 4 ==> exists|q: CellPos|
                {
                    &&& tile_bounds(q)
                    &&& #[trigger] flow_points_to(*cell, dir as int, q)
                    &&& self.integration.at(q) < self.integration.at(*cell)
                    &&& forall|q2: CellPos|
                        tile_bounds(q2) && adjacent(*cell, q2) ==> #[trigger] self.integration.at(
                            q2,
                        ) >= self.integration.at(q)
                }),
            dir == 4 ==> forall|q: CellPos|
                tile_bounds(q) && adjacent(*cell, q) ==> #[trigger] self.integration.at(q)
                    >= self.integration.at(*cell),
    {
        proof {
            crate::field::lemma_row_major_bounds(
                GRID_SIZE as int,
                GRID_SIZE as int,
                cell.i as int,
                cell.j as int,
            );
        }
        let own = self.integration.get(cell);
        let mut lowest = own;
        let mut dir: i8 = FLOW_NONE;
        let mut di: usize = 0;
        while di < 3
            invariant
                self.wf(),
                tile_bounds(*cell),
                computed.wf(),
                composed_tiles_wf(*computed),
                computed.width <= crate::field::COORD_LIMIT,
                computed.height <= crate::field::COORD_LIMIT,
                zx < computed.width,
                zy < computed.height,
                di <= 3,
                own == self.integration.at(*cell),
                lowest <= own,
                0 <= dir <= 8,
                dir == 4 ==> lowest == own,
                tile_interior(*cell) ==> (dir != 4 ==> exists|q: CellPos|
                    tile_bounds(q) && #[trigger] flow_points_to(*cell, dir as int, q)
                        && self.integration.at(q) == lowest && lowest < own),
                forall|q: CellPos|
                    tile_bounds(q) && adjacent(*cell, q) && q.i + 1 < cell.i + di
                        ==> #[trigger] self.integration.at(q) >= lowest,
            decreases 3 - di,
        {
            let mut dj: usize = 0;
            while dj < 3
                invariant
                    self.wf(),
                    tile_bounds(*cell),
                    computed.wf(),
                    composed_tiles_wf(*computed),
                    computed.width <= crate::field::COORD_LIMIT,
                    computed.height <= crate::field::COORD_LIMIT,
                    zx < computed.width,
                    zy < computed.height,
                    di < 3,
                    dj <= 3,
                    own == self.integration.at(*cell),
                    lowest <= own,
                    0 <= dir <= 8,
                    dir == 4 ==> lowest == own,
                    tile_interior(*cell) ==> (dir != 4 ==> exists|q: CellPos|
                        tile_bounds(q) && #[trigger] flow_points_to(*cell, dir as int, q)
                            && self.integration.at(q) == lowest && lowest < own),
                    forall|q: CellPos|
                        tile_bounds(q) && adjacent(*cell, q) && (q.i + 1 < cell.i + di || (q.i + 1
                            == cell.i + di && q.j + 1 < cell.j + dj))
                            ==> #[trigger] self.integration.at(q) >= lowest,
                decreases 3 - dj,
            {
                if di == 1 && dj == 1 {
                    dj = dj + 1;
                    continue ;
                }
                let ni_plus = cell.i + di;
                let nj_plus = cell.j + dj;
                if ni_plus >= 1 && ni_plus < GRID_SIZE + 1 && nj_plus >= 1 && nj_plus < GRID_SIZE
                    + 1 {
                    let q = CellPos { i: ni_plus - 1, j: nj_plus - 1 };
                    proof {
                        crate::field::lemma_row_major_bounds(
                            GRID_SIZE as int,
                            GRID_SIZE as int,
                            q.i as int,
                            q.j as int,
                        );
                    }
                    let current = self.integration.get(&q);
                    if current < lowest {
                        lowest = current;
                        dir = (di + dj * 3) as i8;
                        proof {
                            lemma_code_decode(di as int, dj as int);
                            assert(flow_points_to(*cell, dir as int, q));
                        }
                    }
                } else {
                    proof {
                        assert(!tile_interior(*cell));
                    }
                    let ii = cell.i as i64;
                    let jj = cell.j as i64;
                    let dii: i64 = di as i64 - 1;
                    let djj: i64 = dj as i64 - 1;
                    let ndi: i64 = if ii + dii < 0 {
                        -1
                    } else if ii + dii >= GRID_SIZE as i64 {
                        1
                    } else {
                        0
                    };
                    let ndj: i64 = if jj + djj < 0 {
                        -1
                    } else if jj + djj >= GRID_SIZE as i64 {
                        1
                    } else {
                        0
                    };
                    let factor_i: i64 = if (ii == 0 && dii == -1) || (ii == GRID_SIZE_MINUS as i64
                        && dii == 1) {
                        2
                    } else {
                        1
                    };
                    let factor_j: i64 = if (jj == 0 && djj == -1) || (jj == GRID_SIZE_MINUS as i64
                        && djj == 1) {
                        2
                    } else {
                        1
                    };
                    proof {
                        assert(-2 <= dii * factor_i <= 2 && -2 <= djj * factor_j <= 2)
                            by (nonlinear_arith)
                            requires
                                -1 <= dii <= 1,
                                -1 <= djj <= 1,
                                1 <= factor_i <= 2,
                                1 <= factor_j <= 2,
                        ;
                    }
                    let ri = ((ii + dii * factor_i + GRID_SIZE as i64) % GRID_SIZE as i64) as usize;
                    let rj = ((jj + djj * factor_j + GRID_SIZE as i64) % GRID_SIZE as i64) as usize;
                    let zxn = zx as i64 + ndi;
                    let zyn = zy as i64 + ndj;
                    if zxn >= 0 && zyn >= 0 && zxn < computed.width as i64 && zyn
                        < computed.height as i64 {
                        let zc = CellPos { i: zxn as usize, j: zyn as usize };
                        match computed.get_ref(&zc) {
                            Some(neighbor_tile) => {
                                proof {
                                    assert(computed.at(zc) matches Some(t) && t.wf());
                                    crate::field::lemma_row_major_bounds(
                                        GRID_SIZE as int,
                                        GRID_SIZE as int,
                                        ri as int,
                                        rj as int,
                                    );
                                }
                                let current = neighbor_tile.integration.get(
                                    &CellPos { i: ri, j: rj },
                                );
                                if current < lowest {
                                    lowest = current;
                                    dir = (di + dj * 3) as i8;
                                }
                            },
                            None => {},
                        }
                    }
                }
                dj = dj + 1;
            }
            di = di + 1;
        }
        proof {
            assert forall|q: CellPos|
                tile_bounds(q) && adjacent(*cell, q) implies #[trigger] self.integration.at(q)
                >= lowest by {
                assert(q.i + 1 < cell.i + 3);
            }
        }
        dir
    }
}

/// Every reached non-objective cell of a locally sourced, flow-consistent
/// tile stores a real direction, and that direction names a neighbor with
/// strictly smaller integration.
pub proof fn lemma_flow_points_downhill(f: FlowField, c: CellPos)
    requires
        f.wf(),
        f.flow_consistent(),
        f.locally_sourced(),
        tile_bounds(c),
        f.integration.at(c) < MAX_INTEGRATION,
        c != f.objective,
    ensures
        f.flow.at(c) != 4,
        exists|q: CellPos|
            tile_bounds(q) && #[trigger] flow_points_to(c, f.flow.at(c) as int, q)
                && f.integration.at(q) < f.integration.at(c),
{
    assert(f.flow_ok_at(c));
    if f.flow.at(c) == 4 {
        let d0 = choose|d: CellPos|
            tile_bounds(d) && adjacent(c, d) && #[trigger] f.integration.at(d) < f.integration.at(
                c,
            );
        assert(f.integration.at(d0) >= f.integration.at(c));
    }
}

} // verus!
