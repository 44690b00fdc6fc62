//! Incremental grid-wide search.
//!
//! [`AStarCompute`] is a resumable state machine: each [`AStarCompute::step`]
//! call performs exactly one node expansion and returns the updated state.
//! The search weighs a cell of cost 255 as a near-infinite wall weight
//! rather than excluding it, overweights the heuristic (`f = g + 2h`) for
//! speed over global optimality, and never re-opens a settled cell.
//!
//! Every node owns a boxed copy of its parent, forming a chain rooted at
//! the start cell; path reconstruction walks this chain from the target
//! back to the start and reverses it.

use crate::field::{
    adjacent, dist1, edge_cost, neighbors_with_distance, octile, CellPos, Field, COORD_LIMIT,
};
use vstd::prelude::*;

verus! {

/// Weight that a cell of cost 255 contributes per edge: high enough that
/// the search crosses a wall only when no cheaper route exists at all.
pub const WALL_WEIGHT: i64 = 255000;

/// Largest amount one expansion can add to a node's accumulated cost: a
/// diagonal edge (14) into a wall-weighted cell.
pub const STEP_MAX: i64 = 14 * WALL_WEIGHT;

/// One search node: a cell, its accumulated cost `g`, its heuristic `h`,
/// and an owned link to the node it was expanded from.
pub struct AStarNode {
    pub cell_pos: CellPos,
    pub g: i64,
    pub h: i64,
    pub parent: Option<Box<AStarNode>>,
}

/// The parent chain is rooted at `from` with accumulated cost 0, and `g`
/// never decreases along it.
pub open spec fn chain_wf(n: AStarNode, from: CellPos) -> bool
    decreases n,
{
    match n.parent {
        None => n.cell_pos == from && n.g == 0,
        Some(p) => n.g >= p.g && chain_wf(*p, from),
    }
}

/// Weight a cell's cost contributes per edge entering it: 255 is a
/// near-infinite wall weight rather than an exclusion.
pub open spec fn wall_weight(c: u8) -> int {
    if c == 255 {
        255000
    } else {
        c as int
    }
}

/// Each link of the chain steps to an adjacent cell and pays exactly that
/// cell's weighted cost times the octile edge cost.
pub open spec fn chain_linked(n: AStarNode, cost: Field<u8>) -> bool
    decreases n,
{
    match n.parent {
        None => true,
        Some(p) => {
            &&& adjacent(p.cell_pos, n.cell_pos)
            &&& n.g == p.g + edge_cost(p.cell_pos, n.cell_pos) * wall_weight(
                cost.at(n.cell_pos),
            )
            &&& chain_linked(*p, cost)
        },
    }
}

/// Along a linked chain, consecutive listed cells are adjacent and each
/// accumulated cost is the previous one plus the exact edge payment.
pub proof fn lemma_chain_linked_steps(n: AStarNode, cost: Field<u8>, k: int)
    requires
        chain_linked(n, cost),
        0 <= k < chain_cells(n).len() - 1,
    ensures
        chain_gs(n).len() == chain_cells(n).len(),
        adjacent(chain_cells(n)[k], chain_cells(n)[k + 1]),
        chain_gs(n)[k + 1] == chain_gs(n)[k] + edge_cost(chain_cells(n)[k], chain_cells(n)[k + 1])
            * wall_weight(cost.at(chain_cells(n)[k + 1])),
    decreases n,
{
    match n.parent {
        None => {},
        Some(p) => {
            if k < chain_cells(n).len() - 2 {
                lemma_chain_linked_steps(*p, cost, k);
            } else {
                lemma_chain_lengths(*p);
            }
        },
    }
}

/// The cell and cost listings of a chain have the same length.
pub proof fn lemma_chain_lengths(n: AStarNode)
    ensures
        chain_gs(n).len() == chain_cells(n).len(),
    decreases n,
{
    match n.parent {
        None => {},
        Some(p) => {
            lemma_chain_lengths(*p);
        },
    }
}

/// The cells of the parent chain, in root-to-node order.
pub open spec fn chain_cells(n: AStarNode) -> Seq<CellPos>
    decreases n,
{
    match n.parent {
        None => seq![n.cell_pos],
        Some(p) => chain_cells(*p).push(n.cell_pos),
    }
}

/// The accumulated costs of the parent chain, in root-to-node order.
pub open spec fn chain_gs(n: AStarNode) -> Seq<i64>
    decreases n,
{
    match n.parent {
        None => seq![n.g],
        Some(p) => chain_gs(*p).push(n.g),
    }
}

/// Every cell on the parent chain is a cell of the grid.
pub open spec fn chain_in_bounds(n: AStarNode, cost: Field<u8>) -> bool
    decreases n,
{
    match n.parent {
        None => cost.in_bounds(n.cell_pos),
        Some(p) => cost.in_bounds(n.cell_pos) && chain_in_bounds(*p, cost),
    }
}

/// The cells listed by `chain_cells` are exactly the chain's cells, so a
/// chain that stays on the grid yields a path that stays on the grid.
pub proof fn lemma_chain_cells_in_bounds(n: AStarNode, cost: Field<u8>)
    requires
        chain_in_bounds(n, cost),
    ensures
        forall|k: int|
            0 <= k < chain_cells(n).len() ==> cost.in_bounds(#[trigger] chain_cells(n)[k]),
    decreases n,
{
    match n.parent {
        None => {
            assert(chain_cells(n) =~= seq![n.cell_pos]);
        },
        Some(p) => {
            lemma_chain_cells_in_bounds(*p, cost);
            assert forall|k: int| 0 <= k < chain_cells(n).len() implies cost.in_bounds(
                #[trigger] chain_cells(n)[k],
            ) by {
                if k < chain_cells(n).len() - 1 {
                    assert(chain_cells(n)[k] == chain_cells(*p)[k]);
                } else {
                    assert(chain_cells(n)[k] == n.cell_pos);
                }
            }
        },
    }
}

/// The parent cells of `n`, from the immediate parent out to the root.
pub open spec fn chain_parents_rev(n: AStarNode) -> Seq<CellPos>
    decreases n,
{
    match n.parent {
        None => seq![],
        Some(p) => seq![p.cell_pos] + chain_parents_rev(*p),
    }
}

/// Shape of a well-formed chain: cells and costs run in parallel from the
/// start cell (cost 0) to the node itself.
pub proof fn lemma_chain_shape(n: AStarNode, from: CellPos)
    requires
        chain_wf(n, from),
    ensures
        chain_cells(n).len() >= 1,
        chain_gs(n).len() == chain_cells(n).len(),
        chain_cells(n)[0] == from,
        chain_cells(n).last() == n.cell_pos,
        chain_gs(n)[0] == 0,
        chain_gs(n).last() == n.g,
    decreases n,
{
    match n.parent {
        None => {},
        Some(p) => {
            lemma_chain_shape(*p, from);
        },
    }
}

/// Accumulated cost is non-decreasing along a well-formed chain, and so
/// along the path reconstructed from it.
pub proof fn lemma_chain_g_monotone(n: AStarNode, from: CellPos, x: int, y: int)
    requires
        chain_wf(n, from),
        0 <= x <= y < chain_gs(n).len(),
    ensures
        chain_gs(n)[x] <= chain_gs(n)[y],
    decreases n,
{
    match n.parent {
        None => {},
        Some(p) => {
            if y < chain_gs(n).len() - 1 {
                lemma_chain_g_monotone(*p, from, x, y);
            } else {
                if x < y {
                    lemma_chain_shape(*p, from);
                    lemma_chain_g_monotone(*p, from, x, y - 1);
                }
            }
        },
    }
}

/// The node cell followed by the parent cells is the chain reversed.
pub proof fn lemma_chain_rev(n: AStarNode)
    ensures
        (seq![n.cell_pos] + chain_parents_rev(n)).len() == chain_cells(n).len(),
        forall|m: int|
            0 <= m < chain_cells(n).len() ==> (seq![n.cell_pos] + chain_parents_rev(n))[m]
                == chain_cells(n)[chain_cells(n).len() - 1 - m],
    decreases n,
{
    match n.parent {
        None => {},
        Some(p) => {
            lemma_chain_rev(*p);
            let full = seq![n.cell_pos] + chain_parents_rev(n);
            let fullp = seq![p.cell_pos] + chain_parents_rev(*p);
            assert forall|m: int| 0 <= m < chain_cells(n).len() implies full[m] == chain_cells(
                n,
            )[chain_cells(n).len() - 1 - m] by {
                if m > 0 {
                    assert(full[m] == fullp[m - 1]);
                }
            }
        },
    }
}

impl AStarNode {
    /// Priority of a node: accumulated cost plus twice the heuristic. The
    /// overweighted heuristic trades global optimality for speed.
    pub open spec fn spec_f(self) -> int {
        self.g + 2 * self.h
    }

    /// Priority from raw `g` and `h` values.
    pub fn f_static(g: i64, h: i64) -> (r: i64)
        requires
            0 <= g,
            0 <= h,
            g + 2 * h <= i64::MAX,
        ensures
            r == g + 2 * h,
    {
        g + h * 2
    }

    /// Priority of this node.
    pub fn f(&self) -> (r: i64)
        requires
            0 <= self.g,
            0 <= self.h,
            self.g + 2 * self.h <= i64::MAX,
        ensures
            r == self.spec_f(),
    {
        AStarNode::f_static(self.g, self.h)
    }
}

impl Clone for AStarNode {
    /// Deep copy of the node and its whole parent chain.
    fn clone(&self) -> (r: Self)
        ensures
            r == *self,
        decreases *self,
    {
        AStarNode {
            cell_pos: self.cell_pos,
            g: self.g,
            h: self.h,
            parent: match &self.parent {
                None => None,
                Some(p) => Some(Box::new((**p).clone())),
            },
        }
    }
}

/// Expansion status of one cell: undiscovered, on the open list with a
/// recorded priority, or settled.
#[derive(Copy, Clone, Debug, PartialEq, Eq, Structural)]
pub enum NodeState {
    Open(i64),
    Closed,
    Unknown,
}

/// Number of settled cells in a status array.
pub open spec fn count_closed(s: Seq<NodeState>) -> int
    decreases s.len(),
{
    if s.len() == 0 {
        0
    } else {
        count_closed(s.drop_last()) + if s.last() is Closed {
            1int
        } else {
            0int
        }
    }
}

/// Number of undiscovered cells in a status array.
pub open spec fn count_unknown(s: Seq<NodeState>) -> int
    decreases s.len(),
{
    if s.len() == 0 {
        0
    } else {
        count_unknown(s.drop_last()) + if s.last() is Unknown {
            1int
        } else {
            0int
        }
    }
}

/// Both counts lie between 0 and the array length.
pub proof fn lemma_counts_bounds(s: Seq<NodeState>)
    ensures
        0 <= count_closed(s) <= s.len(),
        0 <= count_unknown(s) <= s.len(),
    decreases s.len(),
{
    if s.len() > 0 {
        lemma_counts_bounds(s.drop_last());
    }
}

/// How a single update moves the two counts.
pub proof fn lemma_counts_update(s: Seq<NodeState>, i: int, v: NodeState)
    requires
        0 <= i < s.len(),
    ensures
        count_closed(s.update(i, v)) == count_closed(s) - (if s[i] is Closed {
            1int
        } else {
            0int
        }) + (if v is Closed {
            1int
        } else {
            0int
        }),
        count_unknown(s.update(i, v)) == count_unknown(s) - (if s[i] is Unknown {
            1int
        } else {
            0int
        }) + (if v is Unknown {
            1int
        } else {
            0int
        }),
    decreases s.len(),
{
    let s2 = s.update(i, v);
    if i == s.len() - 1 {
        assert(s2.drop_last() =~= s.drop_last());
    } else {
        lemma_counts_update(s.drop_last(), i, v);
        assert(s2.drop_last() =~= s.drop_last().update(i, v));
        assert(s2.last() == s.last());
    }
}

/// A status array holding only `Unknown` has as many unknown cells as
/// entries and no settled ones.
pub proof fn lemma_counts_all_unknown(s: Seq<NodeState>)
    requires
        forall|m: int| 0 <= m < s.len() ==> s[m] is Unknown,
    ensures
        count_unknown(s) == s.len(),
        count_closed(s) == 0,
    decreases s.len(),
{
    if s.len() > 0 {
        lemma_counts_all_unknown(s.drop_last());
    }
}

/// Terminal outcome of a finished search: the requested endpoints, the
/// reconstructed start-to-target path, and an echo of the cost grid the
/// search ran on.
pub struct SearchResult {
    pub from: CellPos,
    pub to: CellPos,
    pub path: Vec<CellPos>,
    pub cost: Field<u8>,
    pub chain: Ghost<AStarNode>,
}

impl SearchResult {
    /// The path is the cell sequence of a well-formed chain from `from`
    /// whose final node sits on `to`.
    pub open spec fn wf(self) -> bool {
        &&& self.cost.wf()
        &&& self.cost.width <= COORD_LIMIT
        &&& self.cost.height <= COORD_LIMIT
        &&& self.cost.in_bounds(self.from)
        &&& self.cost.in_bounds(self.to)
        &&& chain_wf(self.chain@, self.from)
        &&& chain_in_bounds(self.chain@, self.cost)
        &&& chain_linked(self.chain@, self.cost)
        &&& self.chain@.cell_pos == self.to
        &&& self.path@ == chain_cells(self.chain@)
    }

    /// Every cell of the path is a cell of the grid the search ran on.
    pub proof fn lemma_path_in_bounds(self)
        requires
            self.wf(),
        ensures
            forall|k: int|
                0 <= k < self.path@.len() ==> self.cost.in_bounds(#[trigger] self.path@[k]),
    {
        lemma_chain_cells_in_bounds(self.chain@, self.cost);
    }
}

/// A reconstructed path starts at the requested start cell and ends at the
/// requested target cell.
pub proof fn lemma_path_endpoints(r: SearchResult)
    requires
        r.wf(),
    ensures
        r.path@.len() >= 1,
        r.path@[0] == r.from,
        r.path@.last() == r.to,
{
    lemma_chain_shape(r.chain@, r.from);
}

/// Consecutive cells of a reconstructed path are adjacent, and each step
/// pays exactly the entered cell's weighted cost times the octile edge
/// cost; with cost 0 at the start cell, the accumulated costs along the
/// path are fully determined by the cells.
pub proof fn lemma_path_steps(r: SearchResult, k: int)
    requires
        r.wf(),
        0 <= k < r.path@.len() - 1,
    ensures
        adjacent(r.path@[k], r.path@[k + 1]),
        chain_gs(r.chain@).len() == r.path@.len(),
        chain_gs(r.chain@)[k + 1] == chain_gs(r.chain@)[k] + edge_cost(
            r.path@[k],
            r.path@[k + 1],
        ) * wall_weight(r.cost.at(r.path@[k + 1])),
{
    lemma_chain_linked_steps(r.chain@, r.cost, k);
}

/// Accumulated cost is non-decreasing along the reconstructed path: the
/// costs recorded on the chain run in parallel with the path cells, start
/// at 0 and never decrease.
pub proof fn lemma_path_g_monotone(r: SearchResult, x: int, y: int)
    requires
        r.wf(),
        0 <= x <= y < r.path@.len(),
    ensures
        chain_gs(r.chain@).len() == r.path@.len(),
        chain_gs(r.chain@)[x] <= chain_gs(r.chain@)[y],
{
    lemma_chain_shape(r.chain@, r.from);
    lemma_chain_g_monotone(r.chain@, r.from, x, y);
}

/// One open node is sound: its chain is rooted at `from`, its cell is a
/// real cell currently marked open, and its accumulated cost is bounded by
/// the work done so far.
pub open spec fn node_ok(
    n: AStarNode,
    from: CellPos,
    cost: Field<u8>,
    states: Field<NodeState>,
) -> bool {
    &&& chain_wf(n, from)
    &&& chain_in_bounds(n, cost)
    &&& chain_linked(n, cost)
    &&& cost.in_bounds(n.cell_pos)
    &&& states.at(n.cell_pos) matches NodeState::Open(fv) && fv == n.g + 2 * n.h
    &&& 0 <= n.g
    &&& n.g <= STEP_MAX * count_closed(states.arr@)
    &&& 0 <= n.h <= 14 * COORD_LIMIT
    &&& n.g + 2 * n.h < 0x4000_0000_0000_0000
}

/// The open list holds sound nodes over pairwise distinct cells, sorted by
/// descending priority so that the lowest-priority node sits at the end.
pub open spec fn open_list_ok(
    open: Seq<AStarNode>,
    from: CellPos,
    cost: Field<u8>,
    states: Field<NodeState>,
) -> bool {
    &&& forall|k: int| 0 <= k < open.len() ==> node_ok(#[trigger] open[k], from, cost, states)
    &&& forall|k1: int, k2: int|
        0 <= k1 < k2 < open.len() ==> (#[trigger] open[k1]).cell_pos != (
        #[trigger] open[k2]).cell_pos
    &&& forall|k1: int, k2: int|
        0 <= k1 < k2 < open.len() ==> (#[trigger] open[k1]).spec_f() >= (
        #[trigger] open[k2]).spec_f()
}

/// One expansion recorded in the status grid: the expanded cell `e` went
/// from open to settled, some undiscovered neighbors of `e` became open
/// (with a recorded priority), and every other cell kept its status — in
/// particular a settled cell stays settled forever and no cell is ever
/// re-opened.
pub open spec fn states_expansion(
    pre: Field<NodeState>,
    post: Field<NodeState>,
    e: CellPos,
) -> bool {
    &&& pre.at(e) is Open
    &&& post.at(e) is Closed
    &&& forall|c: CellPos|
        c.i < pre.width && c.j < pre.height && c != e ==> ((#[trigger] post.at(c)) == pre.at(c)
            || (pre.at(c) is Unknown && post.at(c) is Open && adjacent(e, c)))
}

/// Frontier soundness of the expansion bookkeeping: every cell marked
/// open has a node on the open list, every settled cell has already
/// offered all its neighbors (none is still undiscovered), the target is
/// never settled (settling it ends the search instead), and the start has
/// been discovered. Together these rule out exhausting the open list: the
/// settled region could then no longer have a frontier, yet could not
/// have swallowed the target.
pub open spec fn states_progress_inv(
    from: CellPos,
    to: CellPos,
    cost: Field<u8>,
    open: Seq<AStarNode>,
    states: Field<NodeState>,
) -> bool {
    &&& forall|c: CellPos|
        cost.in_bounds(c) && #[trigger] states.at(c) is Open ==> exists|k: int|
            0 <= k < open.len() && (#[trigger] open[k]).cell_pos == c
    &&& forall|c: CellPos, q: CellPos|
        cost.in_bounds(c) && #[trigger] states.at(c) is Closed && cost.in_bounds(q) && adjacent(
            c,
            q,
        ) ==> !((#[trigger] states.at(q)) is Unknown)
    &&& !(states.at(to) is Closed)
    &&& !(states.at(from) is Unknown)
}

/// With no cell left open, the settled region is closed under adjacency,
/// so it covers every cell the grid connects to a settled one.
proof fn lemma_region_closed(states: Field<NodeState>, cost: Field<u8>, a: CellPos, b: CellPos)
    requires
        states.width == cost.width,
        states.height == cost.height,
        forall|c: CellPos| cost.in_bounds(c) ==> !((#[trigger] states.at(c)) is Open),
        forall|c: CellPos, q: CellPos|
            cost.in_bounds(c) && #[trigger] states.at(c) is Closed && cost.in_bounds(q)
                && adjacent(c, q) ==> !((#[trigger] states.at(q)) is Unknown),
        cost.in_bounds(a),
        cost.in_bounds(b),
        states.at(a) is Closed,
    ensures
        states.at(b) is Closed,
    decreases dist1(a.i as int, b.i as int) + dist1(a.j as int, b.j as int),
{
    if a != b {
        let i2: int = if a.i < b.i {
            a.i + 1
        } else if a.i > b.i {
            a.i - 1
        } else {
            a.i as int
        };
        let j2: int = if a.j < b.j {
            a.j + 1
        } else if a.j > b.j {
            a.j - 1
        } else {
            a.j as int
        };
        let a2 = CellPos { i: i2 as usize, j: j2 as usize };
        assert(adjacent(a, a2));
        assert(cost.in_bounds(a2));
        assert(!(states.at(a2) is Unknown));
        assert(states.at(a2) is Closed);
        lemma_region_closed(states, cost, a2, b);
    }
}

/// Insert a node into the open list at its sorted position: before every
/// queued node of equal or lower priority, so that among equal priorities
/// the earliest insertion is popped first.
fn insert_open(
    open: &mut Vec<AStarNode>,
    node: AStarNode,
    Ghost(from): Ghost<CellPos>,
    Ghost(cost): Ghost<Field<u8>>,
    Ghost(states): Ghost<Field<NodeState>>,
)
    requires
        open_list_ok(old(open)@, from, cost, states),
        node_ok(node, from, cost, states),
        forall|k: int| 0 <= k < old(open)@.len() ==> (#[trigger] old(open)@[k]).cell_pos != node.cell_pos,
    ensures
        open_list_ok(final(open)@, from, cost, states),
        final(open)@.len() == old(open)@.len() + 1,
        final(open)@.contains(node),
        forall|x: AStarNode| old(open)@.contains(x) ==> final(open)@.contains(x),
        forall|k: int|
            0 <= k < final(open)@.len() ==> final(open)@[k] == node || old(open)@.contains(
                #[trigger] final(open)@[k],
            ),
{
    let node_f = node.f();
    let mut idx: usize = 0;
    while idx < open.len() && open[idx].f() > node_f
        invariant
            idx <= open@.len(),
            open@ == old(open)@,
            node_f == node.spec_f(),
            forall|m: int| 0 <= m < idx ==> (#[trigger] open@[m]).spec_f() > node.spec_f(),
            open_list_ok(open@, from, cost, states),
            node_ok(node, from, cost, states),
        decreases open@.len() - idx,
    {
        idx = idx + 1;
    }
    proof {
        assert(idx == open@.len() || open@[idx as int].spec_f() <= node.spec_f());
        assert forall|m: int| idx <= m < open@.len() implies (#[trigger] open@[m]).spec_f()
            <= node.spec_f() by {
            if m > idx {
                assert(open@[idx as int].spec_f() >= open@[m].spec_f());
            }
        }
    }
    let ghost pre = open@;
    let ghost at = idx as int;
    open.insert(idx, node);
    proof {
        assert forall|m: int| 0 <= m < open@.len() implies node_ok(
            #[trigger] open@[m],
            from,
            cost,
            states,
        ) by {
            if m < at {
                assert(open@[m] == pre[m]);
            } else if m == at {
                assert(open@[m] == node);
            } else {
                assert(open@[m] == pre[m - 1]);
            }
        }
        assert forall|k1: int, k2: int| 0 <= k1 < k2 < open@.len() implies (
        #[trigger] open@[k1]).cell_pos != (#[trigger] open@[k2]).cell_pos by {
            if k1 < at {
                assert(open@[k1] == pre[k1]);
            } else if k1 == at {
                assert(open@[k1] == node);
            } else {
                assert(open@[k1] == pre[k1 - 1]);
            }
            if k2 < at {
                assert(open@[k2] == pre[k2]);
            } else if k2 == at {
                assert(open@[k2] == node);
            } else {
                assert(open@[k2] == pre[k2 - 1]);
            }
        }
        assert forall|k1: int, k2: int| 0 <= k1 < k2 < open@.len() implies (
        #[trigger] open@[k1]).spec_f() >= (#[trigger] open@[k2]).spec_f() by {
            if k1 < at {
                assert(open@[k1] == pre[k1]);
            } else if k1 == at {
                assert(open@[k1] == node);
            } else {
                assert(open@[k1] == pre[k1 - 1]);
            }
            if k2 < at {
                assert(open@[k2] == pre[k2]);
            } else if k2 == at {
                assert(open@[k2] == node);
            } else {
                assert(open@[k2] == pre[k2 - 1]);
            }
        }
        assert(open@[at] == node);
        assert(open@.contains(node));
        assert forall|x: AStarNode| pre.contains(x) implies open@.contains(x) by {
            let k0 = choose|k: int| 0 <= k < pre.len() && pre[k] == x;
            if k0 < at {
                assert(open@[k0] == x);
            } else {
                assert(open@[k0 + 1] == x);
            }
        }
        assert forall|k: int| 0 <= k < open@.len() implies open@[k] == node || pre.contains(
            #[trigger] open@[k],
        ) by {
            if k < at {
                assert(open@[k] == pre[k]);
                assert(pre.contains(pre[k]));
            } else if k > at {
                assert(open@[k] == pre[k - 1]);
                assert(pre.contains(pre[k - 1]));
            }
        }
    }
}

/// Walk the parent chain of `node`, appending each parent cell to `path`:
/// after the call, `path` has grown by the parent cells from the immediate
/// parent out to the start cell.
fn append_parent(node: &AStarNode, path: &mut Vec<CellPos>)
    ensures
        final(path)@ == old(path)@ + chain_parents_rev(*node),
    decreases *node,
{
    match &node.parent {
        None => {
            proof {
                assert(final(path)@ =~= old(path)@ + chain_parents_rev(*node));
            }
        },
        Some(p) => {
            path.push(p.cell_pos);
            append_parent(&**p, path);
            proof {
                assert(final(path)@ =~= old(path)@ + chain_parents_rev(*node));
            }
        },
    }
}

/// The incremental search: created with the endpoints and a snapshot of
/// the cost grid, it expands one node per step until the target is popped
/// (*Computed*) or the open list empties (*Unreachable*). Both terminal
/// states are idempotent under further steps.
pub enum AStarCompute {
    InitialData { from: CellPos, to: CellPos, cost: Field<u8> },
    Computing {
        from: CellPos,
        to: CellPos,
        cost: Field<u8>,
        open_nodes: Vec<AStarNode>,
        nodes_state: Field<NodeState>,
    },
    Computed(SearchResult),
    Unreachable { from: CellPos, to: CellPos, cost: Field<u8> },
}

impl AStarCompute {
    /// The cost grid is real and both endpoints are cells of it.
    pub open spec fn grid_ok(cost: Field<u8>, from: CellPos, to: CellPos) -> bool {
        &&& cost.wf()
        &&& cost.width * cost.height <= usize::MAX
        &&& cost.width <= COORD_LIMIT
        &&& cost.height <= COORD_LIMIT
        &&& cost.in_bounds(from)
        &&& cost.in_bounds(to)
    }

    /// Well-formedness of the whole state machine.
    pub open spec fn wf(self) -> bool {
        match self {
            AStarCompute::InitialData { from, to, cost } => Self::grid_ok(cost, from, to),
            AStarCompute::Computing { from, to, cost, open_nodes, nodes_state } => {
                &&& Self::grid_ok(cost, from, to)
                &&& nodes_state.wf()
                &&& nodes_state.width == cost.width
                &&& nodes_state.height == cost.height
                &&& open_list_ok(open_nodes@, from, cost, nodes_state)
                &&& forall|k: int|
                    0 <= k < open_nodes@.len() ==> (#[trigger] open_nodes@[k]).h == octile(
                        to,
                        open_nodes@[k].cell_pos,
                    )
            },
            AStarCompute::Computed(r) => r.wf(),
            AStarCompute::Unreachable { from, to, cost } => Self::grid_ok(cost, from, to),
        }
    }

    /// The requested start cell.
    pub open spec fn spec_from(self) -> CellPos {
        match self {
            AStarCompute::InitialData { from, .. } => from,
            AStarCompute::Computing { from, .. } => from,
            AStarCompute::Computed(r) => r.from,
            AStarCompute::Unreachable { from, .. } => from,
        }
    }

    /// The requested target cell.
    pub open spec fn spec_to(self) -> CellPos {
        match self {
            AStarCompute::InitialData { to, .. } => to,
            AStarCompute::Computing { to, .. } => to,
            AStarCompute::Computed(r) => r.to,
            AStarCompute::Unreachable { to, .. } => to,
        }
    }

    /// The cost grid the search runs on.
    pub open spec fn spec_cost(self) -> Field<u8> {
        match self {
            AStarCompute::InitialData { cost, .. } => cost,
            AStarCompute::Computing { cost, .. } => cost,
            AStarCompute::Computed(r) => r.cost,
            AStarCompute::Unreachable { cost, .. } => cost,
        }
    }

    /// A search that has reached its terminal state.
    pub open spec fn is_terminal(self) -> bool {
        self is Computed || self is Unreachable
    }

    /// The frontier invariant holds while the search is expanding; it is
    /// established by the first step and preserved by every later one, and
    /// it rules out the open list emptying before the target is found.
    pub open spec fn search_inv(self) -> bool {
        match self {
            AStarCompute::Computing { from, to, cost, open_nodes, nodes_state } =>
                states_progress_inv(from, to, cost, open_nodes@, nodes_state),
            _ => true,
        }
    }

    /// Strictly decreasing measure of the remaining work: every
    /// non-terminal step lowers it, so any run reaches a terminal state in
    /// finitely many steps.
    pub open spec fn measure(self) -> int {
        match self {
            AStarCompute::InitialData { cost, .. } => 9 * (cost.width * cost.height) + 3,
            AStarCompute::Computing { open_nodes, nodes_state, .. } => 9 * count_unknown(
                nodes_state.arr@,
            ) + open_nodes@.len() + 1,
            _ => 0,
        }
    }

    /// The requested endpoints, in whatever state the search is.
    pub fn from_to(&self) -> (r: (&CellPos, &CellPos))
        ensures
            *r.0 == self.spec_from(),
            *r.1 == self.spec_to(),
    {
        match self {
            AStarCompute::InitialData { from, to, .. } => (from, to),
            AStarCompute::Computing { from, to, .. } => (from, to),
            AStarCompute::Computed(r) => (&r.from, &r.to),
            AStarCompute::Unreachable { from, to, .. } => (from, to),
        }
    }

    /// Perform one unit of work: seed the open list, or expand the
    /// lowest-priority open node. Terminal states are returned unchanged.
    pub fn step(self) -> (r: Self)
        requires
            self.wf(),
        ensures
            r.wf(),
            r.spec_from() == self.spec_from(),
            r.spec_to() == self.spec_to(),
            r.spec_cost() == self.spec_cost(),
            self.is_terminal() ==> r == self,
            self is InitialData ==> r is Computing,
            self is Computing ==> (r is Computing || r is Computed || r is Unreachable),
            !self.is_terminal() ==> r.measure() < self.measure(),
            (self matches AStarCompute::Computing { open_nodes, .. } && open_nodes@.len() == 0)
                ==> r is Unreachable,
            self.search_inv() ==> r.search_inv(),
            (self is Computing && self.search_inv()) ==> !(r is Unreachable),
            self matches AStarCompute::InitialData { from, to, cost } ==> (r matches
                AStarCompute::Computing { open_nodes, nodes_state, .. } ==> {
                &&& open_nodes@.len() == 1
                &&& open_nodes@[0].cell_pos == from
                &&& open_nodes@[0].g == 0
                &&& open_nodes@[0].h == octile(from, to)
                &&& open_nodes@[0].parent is None
                &&& (forall|c: CellPos|
                    cost.in_bounds(c) && c != from ==> (#[trigger] nodes_state.at(c)) is Unknown)
                &&& nodes_state.at(from) matches NodeState::Open(fv) && fv == 2 * octile(from, to)
            }),
            self matches AStarCompute::Computing { nodes_state: pre_ns, .. } ==> (r matches
                AStarCompute::Computing { nodes_state: post_ns, .. } ==> exists|e: CellPos|
                #[trigger] states_expansion(pre_ns, post_ns, e)),
    {
        match self {
            AStarCompute::InitialData { from, to, cost } => {
                let w = cost.width;
                let h = cost.height;
                let start_h = from.distance(&to);
                let f0 = AStarNode::f_static(0, start_h);
                let mut nodes_state = Field::<NodeState>::new(NodeState::Unknown, w, h);
                proof {
                    lemma_counts_all_unknown(nodes_state.arr@);
                    crate::field::lemma_row_major_bounds(
                        w as int,
                        h as int,
                        from.i as int,
                        from.j as int,
                    );
                }
                let ghost pre_states = nodes_state;
                nodes_state.set(&from, NodeState::Open(f0));
                proof {
                    lemma_counts_update(
                        pre_states.arr@,
                        pre_states.index_spec(from),
                        NodeState::Open(f0),
                    );
                }
                let mut open_nodes: Vec<AStarNode> = Vec::new();
                open_nodes.push(AStarNode { cell_pos: from, g: 0, h: start_h, parent: None });
                let r = AStarCompute::Computing { from, to, cost, open_nodes, nodes_state };
                proof {
                    assert(count_unknown(nodes_state.arr@) == cost.width * cost.height - 1);
                    assert(r.measure() == 9 * (cost.width * cost.height - 1) + 2);
                    assert(r.measure() < 9 * (cost.width * cost.height) + 3);
                    assert(self.measure() == 9 * (cost.width * cost.height) + 3);
                    assert forall|c: CellPos|
                        cost.in_bounds(c) && #[trigger] nodes_state.at(c) is Open implies exists|
                        k: int,
                    | 0 <= k < open_nodes@.len() && (#[trigger] open_nodes@[k]).cell_pos == c by {
                        crate::field::lemma_row_major_bounds(
                            w as int,
                            h as int,
                            c.i as int,
                            c.j as int,
                        );
                        if c != from {
                            assert(nodes_state.at(c) == pre_states.at(c));
                            assert(pre_states.at(c) == NodeState::Unknown);
                        }
                        assert(c == from);
                        assert(open_nodes@[0].cell_pos == c);
                    }
                    assert forall|c: CellPos|
                        cost.in_bounds(c) implies !((#[trigger] nodes_state.at(c)) is Closed) by {
                        crate::field::lemma_row_major_bounds(
                            w as int,
                            h as int,
                            c.i as int,
                            c.j as int,
                        );
                        if c != from {
                            assert(nodes_state.at(c) == pre_states.at(c));
                            assert(pre_states.at(c) == NodeState::Unknown);
                        }
                    }
                    assert(r.search_inv());
                    assert(octile(to, from) == octile(from, to));
                }
                r
            },
            AStarCompute::Computing { from, to, cost, mut open_nodes, mut nodes_state } => {
                proof {
                    lemma_counts_bounds(nodes_state.arr@);
                }
                let ghost m0 = 9 * count_unknown(nodes_state.arr@) + open_nodes@.len() + 1;
                let ghost pre_open = open_nodes@;
                let ghost inv0 = states_progress_inv(from, to, cost, pre_open, nodes_state);
                let popped = open_nodes.pop();
                match popped {
                    None => {
                        proof {
                            if inv0 {
                                assert forall|c: CellPos| cost.in_bounds(c) implies !((
                                #[trigger] nodes_state.at(c)) is Open) by {
                                    if nodes_state.at(c) is Open {
                                        let k0 = choose|k: int|
                                            0 <= k < pre_open.len() && (
                                            #[trigger] pre_open[k]).cell_pos == c;
                                    }
                                }
                                assert(nodes_state.at(from) is Closed);
                                lemma_region_closed(nodes_state, cost, from, to);
                            }
                        }
                        AStarCompute::Unreachable { from, to, cost }
                    },
                    Some(min_node) => {
                        proof {
                            assert(min_node == pre_open.last());
                            assert(node_ok(min_node, from, cost, nodes_state));
                            assert(open_nodes@ =~= pre_open.subrange(
                                0,
                                pre_open.len() - 1,
                            ));
                            assert forall|k: int| 0 <= k < open_nodes@.len() implies #[trigger] open_nodes@[k]
                                == pre_open[k] && open_nodes@[k].cell_pos != min_node.cell_pos by {
                                assert(pre_open[k].cell_pos != pre_open[pre_open.len() - 1].cell_pos);
                            }
                        }
                        if to == min_node.cell_pos {
                            let ghost chain_snap = min_node;
                            let mut rev: Vec<CellPos> = Vec::new();
                            rev.push(min_node.cell_pos);
                            append_parent(&min_node, &mut rev);
                            proof {
                                assert(rev@ =~= seq![min_node.cell_pos] + chain_parents_rev(
                                    min_node,
                                ));
                                lemma_chain_rev(chain_snap);
                            }
                            let mut path: Vec<CellPos> = Vec::new();
                            let mut k = rev.len();
                            while k > 0
                                invariant
                                    k <= rev@.len(),
                                    path@.len() == rev@.len() - k,
                                    forall|m: int|
                                        0 <= m < path@.len() ==> #[trigger] path@[m] == rev@[rev@.len()
                                            - 1 - m],
                                decreases k,
                            {
                                k = k - 1;
                                let c = rev[k];
                                path.push(c);
                            }
                            proof {
                                lemma_chain_shape(chain_snap, from);
                                assert(path@ =~= chain_cells(chain_snap));
                            }
                            AStarCompute::Computed(
                                SearchResult { from, to, path, cost, chain: Ghost(chain_snap) },
                            )
                        } else {
                            let ghost pre_states = nodes_state;
                            nodes_state.set(&min_node.cell_pos, NodeState::Closed);
                            proof {
                                crate::field::lemma_row_major_bounds(
                                    nodes_state.width as int,
                                    nodes_state.height as int,
                                    min_node.cell_pos.i as int,
                                    min_node.cell_pos.j as int,
                                );
                                lemma_counts_update(
                                    pre_states.arr@,
                                    pre_states.index_spec(min_node.cell_pos),
                                    NodeState::Closed,
                                );
                                lemma_counts_bounds(nodes_state.arr@);
                            }
                            let ghost closed_now = count_closed(nodes_state.arr@);
                            let ghost unknown_after_close = count_unknown(nodes_state.arr@);
                            proof {
                                assert(pre_states.at(min_node.cell_pos) is Open);
                                assert(closed_now == count_closed(pre_states.arr@) + 1);
                                assert(min_node.g <= STEP_MAX * (closed_now - 1));
                                assert forall|k: int| 0 <= k < open_nodes@.len() implies node_ok(
                                    #[trigger] open_nodes@[k],
                                    from,
                                    cost,
                                    nodes_state,
                                ) by {
                                    assert(node_ok(open_nodes@[k], from, cost, pre_states));
                                    assert(open_nodes@[k].cell_pos != min_node.cell_pos);
                                    assert(nodes_state.at(open_nodes@[k].cell_pos) == pre_states.at(
                                        open_nodes@[k].cell_pos,
                                    ));
                                }
                            }
                            proof {
                                if inv0 {
                                    assert forall|c: CellPos|
                                        cost.in_bounds(c) && #[trigger] nodes_state.at(
                                            c,
                                        ) is Open implies exists|k: int|
                                        0 <= k < open_nodes@.len() && (
                                        #[trigger] open_nodes@[k]).cell_pos == c by {
                                        assert(c != min_node.cell_pos);
                                        assert(pre_states.at(c) is Open);
                                        let k0 = choose|k: int|
                                            0 <= k < pre_open.len() && (
                                            #[trigger] pre_open[k]).cell_pos == c;
                                        assert(k0 < pre_open.len() - 1);
                                        assert(open_nodes@[k0].cell_pos == c);
                                    }
                                }
                            }
                            let neighbors = neighbors_with_distance(
                                &min_node.cell_pos,
                                cost.width,
                                cost.height,
                            );
                            let mut ni: usize = 0;
                            while ni < neighbors.len()
                                invariant
                                    Self::grid_ok(cost, from, to),
                                    nodes_state.wf(),
                                    nodes_state.width == cost.width,
                                    nodes_state.height == cost.height,
                                    open_list_ok(open_nodes@, from, cost, nodes_state),
                                    crate::field::neighbors_sound(
                                        neighbors@,
                                        min_node.cell_pos,
                                        cost.width,
                                        cost.height,
                                    ),
                                    ni <= neighbors@.len(),
                                    count_closed(nodes_state.arr@) == closed_now,
                                    chain_wf(min_node, from),
                                    chain_in_bounds(min_node, cost),
                                    chain_linked(min_node, cost),
                                    cost.in_bounds(min_node.cell_pos),
                                    forall|k: int|
                                        0 <= k < open_nodes@.len() ==> (
                                        #[trigger] open_nodes@[k]).h == octile(
                                            to,
                                            open_nodes@[k].cell_pos,
                                        ),
                                    nodes_state.at(min_node.cell_pos) is Closed,
                                    forall|c: CellPos|
                                        cost.in_bounds(c) && c != min_node.cell_pos ==> ((
                                        #[trigger] nodes_state.at(c)) == pre_states.at(c) || (
                                        pre_states.at(c) is Unknown && nodes_state.at(c) is Open
                                            && adjacent(min_node.cell_pos, c))),
                                    0 <= min_node.g,
                                    min_node.g <= STEP_MAX * (closed_now - 1),
                                    9 * count_unknown(nodes_state.arr@) + open_nodes@.len() <= 9
                                        * unknown_after_close + pre_open.len() - 1,
                                    9 * unknown_after_close + pre_open.len() + 1 == m0,
                                    crate::field::neighbors_complete(
                                        neighbors@,
                                        min_node.cell_pos,
                                        cost.width,
                                        cost.height,
                                    ),
                                    min_node.cell_pos != to,
                                    inv0 ==> (forall|c: CellPos|
                                        cost.in_bounds(c) && #[trigger] nodes_state.at(c) is Open
                                            ==> exists|k: int|
                                            0 <= k < open_nodes@.len() && (
                                            #[trigger] open_nodes@[k]).cell_pos == c),
                                    inv0 ==> (forall|c: CellPos, q: CellPos|
                                        cost.in_bounds(c) && #[trigger] nodes_state.at(
                                            c,
                                        ) is Closed && cost.in_bounds(q) && adjacent(c, q) && c
                                            != min_node.cell_pos ==> !((
                                        #[trigger] nodes_state.at(q)) is Unknown)),
                                    inv0 ==> (forall|t: int|
                                        0 <= t < ni ==> !((#[trigger] nodes_state.at(
                                            neighbors@[t].0,
                                        )) is Unknown)),
                                    inv0 ==> !(nodes_state.at(to) is Closed),
                                    inv0 ==> !(nodes_state.at(from) is Unknown),
                                decreases neighbors@.len() - ni,
                            {
                                let (neighbor_pos, neighbor_dist) = neighbors[ni];
                                proof {
                                    crate::field::lemma_row_major_bounds(
                                        nodes_state.width as int,
                                        nodes_state.height as int,
                                        neighbor_pos.i as int,
                                        neighbor_pos.j as int,
                                    );
                                }
                                match nodes_state.get(&neighbor_pos) {
                                    NodeState::Unknown => {
                                        let cell_cost = cost.get(&neighbor_pos);
                                        let weight: i64 = if cell_cost == 255 {
                                            WALL_WEIGHT
                                        } else {
                                            cell_cost as i64
                                        };
                                        proof {
                                            lemma_counts_bounds(nodes_state.arr@);
                                            assert((cost.width * cost.height) as int <= (
                                            COORD_LIMIT * COORD_LIMIT) as int) by (nonlinear_arith)
                                                requires
                                                    cost.width <= COORD_LIMIT,
                                                    cost.height <= COORD_LIMIT,
                                            ;
                                        }
                                        proof {
                                            assert(neighbor_dist == 10 || neighbor_dist == 14);
                                            assert(0 <= (neighbor_dist as i64) * weight <= 14
                                                * 255000) by (nonlinear_arith)
                                                requires
                                                    10 <= neighbor_dist <= 14,
                                                    0 <= weight <= 255000,
                                            ;
                                            assert(closed_now <= 0x100_0000_0000int);
                                            assert(min_node.g <= STEP_MAX * (closed_now - 1));
                                            assert(STEP_MAX * (closed_now - 1) <= STEP_MAX * (
                                            0x100_0000_0000int - 1)) by (nonlinear_arith)
                                                requires
                                                    closed_now <= 0x100_0000_0000int,
                                            ;
                                        }
                                        let g = min_node.g + (neighbor_dist as i64) * weight;
                                        let h = to.distance(&neighbor_pos);
                                        proof {
                                            assert(g <= STEP_MAX * (0x100_0000_0000int - 1)
                                                + STEP_MAX);
                                            assert(g + 2 * h < 0x4000_0000_0000_0000);
                                            assert(STEP_MAX * (closed_now - 1) + STEP_MAX
                                                == STEP_MAX * closed_now) by (nonlinear_arith);
                                        }
                                        let f = AStarNode::f_static(g, h);
                                        let ghost pre2 = nodes_state;
                                        nodes_state.set(&neighbor_pos, NodeState::Open(f));
                                        proof {
                                            lemma_counts_update(
                                                pre2.arr@,
                                                pre2.index_spec(neighbor_pos),
                                                NodeState::Open(f),
                                            );
                                            assert forall|k: int|
                                                0 <= k < open_nodes@.len() implies node_ok(
                                                #[trigger] open_nodes@[k],
                                                from,
                                                cost,
                                                nodes_state,
                                            ) by {
                                                assert(open_nodes@[k].cell_pos != neighbor_pos);
                                                assert(nodes_state.at(open_nodes@[k].cell_pos)
                                                    == pre2.at(open_nodes@[k].cell_pos));
                                            }
                                        }
                                        let node = AStarNode {
                                            cell_pos: neighbor_pos,
                                            g,
                                            h,
                                            parent: Some(Box::new(min_node.clone())),
                                        };
                                        let ghost pre_list = open_nodes@;
                                        insert_open(
                                            &mut open_nodes,
                                            node,
                                            Ghost(from),
                                            Ghost(cost),
                                            Ghost(nodes_state),
                                        );
                                        proof {
                                            assert forall|k: int|
                                                0 <= k < open_nodes@.len() implies (
                                            #[trigger] open_nodes@[k]).h == octile(
                                                to,
                                                open_nodes@[k].cell_pos,
                                            ) by {
                                                if open_nodes@[k] != node {
                                                    let k0 = choose|m: int|
                                                        0 <= m < pre_list.len() && pre_list[m]
                                                            == open_nodes@[k];
                                                    assert(pre_list[k0].h == octile(
                                                        to,
                                                        pre_list[k0].cell_pos,
                                                    ));
                                                }
                                            }
                                            if inv0 {
                                                assert forall|c: CellPos|
                                                    cost.in_bounds(c)
                                                        && #[trigger] nodes_state.at(
                                                        c,
                                                    ) is Open implies exists|k: int|
                                                    0 <= k < open_nodes@.len() && (
                                                    #[trigger] open_nodes@[k]).cell_pos == c by {
                                                    if c == neighbor_pos {
                                                        let k1 = choose|k: int|
                                                            0 <= k < open_nodes@.len() && (
                                                            #[trigger] open_nodes@[k]) == node;
                                                        assert(open_nodes@[k1].cell_pos == c);
                                                    } else {
                                                        assert(pre2.at(c) is Open);
                                                        let k0 = choose|k: int|
                                                            0 <= k < pre_list.len() && (
                                                            #[trigger] pre_list[k]).cell_pos == c;
                                                        assert(pre_list.contains(pre_list[k0]));
                                                        assert(open_nodes@.contains(
                                                            pre_list[k0],
                                                        ));
                                                        let k1 = choose|k: int|
                                                            0 <= k < open_nodes@.len() && (
                                                            #[trigger] open_nodes@[k])
                                                                == pre_list[k0];
                                                        assert(open_nodes@[k1].cell_pos == c);
                                                    }
                                                }
                                            }
                                        }
                                    },
                                    _ => {},
                                }
                                ni = ni + 1;
                            }
                            let r2 = AStarCompute::Computing {
                                from,
                                to,
                                cost,
                                open_nodes,
                                nodes_state,
                            };
                            proof {
                                assert(states_expansion(
                                    pre_states,
                                    nodes_state,
                                    min_node.cell_pos,
                                ));
                                if inv0 {
                                    assert forall|c: CellPos, q: CellPos|
                                        cost.in_bounds(c) && #[trigger] nodes_state.at(
                                            c,
                                        ) is Closed && cost.in_bounds(q) && adjacent(
                                            c,
                                            q,
                                        ) implies !((#[trigger] nodes_state.at(q)) is Unknown) by {
                                        if c == min_node.cell_pos {
                                            let t0 = choose|t: int|
                                                0 <= t < neighbors@.len() && (
                                                #[trigger] neighbors@[t]).0 == q;
                                        }
                                    }
                                    assert(r2.search_inv());
                                }
                            }
                            r2
                        }
                    },
                }
            },
            computed @ AStarCompute::Computed(..) => computed,
            unreachable_state @ AStarCompute::Unreachable { .. } => unreachable_state,
        }
    }

    /// Run the search to completion. On any cost grid, a search created
    /// over in-bounds endpoints finishes as *Computed* after finitely many
    /// steps: the strictly decreasing work measure bounds the run, and the
    /// frontier invariant rules out *Unreachable*, because a cell of cost
    /// 255 is weighed, not excluded, so the whole grid stays connected.
    /// The reconstructed path then starts at the requested start cell and
    /// ends at the requested target cell (`lemma_path_endpoints`).
    pub fn run_to_completion(self) -> (r: Self)
        requires
            self.wf(),
            self.search_inv(),
            !(self is Unreachable),
        ensures
            r.wf(),
            r is Computed,
            r.spec_from() == self.spec_from(),
            r.spec_to() == self.spec_to(),
            r.spec_cost() == self.spec_cost(),
            r matches AStarCompute::Computed(res) ==> res.path@.len() >= 1 && res.path@[0]
                == self.spec_from() && res.path@.last() == self.spec_to(),
    {
        let mut s = self;
        loop
            invariant
                s.wf(),
                s.search_inv(),
                !(s is Unreachable),
                s.spec_from() == self.spec_from(),
                s.spec_to() == self.spec_to(),
                s.spec_cost() == self.spec_cost(),
            ensures
                s.wf(),
                s is Computed,
                s.spec_from() == self.spec_from(),
                s.spec_to() == self.spec_to(),
                s.spec_cost() == self.spec_cost(),
            decreases s.measure(),
        {
            match &s {
                AStarCompute::Computed(..) => {
                    break ;
                },
                _ => {},
            }
            proof {
                match &s {
                    AStarCompute::Computing { nodes_state, .. } => {
                        lemma_counts_bounds(nodes_state.arr@);
                    },
                    _ => {},
                }
            }
            s = s.step();
            proof {
                match &s {
                    AStarCompute::Computing { nodes_state, .. } => {
                        lemma_counts_bounds(nodes_state.arr@);
                    },
                    _ => {},
                }
            }
        }
        proof {
            match &s {
                AStarCompute::Computed(res) => {
                    lemma_path_endpoints(*res);
                },
                _ => {},
            }
        }
        s
    }

    /// Step a search held behind a mutable reference, leaving the updated
    /// state in place; it makes the same transition as `step` and restates
    /// its contract clause for clause.
    pub fn step_replace(s: &mut AStarCompute)
        requires
            old(s).wf(),
        ensures
            final(s).wf(),
            final(s).spec_from() == old(s).spec_from(),
            final(s).spec_to() == old(s).spec_to(),
            final(s).spec_cost() == old(s).spec_cost(),
            old(s).is_terminal() ==> *final(s) == *old(s),
            (*old(s)) is InitialData ==> (*final(s)) is Computing,
            (*old(s)) is Computing ==> ((*final(s)) is Computing || (*final(s)) is Computed || (
            *final(s)) is Unreachable),
            !old(s).is_terminal() ==> final(s).measure() < old(s).measure(),
            (*old(s) matches AStarCompute::Computing { open_nodes, .. } && open_nodes@.len() == 0)
                ==> (*final(s)) is Unreachable,
            old(s).search_inv() ==> final(s).search_inv(),
            ((*old(s)) is Computing && old(s).search_inv()) ==> !((*final(s)) is Unreachable),
            *old(s) matches AStarCompute::InitialData { from, to, cost } ==> (*final(s) matches
                AStarCompute::Computing { open_nodes, nodes_state, .. } ==> {
                &&& open_nodes@.len() == 1
                &&& open_nodes@[0].cell_pos == from
                &&& open_nodes@[0].g == 0
                &&& open_nodes@[0].h == octile(from, to)
                &&& open_nodes@[0].parent is None
                &&& (forall|c: CellPos|
                    cost.in_bounds(c) && c != from ==> (#[trigger] nodes_state.at(c)) is Unknown)
                &&& nodes_state.at(from) matches NodeState::Open(fv) && fv == 2 * octile(from, to)
            }),
            *old(s) matches AStarCompute::Computing { nodes_state: pre_ns, .. } ==> (*final(s) matches
                AStarCompute::Computing { nodes_state: post_ns, .. } ==> exists|e: CellPos|
                #[trigger] states_expansion(pre_ns, post_ns, e)),
    {
        let mut tmp = AStarCompute::InitialData {
            from: CellPos::new(),
            to: CellPos::new(),
            cost: Field::new(0u8, 1, 1),
        };
        core::mem::swap(s, &mut tmp);
        *s = tmp.step();
    }
}

} // verus!
