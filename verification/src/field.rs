//! Dense row-major grid storage and 8-neighbor topology.
//!
//! A [`CellPos`] addresses one cell as a `(i, j)` pair of non-negative
//! integers; a [`Field`] is a dense `width x height` array of cells.
//! Neighbor enumeration uses the octile metric: an orthogonal edge costs 10
//! and a diagonal edge 14, a fixed-point approximation that avoids floating
//! point in the search layers above.

use vstd::prelude::*;

verus! {

/// Upper bound on a grid dimension; keeps every coordinate and octile
/// distance comfortably inside the machine integer types used by the
/// search layers.
pub const COORD_LIMIT: usize = 0x100000;

/// One grid cell, addressed by column `i` and row `j`.
#[derive(Copy, Clone, Debug, PartialEq, Eq, Hash, Structural)]
pub struct CellPos {
    pub i: usize,
    pub j: usize,
}

/// Absolute difference of two mathematical integers.
pub open spec fn dist1(x: int, y: int) -> int {
    if x >= y {
        x - y
    } else {
        y - x
    }
}

/// Two cells touch along an edge or a corner and are not the same cell.
pub open spec fn adjacent(a: CellPos, b: CellPos) -> bool {
    let di = dist1(a.i as int, b.i as int);
    let dj = dist1(a.j as int, b.j as int);
    di <= 1 && dj <= 1 && di + dj >= 1
}

/// Cost of the grid edge between two adjacent cells: 14 for a diagonal
/// step, 10 for an orthogonal one.
pub open spec fn edge_cost(a: CellPos, b: CellPos) -> int {
    if a.i != b.i && a.j != b.j {
        14
    } else {
        10
    }
}

/// Octile distance between two cells: each diagonal step covers one unit of
/// both axes at cost 14, the remaining axis difference is covered by
/// orthogonal steps at cost 10.
pub open spec fn octile(a: CellPos, b: CellPos) -> int {
    let di = dist1(a.i as int, b.i as int);
    let dj = dist1(a.j as int, b.j as int);
    if di > dj {
        10 * (di - dj) + 14 * dj
    } else {
        10 * (dj - di) + 14 * di
    }
}

impl CellPos {
    /// The origin cell `(0, 0)`.
    pub fn new() -> (r: CellPos)
        ensures
            r.i == 0 && r.j == 0,
    {
        CellPos { i: 0, j: 0 }
    }

    /// Octile distance to `other`.
    pub fn distance(&self, other: &CellPos) -> (r: i64)
        requires
            self.i <= COORD_LIMIT,
            self.j <= COORD_LIMIT,
            other.i <= COORD_LIMIT,
            other.j <= COORD_LIMIT,
        ensures
            r == octile(*self, *other),
            0 <= r <= 14 * COORD_LIMIT,
    {
        let di: i64 = if self.i >= other.i {
            (self.i - other.i) as i64
        } else {
            (other.i - self.i) as i64
        };
        let dj: i64 = if self.j >= other.j {
            (self.j - other.j) as i64
        } else {
            (other.j - self.j) as i64
        };
        if di > dj {
            10 * (di - dj) + 14 * dj
        } else {
            10 * (dj - di) + 14 * di
        }
    }
}

/// Row-major placement of a cell inside a `width`-wide grid: a cell `(i, j)`
/// lives at index `i + j * width`.
pub proof fn lemma_row_major_bounds(w: int, h: int, i: int, j: int)
    requires
        0 <= i < w,
        0 <= j < h,
    ensures
        0 <= i + j * w < w * h,
        j * w >= 0,
{
    assert(0 <= i + j * w < w * h) by (nonlinear_arith)
        requires
            0 <= i < w,
            0 <= j < h,
    ;
    assert(j * w >= 0) by (nonlinear_arith)
        requires
            0 <= j,
            0 < w,
    ;
}

/// Row-major placement is injective over in-bounds cells.
pub proof fn lemma_row_major_injective(w: int, i1: int, j1: int, i2: int, j2: int)
    requires
        0 <= i1 < w,
        0 <= i2 < w,
        0 <= j1,
        0 <= j2,
        i1 + j1 * w == i2 + j2 * w,
    ensures
        i1 == i2 && j1 == j2,
{
    assert(j1 == j2) by (nonlinear_arith)
        requires
            0 <= i1 < w,
            0 <= i2 < w,
            0 <= j1,
            0 <= j2,
            i1 + j1 * w == i2 + j2 * w,
    ;
}

/// Dense 2D container: a row-major array of length `width * height`.
#[derive(Clone)]
pub struct Field<T> {
    pub arr: Vec<T>,
    pub width: usize,
    pub height: usize,
}

impl<T> Field<T> {
    /// Structural invariant: the backing array covers the whole grid.
    pub open spec fn wf(self) -> bool {
        self.arr@.len() == self.width * self.height
    }

    /// `position` indexes a real cell of this grid.
    pub open spec fn in_bounds(self, position: CellPos) -> bool {
        position.i < self.width && position.j < self.height
    }

    /// Row-major index of a cell.
    pub open spec fn index_spec(self, position: CellPos) -> int {
        position.i + position.j * self.width
    }

    /// The value stored at a cell.
    pub open spec fn at(self, position: CellPos) -> T {
        self.arr@[self.index_spec(position)]
    }

    fn index_of(&self, position: &CellPos) -> (r: usize)
        requires
            self.wf(),
            self.in_bounds(*position),
        ensures
            r == self.index_spec(*position),
            r < self.arr@.len(),
    {
        let n = self.arr.len();
        proof {
            lemma_row_major_bounds(
                self.width as int,
                self.height as int,
                position.i as int,
                position.j as int,
            );
        }
        position.i + position.j * self.width
    }

    /// Borrow the value stored at a cell.
    pub fn get_ref(&self, position: &CellPos) -> (r: &T)
        requires
            self.wf(),
            self.in_bounds(*position),
        ensures
            *r == self.at(*position),
    {
        let index = self.index_of(position);
        &self.arr[index]
    }

    /// Store `v` at a cell and hand back the value that was there.
    pub fn replace_at(&mut self, position: &CellPos, v: T) -> (r: T)
        requires
            old(self).wf(),
            old(self).in_bounds(*position),
        ensures
            r == old(self).at(*position),
            final(self).wf(),
            final(self).width == old(self).width,
            final(self).height == old(self).height,
            final(self).at(*position) == v,
            final(self).arr@ == old(self).arr@.update(old(self).index_spec(*position), v),
            forall|q: CellPos|
                old(self).in_bounds(q) && q != *position ==> final(self).at(q) == old(self).at(q),
    {
        let index = self.index_of(position);
        let mut tmp = v;
        self.arr.set_and_swap(index, &mut tmp);
        proof {
            assert forall|q: CellPos| self.in_bounds(q) && q != *position implies self.at(q)
                == old(self).at(q) by {
                lemma_row_major_bounds(
                    self.width as int,
                    self.height as int,
                    q.i as int,
                    q.j as int,
                );
                if self.index_spec(q) == self.index_spec(*position) {
                    lemma_row_major_injective(
                        self.width as int,
                        q.i as int,
                        q.j as int,
                        position.i as int,
                        position.j as int,
                    );
                }
            }
        }
        tmp
    }

    /// Every in-bounds cell at Chebyshev distance at most 1 from `position`:
    /// the clamped 3-by-3 block around a cell, the shape of a brush edit.
    #[verifier::rlimit(60)]
    pub fn grow(&self, position: &CellPos) -> (r: Vec<CellPos>)
        requires
            self.in_bounds(*position),
            self.width <= COORD_LIMIT,
            self.height <= COORD_LIMIT,
        ensures
            forall|k: int|
                0 <= k < r@.len() ==> {
                    let q = #[trigger] r@[k];
                    q.i < self.width && q.j < self.height && dist1(q.i as int, position.i as int)
                        <= 1 && dist1(q.j as int, position.j as int) <= 1
                },
            forall|q: CellPos|
                q.i < self.width && q.j < self.height && dist1(q.i as int, position.i as int) <= 1
                    && dist1(q.j as int, position.j as int) <= 1 ==> exists|k: int|
                    0 <= k < r@.len() && #[trigger] r@[k] == q,
            r@.len() <= 9,
            forall|k1: int, k2: int| 0 <= k1 < k2 < r@.len() ==> r@[k1] != r@[k2],
    {
        let i0 = position.i;
        let j0 = position.j;
        let width = self.width;
        let height = self.height;
        let mut neighbors: Vec<CellPos> = Vec::new();
        let mut step: usize = 0;
        while step < 9
            invariant
                step <= 9,
                i0 < width,
                j0 < height,
                neighbors@.len() <= step,
                forall|k: int|
                    0 <= k < neighbors@.len() ==> exists|t: int|
                        0 <= t < step && nth_block(CellPos { i: i0, j: j0 }, width, height, t)
                            == Some(#[trigger] neighbors@[k]),
                forall|k1: int, k2: int|
                    0 <= k1 < k2 < neighbors@.len() ==> (#[trigger] neighbors@[k1]) != (
                    #[trigger] neighbors@[k2]),
                forall|k: int|
                    0 <= k < neighbors@.len() ==> {
                        let q = #[trigger] neighbors@[k];
                        q.i < width && q.j < height && dist1(q.i as int, i0 as int) <= 1 && dist1(
                            q.j as int,
                            j0 as int,
                        ) <= 1
                    },
                forall|t: int|
                    0 <= t < step ==> match #[trigger] nth_block(
                        CellPos { i: i0, j: j0 },
                        width,
                        height,
                        t,
                    ) {
                        Some(c) => exists|k: int|
                            0 <= k < neighbors@.len() && #[trigger] neighbors@[k] == c,
                        None => true,
                    },
            decreases 9 - step,
        {
            let candidate: Option<CellPos> = if step == 0 {
                if i0 > 0 && j0 > 0 {
                    Some(CellPos { i: i0 - 1, j: j0 - 1 })
                } else {
                    None
                }
            } else if step == 1 {
                if j0 > 0 {
                    Some(CellPos { i: i0, j: j0 - 1 })
                } else {
                    None
                }
            } else if step == 2 {
                if i0 + 1 < width && j0 > 0 {
                    Some(CellPos { i: i0 + 1, j: j0 - 1 })
                } else {
                    None
                }
            } else if step == 3 {
                if i0 > 0 {
                    Some(CellPos { i: i0 - 1, j: j0 })
                } else {
                    None
                }
            } else if step == 4 {
                Some(CellPos { i: i0, j: j0 })
            } else if step == 5 {
                if i0 + 1 < width {
                    Some(CellPos { i: i0 + 1, j: j0 })
                } else {
                    None
                }
            } else if step == 6 {
                if i0 > 0 && j0 + 1 < height {
                    Some(CellPos { i: i0 - 1, j: j0 + 1 })
                } else {
                    None
                }
            } else if step == 7 {
                if j0 + 1 < height {
                    Some(CellPos { i: i0, j: j0 + 1 })
                } else {
                    None
                }
            } else {
                if i0 + 1 < width && j0 + 1 < height {
                    Some(CellPos { i: i0 + 1, j: j0 + 1 })
                } else {
                    None
                }
            };
            proof {
                assert(candidate == nth_block(CellPos { i: i0, j: j0 }, width, height, step as int));
            }
            let ghost pre = neighbors@;
            match candidate {
                Some(c) => {
                    neighbors.push(c);
                    proof {
                        let c0 = CellPos { i: i0, j: j0 };
                        assert forall|k: int| 0 <= k < pre.len() implies #[trigger] pre[k]
                            != c by {
                            let t0 = choose|t: int|
                                0 <= t < step && nth_block(c0, width, height, t) == Some(pre[k]);
                            lemma_nth_block_injective(c0, width, height, t0, step as int);
                        }
                    }
                },
                None => {},
            }
            proof {
                assert forall|t: int| 0 <= t < step + 1 implies match #[trigger] nth_block(
                    CellPos { i: i0, j: j0 },
                    width,
                    height,
                    t,
                ) {
                    Some(c) => exists|k: int|
                        0 <= k < neighbors@.len() && #[trigger] neighbors@[k] == c,
                    None => true,
                } by {
                    match nth_block(CellPos { i: i0, j: j0 }, width, height, t) {
                        Some(c) => {
                            if t < step {
                                let k0 = choose|k: int| 0 <= k < pre.len() && pre[k] == c;
                                assert(neighbors@[k0] == c);
                            } else {
                                assert(neighbors@[neighbors@.len() - 1] == c);
                            }
                        },
                        None => {},
                    }
                }
            }
            step = step + 1;
        }
        proof {
            let c0 = CellPos { i: i0, j: j0 };
            assert forall|q: CellPos|
                q.i < width && q.j < height && dist1(q.i as int, i0 as int) <= 1 && dist1(
                    q.j as int,
                    j0 as int,
                ) <= 1 implies exists|k: int| 0 <= k < neighbors@.len() && #[trigger] neighbors@[k]
                == q by {
                let a = q.i as int - i0 as int;
                let b = q.j as int - j0 as int;
                if a == -1 && b == -1 {
                    assert(nth_block(c0, width, height, 0) == Some(q));
                } else if a == 0 && b == -1 {
                    assert(nth_block(c0, width, height, 1) == Some(q));
                } else if a == 1 && b == -1 {
                    assert(nth_block(c0, width, height, 2) == Some(q));
                } else if a == -1 && b == 0 {
                    assert(nth_block(c0, width, height, 3) == Some(q));
                } else if a == 0 && b == 0 {
                    assert(nth_block(c0, width, height, 4) == Some(q));
                } else if a == 1 && b == 0 {
                    assert(nth_block(c0, width, height, 5) == Some(q));
                } else if a == -1 && b == 1 {
                    assert(nth_block(c0, width, height, 6) == Some(q));
                } else if a == 0 && b == 1 {
                    assert(nth_block(c0, width, height, 7) == Some(q));
                } else {
                    assert(nth_block(c0, width, height, 8) == Some(q));
                }
            }
        }
        neighbors
    }
}

/// The `t`-th entry of the clamped 3-by-3 block around `c`, walked row by
/// row; `None` where the grid edge clips the block.
pub open spec fn nth_block(c: CellPos, width: usize, height: usize, t: int) -> Option<CellPos> {
    let off: (int, int) = if t == 0 {
        (-1, -1)
    } else if t == 1 {
        (0, -1)
    } else if t == 2 {
        (1, -1)
    } else if t == 3 {
        (-1, 0)
    } else if t == 4 {
        (0, 0)
    } else if t == 5 {
        (1, 0)
    } else if t == 6 {
        (-1, 1)
    } else if t == 7 {
        (0, 1)
    } else {
        (1, 1)
    };
    let ni = c.i as int + off.0;
    let nj = c.j as int + off.1;
    if 0 <= ni < width && 0 <= nj < height {
        Some(CellPos { i: ni as usize, j: nj as usize })
    } else {
        None
    }
}

/// Different candidate slots of the neighborhood walk name different
/// cells.
pub proof fn lemma_nth_neighbor_injective(
    c: CellPos,
    width: usize,
    height: usize,
    t1: int,
    t2: int,
)
    requires
        0 <= t1 < 8,
        0 <= t2 < 8,
        t1 != t2,
        nth_neighbor(c, width, height, t1) is Some,
        nth_neighbor(c, width, height, t2) is Some,
    ensures
        (nth_neighbor(c, width, height, t1)->0).0 != (nth_neighbor(c, width, height, t2)->0).0,
{
}

/// Different slots of the 3-by-3 block walk name different cells.
pub proof fn lemma_nth_block_injective(c: CellPos, width: usize, height: usize, t1: int, t2: int)
    requires
        0 <= t1 < 9,
        0 <= t2 < 9,
        t1 != t2,
        nth_block(c, width, height, t1) is Some,
        nth_block(c, width, height, t2) is Some,
    ensures
        nth_block(c, width, height, t1)->0 != nth_block(c, width, height, t2)->0,
{
}

/// Every in-bounds cell adjacent to `c` appears among the 8 candidate
/// neighbors of `c`.
pub proof fn lemma_adjacent_is_candidate(c: CellPos, width: usize, height: usize, q: CellPos)
    requires
        c.i < width,
        c.j < height,
        q.i < width,
        q.j < height,
        adjacent(c, q),
    ensures
        exists|t: int|
            0 <= t < 8 && #[trigger] nth_neighbor(c, width, height, t) == Some(
                (q, edge_cost(c, q) as i8),
            ),
{
    let a = q.i as int - c.i as int;
    let b = q.j as int - c.j as int;
    let t: int = if a == -1 && b == -1 {
        0
    } else if a == 0 && b == -1 {
        1
    } else if a == 1 && b == -1 {
        2
    } else if a == -1 && b == 0 {
        3
    } else if a == 1 && b == 0 {
        4
    } else if a == -1 && b == 1 {
        5
    } else if a == 0 && b == 1 {
        6
    } else {
        7
    };
    assert(nth_neighbor(c, width, height, t) == Some((q, edge_cost(c, q) as i8)));
}

/// Decomposition of a 3-by-3 block code `a + 3b` back into its two digits.
pub proof fn lemma_code_decode(a: int, b: int)
    requires
        0 <= a < 3,
        0 <= b < 3,
    ensures
        (a + 3 * b) % 3 == a,
        (a + 3 * b) / 3 == b,
{
    assert((a + 3 * b) % 3 == a && (a + 3 * b) / 3 == b) by (nonlinear_arith)
        requires
            0 <= a < 3,
            0 <= b < 3,
    ;
}

/// The `t`-th candidate neighbor of `c`: the 8 offsets around a cell in the
/// order the neighborhood is walked, with the octile edge cost; `None`
/// where the grid edge clips the neighborhood.
pub open spec fn nth_neighbor(c: CellPos, width: usize, height: usize, t: int) -> Option<
    (CellPos, i8),
> {
    let off: (int, int, int) = if t == 0 {
        (-1, -1, 14)
    } else if t == 1 {
        (0, -1, 10)
    } else if t == 2 {
        (1, -1, 14)
    } else if t == 3 {
        (-1, 0, 10)
    } else if t == 4 {
        (1, 0, 10)
    } else if t == 5 {
        (-1, 1, 14)
    } else if t == 6 {
        (0, 1, 10)
    } else {
        (1, 1, 14)
    };
    let ni = c.i as int + off.0;
    let nj = c.j as int + off.1;
    if 0 <= ni < width && 0 <= nj < height {
        Some((CellPos { i: ni as usize, j: nj as usize }, off.2 as i8))
    } else {
        None
    }
}

impl<T: Copy> Field<T> {
    /// A grid of the given dimensions with every cell set to `initial`.
    pub fn new(initial: T, width: usize, height: usize) -> (r: Field<T>)
        requires
            width * height <= usize::MAX,
        ensures
            r.wf(),
            r.width == width,
            r.height == height,
            forall|q: CellPos| r.in_bounds(q) ==> #[trigger] r.at(q) == initial,
            forall|m: int| 0 <= m < r.arr@.len() ==> r.arr@[m] == initial,
    {
        let total = width * height;
        let mut v: Vec<T> = Vec::new();
        let mut k: usize = 0;
        while k < total
            invariant
                k <= total,
                v@.len() == k,
                forall|m: int| 0 <= m < k ==> v@[m] == initial,
            decreases total - k,
        {
            v.push(initial);
            k = k + 1;
        }
        let r = Field { arr: v, width, height };
        proof {
            assert forall|q: CellPos| r.in_bounds(q) implies #[trigger] r.at(q) == initial by {
                lemma_row_major_bounds(width as int, height as int, q.i as int, q.j as int);
            }
        }
        r
    }

    /// The value stored at a cell.
    pub fn get(&self, position: &CellPos) -> (r: T)
        requires
            self.wf(),
            self.in_bounds(*position),
        ensures
            r == self.at(*position),
    {
        let index = self.index_of(position);
        self.arr[index]
    }

    /// Store `v` at a cell; every other cell keeps its value.
    pub fn set(&mut self, position: &CellPos, v: T)
        requires
            old(self).wf(),
            old(self).in_bounds(*position),
        ensures
            final(self).wf(),
            final(self).width == old(self).width,
            final(self).height == old(self).height,
            final(self).at(*position) == v,
            final(self).arr@ == old(self).arr@.update(old(self).index_spec(*position), v),
            forall|q: CellPos|
                old(self).in_bounds(q) && q != *position ==> final(self).at(q) == old(self).at(q),
    {
        let index = self.index_of(position);
        self.arr.set(index, v);
        proof {
            assert forall|q: CellPos| self.in_bounds(q) && q != *position implies self.at(q)
                == old(self).at(q) by {
                lemma_row_major_bounds(
                    self.width as int,
                    self.height as int,
                    q.i as int,
                    q.j as int,
                );
                if self.index_spec(q) == self.index_spec(*position) {
                    lemma_row_major_injective(
                        self.width as int,
                        q.i as int,
                        q.j as int,
                        position.i as int,
                        position.j as int,
                    );
                }
            }
        }
    }

    /// The 8-neighborhood of a cell inside this grid, with edge costs.
    pub fn neighbors_with_distance(&self, position: &CellPos) -> (r: Vec<(CellPos, i8)>)
        requires
            self.in_bounds(*position),
            self.width <= COORD_LIMIT,
            self.height <= COORD_LIMIT,
        ensures
            neighbors_sound(r@, *position, self.width, self.height),
            neighbors_complete(r@, *position, self.width, self.height),
            r@.len() <= 8,
            forall|k1: int, k2: int|
                0 <= k1 < k2 < r@.len() ==> (#[trigger] r@[k1]).0 != (#[trigger] r@[k2]).0,
    {
        neighbors_with_distance(position, self.width, self.height)
    }
}

/// Every listed neighbor is in bounds, adjacent to `position`, and carries
/// the octile cost of its edge.
pub open spec fn neighbors_sound(
    r: Seq<(CellPos, i8)>,
    position: CellPos,
    width: usize,
    height: usize,
) -> bool {
    forall|k: int|
        0 <= k < r.len() ==> {
            let q = (#[trigger] r[k]).0;
            q.i < width && q.j < height && adjacent(position, q) && r[k].1 as int == edge_cost(
                position,
                q,
            )
        }
}

/// Every in-bounds cell adjacent to `position` is listed.
pub open spec fn neighbors_complete(
    r: Seq<(CellPos, i8)>,
    position: CellPos,
    width: usize,
    height: usize,
) -> bool {
    forall|q: CellPos|
        q.i < width && q.j < height && adjacent(position, q) ==> exists|k: int|
            0 <= k < r.len() && (#[trigger] r[k]).0 == q
}

/// The up-to-8 in-bounds neighbors of a cell, each with its edge cost (10
/// orthogonal, 14 diagonal), clipped at the grid edges.
pub fn neighbors_with_distance(position: &CellPos, width: usize, height: usize) -> (r: Vec<
    (CellPos, i8),
>)
    requires
        position.i < width,
        position.j < height,
        width <= COORD_LIMIT,
        height <= COORD_LIMIT,
    ensures
        neighbors_sound(r@, *position, width, height),
        neighbors_complete(r@, *position, width, height),
        r@.len() <= 8,
        forall|k1: int, k2: int|
            0 <= k1 < k2 < r@.len() ==> (#[trigger] r@[k1]).0 != (#[trigger] r@[k2]).0,
{
    let i0 = position.i;
    let j0 = position.j;
    let mut neighbors: Vec<(CellPos, i8)> = Vec::new();
    let mut step: usize = 0;
    while step < 8
        invariant
            step <= 8,
            i0 < width,
            j0 < height,
            neighbors@.len() <= step,
            neighbors_sound(neighbors@, CellPos { i: i0, j: j0 }, width, height),
            forall|k: int|
                0 <= k < neighbors@.len() ==> exists|t: int|
                    0 <= t < step && nth_neighbor(CellPos { i: i0, j: j0 }, width, height, t)
                        == Some(#[trigger] neighbors@[k]),
            forall|k1: int, k2: int|
                0 <= k1 < k2 < neighbors@.len() ==> (#[trigger] neighbors@[k1]).0 != (
                #[trigger] neighbors@[k2]).0,
            forall|t: int|
                0 <= t < step ==> match #[trigger] nth_neighbor(
                    CellPos { i: i0, j: j0 },
                    width,
                    height,
                    t,
                ) {
                    Some(c) => exists|k: int|
                        0 <= k < neighbors@.len() && #[trigger] neighbors@[k] == c,
                    None => true,
                },
        decreases 8 - step,
    {
        let candidate = nth_neighbor_exec(i0, j0, width, height, step);
        let ghost pre = neighbors@;
        match candidate {
            Some(c) => {
                neighbors.push(c);
                proof {
                    let c0 = CellPos { i: i0, j: j0 };
                    assert forall|k: int| 0 <= k < pre.len() implies (#[trigger] pre[k]).0
                        != c.0 by {
                        let t0 = choose|t: int|
                            0 <= t < step && #[trigger] nth_neighbor(c0, width, height, t) == Some(
                                pre[k],
                            );
                        lemma_nth_neighbor_injective(c0, width, height, t0, step as int);
                    }
                }
            },
            None => {},
        }
        proof {
            assert forall|t: int| 0 <= t < step + 1 implies match #[trigger] nth_neighbor(
                CellPos { i: i0, j: j0 },
                width,
                height,
                t,
            ) {
                Some(c) => exists|k: int|
                    0 <= k < neighbors@.len() && #[trigger] neighbors@[k] == c,
                None => true,
            } by {
                match nth_neighbor(CellPos { i: i0, j: j0 }, width, height, t) {
                    Some(c) => {
                        if t < step {
                            let k0 = choose|k: int| 0 <= k < pre.len() && pre[k] == c;
                            assert(neighbors@[k0] == c);
                        } else {
                            assert(neighbors@[neighbors@.len() - 1] == c);
                        }
                    },
                    None => {},
                }
            }
        }
        step = step + 1;
    }
    proof {
        let c0 = CellPos { i: i0, j: j0 };
        assert forall|q: CellPos|
            q.i < width && q.j < height && adjacent(c0, q) implies exists|k: int|
            0 <= k < neighbors@.len() && (#[trigger] neighbors@[k]).0 == q by {
            let a = q.i as int - i0 as int;
            let b = q.j as int - j0 as int;
            let t: int = if a == -1 && b == -1 {
                0
            } else if a == 0 && b == -1 {
                1
            } else if a == 1 && b == -1 {
                2
            } else if a == -1 && b == 0 {
                3
            } else if a == 1 && b == 0 {
                4
            } else if a == -1 && b == 1 {
                5
            } else if a == 0 && b == 1 {
                6
            } else {
                7
            };
            assert(nth_neighbor(c0, width, height, t) == Some((q, edge_cost(c0, q) as i8)));
            let c = (q, edge_cost(c0, q) as i8);
            assert(exists|k: int| 0 <= k < neighbors@.len() && #[trigger] neighbors@[k] == c);
        }
    }
    neighbors
}

/// Executable form of [`nth_neighbor`].
pub(crate) fn nth_neighbor_exec(i0: usize, j0: usize, width: usize, height: usize, t: usize) -> (r: Option<
    (CellPos, i8),
>)
    requires
        i0 < width,
        j0 < height,
        t < 8,
    ensures
        r == nth_neighbor(CellPos { i: i0, j: j0 }, width, height, t as int),
        match r {
            Some(c) => c.0.i < width && c.0.j < height && adjacent(CellPos { i: i0, j: j0 }, c.0)
                && c.1 as int == edge_cost(CellPos { i: i0, j: j0 }, c.0),
            None => true,
        },
{
    if t == 0 {
        if i0 > 0 && j0 > 0 {
            Some((CellPos { i: i0 - 1, j: j0 - 1 }, 14))
        } else {
            None
        }
    } else if t == 1 {
        if j0 > 0 {
            Some((CellPos { i: i0, j: j0 - 1 }, 10))
        } else {
            None
        }
    } else if t == 2 {
        if i0 + 1 < width && j0 > 0 {
            Some((CellPos { i: i0 + 1, j: j0 - 1 }, 14))
        } else {
            None
        }
    } else if t == 3 {
        if i0 > 0 {
            Some((CellPos { i: i0 - 1, j: j0 }, 10))
        } else {
            None
        }
    } else if t == 4 {
        if i0 + 1 < width {
            Some((CellPos { i: i0 + 1, j: j0 }, 10))
        } else {
            None
        }
    } else if t == 5 {
        if i0 > 0 && j0 + 1 < height {
            Some((CellPos { i: i0 - 1, j: j0 + 1 }, 14))
        } else {
            None
        }
    } else if t == 6 {
        if j0 + 1 < height {
            Some((CellPos { i: i0, j: j0 + 1 }, 10))
        } else {
            None
        }
    } else {
        if i0 + 1 < width && j0 + 1 < height {
            Some((CellPos { i: i0 + 1, j: j0 + 1 }, 14))
        } else {
            None
        }
    }
}

/// Cursor over the 8-neighborhood of a cell; each `next` call hands out one
/// more in-bounds neighbor with its edge cost, `None` once exhausted.
pub struct NeighborsIter {
    index: usize,
    i0: usize,
    j0: usize,
    width: usize,
    height: usize,
}

impl NeighborsIter {
    /// Structural invariant of the cursor.
    pub closed spec fn wf(self) -> bool {
        self.index <= 8 && self.i0 < self.width && self.j0 < self.height && self.width
            <= COORD_LIMIT && self.height <= COORD_LIMIT
    }

    /// The cell whose neighborhood is walked.
    pub closed spec fn center(self) -> CellPos {
        CellPos { i: self.i0, j: self.j0 }
    }

    /// Dimensions of the clipping grid.
    pub closed spec fn dims(self) -> (usize, usize) {
        (self.width, self.height)
    }

    /// How far the walk has progressed; grows with each `next` call that
    /// hands out a neighbor.
    pub closed spec fn cursor(self) -> int {
        self.index as int
    }

    /// Hand out the next in-bounds neighbor, or `None` once all 8 candidate
    /// offsets have been considered: the call returns the first candidate
    /// `nth_neighbor` yields at or after the cursor, skipping only clipped
    /// slots, and leaves the cursor one past the slot it returned.
    pub fn next(&mut self) -> (r: Option<(CellPos, i8)>)
        requires
            old(self).wf(),
        ensures
            final(self).wf(),
            final(self).center() == old(self).center(),
            final(self).dims() == old(self).dims(),
            match r {
                Some(t) => {
                    &&& t.0.i < old(self).dims().0
                    &&& t.0.j < old(self).dims().1
                    &&& adjacent(old(self).center(), t.0)
                    &&& t.1 as int == edge_cost(old(self).center(), t.0)
                    &&& final(self).cursor() > old(self).cursor()
                    &&& final(self).cursor() <= 8
                    &&& nth_neighbor(
                        old(self).center(),
                        old(self).dims().0,
                        old(self).dims().1,
                        final(self).cursor() - 1,
                    ) == Some(t)
                    &&& forall|t2: int|
                        old(self).cursor() <= t2 < final(self).cursor() - 1
                            ==> #[trigger] nth_neighbor(
                            old(self).center(),
                            old(self).dims().0,
                            old(self).dims().1,
                            t2,
                        ) is None
                },
                None => {
                    &&& final(self).cursor() == 8
                    &&& forall|t2: int|
                        old(self).cursor() <= t2 < 8 ==> #[trigger] nth_neighbor(
                            old(self).center(),
                            old(self).dims().0,
                            old(self).dims().1,
                            t2,
                        ) is None
                },
            },
    {
        loop
            invariant
                self.wf(),
                self.center() == old(self).center(),
                self.dims() == old(self).dims(),
                self.cursor() >= old(self).cursor(),
                forall|t2: int|
                    old(self).cursor() <= t2 < self.cursor() ==> #[trigger] nth_neighbor(
                        old(self).center(),
                        self.dims().0,
                        self.dims().1,
                        t2,
                    ) is None,
            decreases 8 - self.index,
        {
            if self.index == 8 {
                return None;
            }
            let step = self.index;
            self.index = step + 1;
            let candidate = nth_neighbor_exec(self.i0, self.j0, self.width, self.height, step);
            match candidate {
                Some(t) => {
                    return Some(t);
                },
                None => {},
            }
        }
    }
}

/// A fresh neighborhood cursor for `position` inside a `width x height`
/// grid.
pub fn neighbors_with_distance_iter(position: &CellPos, width: usize, height: usize) -> (r:
    NeighborsIter)
    requires
        position.i < width,
        position.j < height,
        width <= COORD_LIMIT,
        height <= COORD_LIMIT,
    ensures
        r.wf(),
        r.center() == *position,
        r.dims() == (width, height),
        r.cursor() == 0,
{
    NeighborsIter { index: 0, i0: position.i, j0: position.j, width, height }
}

} // verus!
