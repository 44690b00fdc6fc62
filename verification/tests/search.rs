use rustfield::astar::AStarCompute;
use rustfield::field::{CellPos, Field};

fn run_search(from: (usize, usize), to: (usize, usize), cost: Field<u8>) -> AStarCompute {
    let mut s = AStarCompute::InitialData {
        from: CellPos { i: from.0, j: from.1 },
        to: CellPos { i: to.0, j: to.1 },
        cost,
    };
    for _ in 0..100000 {
        match s {
            AStarCompute::Computed(..) | AStarCompute::Unreachable { .. } => break,
            _ => AStarCompute::step_replace(&mut s),
        }
    }
    s
}

/// Edge cost between two adjacent path cells, recomputed the way the
/// search weighs them.
fn step_cost(a: &CellPos, b: &CellPos, cost: &Field<u8>) -> i64 {
    let dist: i64 = if a.i != b.i && a.j != b.j { 14 } else { 10 };
    let c = cost.get(b);
    let weight: i64 = if c == 255 { 255000 } else { c as i64 };
    dist * weight
}

#[test]
fn open_grid_diagonal_path() {
    let cost: Field<u8> = Field::new(1, 5, 5);
    let s = run_search((0, 0), (4, 4), cost.clone());
    match s {
        AStarCompute::Computed(r) => {
            assert_eq!(r.path.len(), 5);
            for (k, p) in r.path.iter().enumerate() {
                assert_eq!((p.i, p.j), (k, k));
            }
            let mut total: i64 = 0;
            for k in 1..r.path.len() {
                total += step_cost(&r.path[k - 1], &r.path[k], &cost);
            }
            assert_eq!(total, 56);
        }
        _ => panic!("search did not finish"),
    }
}

#[test]
fn path_endpoints_match_request() {
    let cost: Field<u8> = Field::new(1, 9, 6);
    let s = run_search((7, 1), (2, 5), cost);
    match s {
        AStarCompute::Computed(r) => {
            let first = r.path.first().unwrap();
            let last = r.path.last().unwrap();
            assert_eq!((first.i, first.j), (7, 1));
            assert_eq!((last.i, last.j), (2, 5));
        }
        _ => panic!("search did not finish"),
    }
}

#[test]
fn start_equals_target_gives_single_cell_path() {
    let cost: Field<u8> = Field::new(1, 4, 4);
    let s = run_search((2, 2), (2, 2), cost);
    match s {
        AStarCompute::Computed(r) => {
            assert_eq!(r.path.len(), 1);
            assert_eq!((r.path[0].i, r.path[0].j), (2, 2));
        }
        _ => panic!("search did not finish"),
    }
}

#[test]
fn wall_column_is_weight_not_barrier() {
    // a full-height wall of cost 255 does not disconnect the grid: the
    // search weighs it as a near-infinite cost and crosses it when no
    // other route exists
    let mut cost: Field<u8> = Field::new(1, 5, 5);
    for j in 0..5usize {
        cost.set(&CellPos { i: 2, j }, 255);
    }
    let s = run_search((0, 2), (4, 2), cost);
    match s {
        AStarCompute::Computed(r) => {
            let first = r.path.first().unwrap();
            let last = r.path.last().unwrap();
            assert_eq!((first.i, first.j), (0, 2));
            assert_eq!((last.i, last.j), (4, 2));
            assert!(r.path.iter().any(|p| p.i == 2));
        }
        _ => panic!("search did not finish"),
    }
}

#[test]
fn terminal_state_is_idempotent() {
    let cost: Field<u8> = Field::new(1, 3, 3);
    let s = run_search((0, 0), (2, 2), cost);
    let path_before = match &s {
        AStarCompute::Computed(r) => r.path.clone(),
        _ => panic!("search did not finish"),
    };
    let mut s2 = s;
    AStarCompute::step_replace(&mut s2);
    AStarCompute::step_replace(&mut s2);
    match s2 {
        AStarCompute::Computed(r) => assert_eq!(r.path, path_before),
        _ => panic!("terminal state changed"),
    }
}

#[test]
fn cheap_detour_beats_expensive_straight_line() {
    // a band of heavy cells pushes the path around it
    let mut cost: Field<u8> = Field::new(1, 7, 3);
    for j in 0..2usize {
        cost.set(&CellPos { i: 3, j }, 200);
    }
    let s = run_search((0, 0), (6, 0), cost);
    match s {
        AStarCompute::Computed(r) => {
            assert!(!r.path.iter().any(|p| p.i == 3 && p.j < 2));
        }
        _ => panic!("search did not finish"),
    }
}

#[test]
fn run_to_completion_always_finds_the_target() {
    // cost 255 is a weight, not a barrier, so the grid stays connected and
    // the search finishes for every pair of in-bounds endpoints
    let mut cost: Field<u8> = Field::new(1, 6, 6);
    for j in 0..6usize {
        cost.set(&CellPos { i: 3, j }, 255);
    }
    for (fi, fj, ti, tj) in [(0usize, 0usize, 5usize, 5usize), (5, 0, 0, 5), (2, 3, 2, 3)] {
        let s = AStarCompute::InitialData {
            from: CellPos { i: fi, j: fj },
            to: CellPos { i: ti, j: tj },
            cost: cost.clone(),
        };
        match s.run_to_completion() {
            AStarCompute::Computed(r) => {
                let first = r.path.first().unwrap();
                let last = r.path.last().unwrap();
                assert_eq!((first.i, first.j), (fi, fj));
                assert_eq!((last.i, last.j), (ti, tj));
            }
            _ => panic!("run did not end in a computed path"),
        }
    }
}

#[test]
fn single_cell_grid_search() {
    let cost: Field<u8> = Field::new(1, 1, 1);
    let s = run_search((0, 0), (0, 0), cost);
    match s {
        AStarCompute::Computed(r) => {
            assert_eq!(r.path.len(), 1);
            assert_eq!((r.path[0].i, r.path[0].j), (0, 0));
        }
        _ => panic!("search did not finish"),
    }
}

#[test]
fn accumulated_cost_never_decreases_along_path() {
    // accumulated cost grows monotonically from start to target, also on
    // an uneven cost grid
    let mut cost: Field<u8> = Field::new(1, 8, 8);
    cost.set(&CellPos { i: 4, j: 4 }, 60);
    cost.set(&CellPos { i: 5, j: 3 }, 9);
    cost.set(&CellPos { i: 2, j: 6 }, 120);
    let s = run_search((0, 7), (7, 0), cost.clone());
    match s {
        AStarCompute::Computed(r) => {
            let mut g: i64 = 0;
            for k in 1..r.path.len() {
                let next_g = g + step_cost(&r.path[k - 1], &r.path[k], &cost);
                assert!(next_g >= g);
                g = next_g;
            }
        }
        _ => panic!("search did not finish"),
    }
}
