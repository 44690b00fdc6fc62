use rustfield::field::CellPos;
use rustfield::flowfield::{FlowField, FlowFieldState, GRID_SIZE, MAX_INTEGRATION};

fn run_to_ready(f: &mut FlowField) {
    for _ in 0..100000 {
        if f.step() {
            return;
        }
    }
    panic!("tile did not reach Ready");
}

/// Decode a direction code to its per-axis offsets.
fn decode(d: i8) -> (i64, i64) {
    ((d % 3) as i64 - 1, (d / 3) as i64 - 1)
}

#[test]
fn uniform_tile_block_around_objective() {
    // open tile, all costs 1, objective in the interior: the 3x3 block
    // around the objective integrates to 14 on the diagonals and 10 on
    // the orthogonals, and every ring cell points straight at the
    // objective
    let mut f = FlowField::new(CellPos { i: 1, j: 1 });
    run_to_ready(&mut f);
    let expected = [
        ((0usize, 0usize), 14),
        ((1, 0), 10),
        ((2, 0), 14),
        ((0, 1), 10),
        ((1, 1), 0),
        ((2, 1), 10),
        ((0, 2), 14),
        ((1, 2), 10),
        ((2, 2), 14),
    ];
    for ((i, j), v) in expected {
        assert_eq!(f.integration.get(&CellPos { i, j }), v, "integration at ({i},{j})");
    }
    for ((i, j), _) in expected {
        if (i, j) == (1, 1) {
            assert_eq!(f.flow.get(&CellPos { i, j }), 4);
        } else {
            let d = f.flow.get(&CellPos { i, j });
            let (dx, dy) = decode(d);
            assert_eq!((i as i64 + dx, j as i64 + dy), (1, 1), "flow at ({i},{j})");
        }
    }
}

#[test]
fn objective_integrates_to_zero() {
    let mut f = FlowField::new(CellPos { i: 5, j: 2 });
    run_to_ready(&mut f);
    assert_eq!(f.integration.get(&CellPos { i: 5, j: 2 }), 0);
}

#[test]
fn walled_in_objective_leaves_rest_unreached() {
    // a closed ring of cost 255 around the objective: nothing outside the
    // ring is ever relaxed, so it keeps the sentinel and "no movement"
    let mut f = FlowField::new(CellPos { i: 3, j: 3 });
    for i in 2..=4usize {
        for j in 2..=4usize {
            if (i, j) != (3, 3) {
                f.cost.set(&CellPos { i, j }, 255);
            }
        }
    }
    run_to_ready(&mut f);
    assert_eq!(f.integration.get(&CellPos { i: 3, j: 3 }), 0);
    assert_eq!(f.integration.get(&CellPos { i: 0, j: 0 }), MAX_INTEGRATION);
    assert_eq!(f.integration.get(&CellPos { i: 6, j: 3 }), MAX_INTEGRATION);
    assert_eq!(f.flow.get(&CellPos { i: 0, j: 0 }), 4);
}

#[test]
fn every_reached_cell_points_downhill() {
    // assorted costs with a wall patch: after Ready, every reached cell
    // other than the objective stores a direction whose target has a
    // strictly smaller integration
    let mut f = FlowField::new(CellPos { i: 6, j: 6 });
    f.cost.set(&CellPos { i: 3, j: 3 }, 255);
    f.cost.set(&CellPos { i: 3, j: 4 }, 255);
    f.cost.set(&CellPos { i: 4, j: 3 }, 90);
    f.cost.set(&CellPos { i: 1, j: 2 }, 30);
    run_to_ready(&mut f);
    for i in 0..GRID_SIZE {
        for j in 0..GRID_SIZE {
            let p = CellPos { i, j };
            let v = f.integration.get(&p);
            if v < MAX_INTEGRATION && (i, j) != (6, 6) {
                let d = f.flow.get(&p);
                assert_ne!(d, 4, "reached cell ({i},{j}) has no direction");
                let (dx, dy) = decode(d);
                let q = CellPos {
                    i: (i as i64 + dx) as usize,
                    j: (j as i64 + dy) as usize,
                };
                assert!(f.integration.get(&q) < v, "({i},{j}) does not point downhill");
            }
        }
    }
}

#[test]
fn set_objective_restarts_and_reseeds() {
    let mut f = FlowField::new(CellPos { i: 0, j: 0 });
    run_to_ready(&mut f);
    f.set_objective(CellPos { i: 5, j: 5 });
    assert_eq!(f.state, FlowFieldState::ComputingIntegration);
    run_to_ready(&mut f);
    assert_eq!(f.integration.get(&CellPos { i: 5, j: 5 }), 0);
    assert!(f.integration.get(&CellPos { i: 0, j: 0 }) > 0);
}

#[test]
fn reset_returns_to_created_with_uniform_cost() {
    let mut f = FlowField::new(CellPos { i: 2, j: 2 });
    f.cost.set(&CellPos { i: 4, j: 4 }, 255);
    run_to_ready(&mut f);
    f.reset();
    assert_eq!(f.state, FlowFieldState::Created);
    assert_eq!(f.cost.get(&CellPos { i: 4, j: 4 }), 1);
}

#[test]
fn ready_is_idempotent() {
    let mut f = FlowField::new(CellPos { i: 1, j: 6 });
    run_to_ready(&mut f);
    let snapshot: Vec<i32> = (0..GRID_SIZE * GRID_SIZE)
        .map(|k| f.integration.get(&CellPos { i: k % GRID_SIZE, j: k / GRID_SIZE }))
        .collect();
    assert!(f.step());
    assert!(f.step());
    let after: Vec<i32> = (0..GRID_SIZE * GRID_SIZE)
        .map(|k| f.integration.get(&CellPos { i: k % GRID_SIZE, j: k / GRID_SIZE }))
        .collect();
    assert_eq!(snapshot, after);
    assert_eq!(f.state, FlowFieldState::Ready);
}

#[test]
fn integration_monotone_under_uniform_cost() {
    // with all costs 1, integration equals the octile distance to the
    // objective, which grows with every ring away from it
    let mut f = FlowField::new(CellPos { i: 0, j: 0 });
    run_to_ready(&mut f);
    assert_eq!(f.integration.get(&CellPos { i: 1, j: 1 }), 14);
    assert_eq!(f.integration.get(&CellPos { i: 7, j: 0 }), 70);
    assert_eq!(f.integration.get(&CellPos { i: 7, j: 7 }), 98);
    assert_eq!(f.integration.get(&CellPos { i: 3, j: 2 }), 10 + 2 * 14);
}
